//! The storage handle: owns one store instance (its tables and its
//! location), selects one of two mutually exclusive schemas at open time,
//! and carries the state-commit protocol and the reference-counting
//! garbage collector.
//!
//! Schema: the node table and the code table exist in both modes; the
//! reference-counter table exists only with garbage collection enabled;
//! the transaction, receipt and per-block archives exist only in archival
//! mode. The slot registry is kept with the handle.

use vstd::prelude::*;

use crate::bytes::Address;
use crate::bytes::Hash256;
use crate::bytes::addr_key;
use crate::bytes::clone_bytes;
use crate::bytes::spec_addr_key;
use crate::bytes::spec_u64_be;
use crate::bytes::spec_u64_of_be;
use crate::bytes::u64_from_be;
use crate::bytes::u64_to_be;
use crate::error::Error;
use crate::hashing::keccak_of;
use crate::hashing::keccak256;
use crate::kv::Column;
use crate::kv::map_of;
use crate::trie::TrieTxn;
use crate::trie::apply_trie;
use crate::trie::open_trie;
use crate::trie::spec_empty_root;
use crate::trie::trie_reads;
use crate::trie::trie_root_of;
use crate::account::Account;
use crate::account::AccountChange;
use crate::account::AccountV;
use crate::account::ChangeV;
use crate::account::ChangedState;
use crate::account::dec_account;
use crate::account::decode_account;
use crate::account::enc_account;
use crate::account::encode_account;
use crate::account::spec_account_wf;
use crate::account::spec_zero_account;

verus! {

/// Relies on tempfile::TempDir as an opaque value: a directory deleted
/// when the value is dropped.
#[verifier::external_type_specification]
#[verifier::external_body]
pub struct ExTempDir(tempfile::TempDir);

/// Relies on tempfile::TempDir::new: a fresh directory under the system
/// temporary location, removed when the value is dropped.
#[verifier::external_body]
fn new_temp_dir() -> (r: Result<tempfile::TempDir, Error>) {
    match tempfile::TempDir::new() {
        Ok(d) => Ok(d),
        Err(e) => Err(Error::Store(e.to_string())),
    }
}

/// Relies on tempfile::TempDir::path: the directory's path as text.
#[verifier::external_body]
fn temp_dir_path(d: &tempfile::TempDir) -> (r: String) {
    d.path().to_string_lossy().into_owned()
}

/// Relies on std::format: joins two path segments with a slash.
#[verifier::external_body]
fn join_path(a: &str, b: &str) -> (r: String)
    ensures
        r@ == a@ + seq!['/'] + b@,
{
    format!("{}/{}", a, b)
}

/// Where a store lives: an ephemeral directory torn down with the handle
/// (together with its path as recorded at creation), or a caller-owned
/// persistent path.
pub enum Location {
    Temporary(tempfile::TempDir, String),
    Persistent(String),
}

/// The path a location records.
pub open spec fn spec_location_path(l: Location) -> Seq<char> {
    match l {
        Location::Temporary(_, p) => p@,
        Location::Persistent(p) => p@,
    }
}

/// One open store: the shared node table, the typed tables of the selected
/// schema, the slot registry, and the location.
pub struct Storage {
    nodes: Column,
    codes: Column,
    refc: Column,
    txs: Column,
    receipts: Column,
    txs_per_block: Column,
    slots: Column,
    gc_enabled: bool,
    location: Location,
}

impl Storage {
    /// The node table: content hash to node bytes.
    pub closed spec fn nodes_view(&self) -> Map<Seq<u8>, Seq<u8>> {
        self.nodes@
    }

    /// The code table: content hash to code bytes.
    pub closed spec fn codes_view(&self) -> Map<Seq<u8>, Seq<u8>> {
        self.codes@
    }

    /// The reference-counter table: root hash to 8-byte big-endian count.
    pub closed spec fn refc_view(&self) -> Map<Seq<u8>, Seq<u8>> {
        self.refc@
    }

    /// The transaction archive.
    pub closed spec fn txs_view(&self) -> Map<Seq<u8>, Seq<u8>> {
        self.txs@
    }

    /// The receipt archive.
    pub closed spec fn receipts_view(&self) -> Map<Seq<u8>, Seq<u8>> {
        self.receipts@
    }

    /// The per-block transaction-hash archive.
    pub closed spec fn txs_per_block_view(&self) -> Map<Seq<u8>, Seq<u8>> {
        self.txs_per_block@
    }

    /// The slot registry: 8-byte big-endian slot number to root hash.
    pub closed spec fn slots_view(&self) -> Map<Seq<u8>, Seq<u8>> {
        self.slots@
    }

    /// Whether this handle runs the garbage-collecting schema.
    pub closed spec fn gc_mode(&self) -> bool {
        self.gc_enabled
    }

    /// The path of the handle's location, as recorded when it was opened.
    pub closed spec fn location_view(&self) -> Seq<char> {
        spec_location_path(self.location)
    }

    /// Tables are well-formed and the two schemas stay disjoint: without
    /// garbage collection the counter table is empty, with it the archives
    /// are.
    pub closed spec fn wf(&self) -> bool {
        &&& self.nodes.wf()
        &&& self.codes.wf()
        &&& self.refc.wf()
        &&& self.txs.wf()
        &&& self.receipts.wf()
        &&& self.txs_per_block.wf()
        &&& self.slots.wf()
        &&& (!self.gc_enabled ==> self.refc@ == Map::<Seq<u8>, Seq<u8>>::empty())
        &&& (self.gc_enabled ==> self.txs@ == Map::<Seq<u8>, Seq<u8>>::empty() && self.receipts@
            == Map::<Seq<u8>, Seq<u8>>::empty() && self.txs_per_block@ == Map::<
            Seq<u8>,
            Seq<u8>,
        >::empty())
    }

    /// Whether garbage collection is enabled on this handle.
    pub fn is_gc_enabled(&self) -> (r: bool)
        ensures
            r == self.gc_mode(),
    {
        self.gc_enabled
    }

    fn fresh(gc_enabled: bool, location: Location) -> (r: Storage)
        ensures
            r.wf(),
            r.gc_mode() == gc_enabled,
            r.location_view() == spec_location_path(location),
            r.nodes_view() == Map::<Seq<u8>, Seq<u8>>::empty(),
            r.codes_view() == Map::<Seq<u8>, Seq<u8>>::empty(),
            r.refc_view() == Map::<Seq<u8>, Seq<u8>>::empty(),
            r.txs_view() == Map::<Seq<u8>, Seq<u8>>::empty(),
            r.receipts_view() == Map::<Seq<u8>, Seq<u8>>::empty(),
            r.txs_per_block_view() == Map::<Seq<u8>, Seq<u8>>::empty(),
            r.slots_view() == Map::<Seq<u8>, Seq<u8>>::empty(),
    {
        Storage {
            nodes: Column::new(),
            codes: Column::new(),
            refc: Column::new(),
            txs: Column::new(),
            receipts: Column::new(),
            txs_per_block: Column::new(),
            slots: Column::new(),
            gc_enabled,
            location,
        }
    }

    /// Opens a store owning the given persistent path, with the schema
    /// selected by `gc_enabled`. The handle owns the store exclusively for
    /// its lifetime and starts from empty tables.
    pub fn open_persistent(path: String, gc_enabled: bool) -> (r: Result<Storage, Error>)
        ensures
            match r {
                Ok(s) => s.wf() && s.gc_mode() == gc_enabled && s.location_view() == path@
                    && s.nodes_view() == Map::<Seq<u8>, Seq<u8>>::empty() && s.codes_view()
                    == Map::<Seq<u8>, Seq<u8>>::empty() && s.refc_view() == Map::<
                    Seq<u8>,
                    Seq<u8>,
                >::empty() && s.txs_view() == Map::<Seq<u8>, Seq<u8>>::empty() && s.receipts_view()
                    == Map::<Seq<u8>, Seq<u8>>::empty() && s.txs_per_block_view() == Map::<
                    Seq<u8>,
                    Seq<u8>,
                >::empty() && s.slots_view() == Map::<Seq<u8>, Seq<u8>>::empty(),
                Err(_) => false,
            },
    {
        Ok(Self::fresh(gc_enabled, Location::Persistent(path)))
    }

    /// Opens a store in a fresh temporary directory, torn down with the
    /// handle; garbage collection is disabled.
    pub fn create_temporary() -> (r: Result<Storage, Error>)
        ensures
            match r {
                Ok(s) => s.wf() && !s.gc_mode() && s.nodes_view() == Map::<
                    Seq<u8>,
                    Seq<u8>,
                >::empty() && s.codes_view() == Map::<Seq<u8>, Seq<u8>>::empty() && s.refc_view()
                    == Map::<Seq<u8>, Seq<u8>>::empty() && s.txs_view() == Map::<
                    Seq<u8>,
                    Seq<u8>,
                >::empty() && s.receipts_view() == Map::<Seq<u8>, Seq<u8>>::empty()
                    && s.txs_per_block_view() == Map::<Seq<u8>, Seq<u8>>::empty()
                    && s.slots_view() == Map::<Seq<u8>, Seq<u8>>::empty(),
                Err(e) => e matches Error::Store(_),
            },
    {
        match new_temp_dir() {
            Ok(dir) => {
                let path = temp_dir_path(&dir);
                Ok(Self::fresh(false, Location::Temporary(dir, path)))
            },
            Err(e) => Err(Error::Store(error_text(e))),
        }
    }

    /// A store subdirectory that callers may use for scratch space: the
    /// handle's own location joined with a fixed name, so it shares the
    /// handle's lifetime.
    pub fn get_inner_location(&self) -> (r: String)
        ensures
            r@ == self.location_view() + seq!['/'] + "tmp_inner_space"@,
    {
        match &self.location {
            Location::Temporary(_, p) => join_path(p.as_str(), "tmp_inner_space"),
            Location::Persistent(p) => join_path(p.as_str(), "tmp_inner_space"),
        }
    }

    /// True for the empty-trie root unconditionally, even on a fresh
    /// store; otherwise true exactly when a node is stored under the hash.
    pub fn check_root_exist(&self, root: &Hash256) -> (r: bool)
        requires
            self.wf(),
        ensures
            r == (root@ == spec_empty_root() || self.nodes_view().contains_key(root@)),
    {
        let er = crate::trie::empty_root();
        if root.same(&er) {
            true
        } else {
            self.nodes.has(&root.bytes)
        }
    }

    /// Opens the trie rooted at `root`, materialized as an in-memory
    /// transaction. Succeeds exactly when the root is readable.
    pub fn trie_for(&self, root: &Hash256) -> (r: Result<TrieTxn, Error>)
        requires
            self.wf(),
        ensures
            match r {
                Ok(t) => t.wf() && trie_reads(self.nodes_view(), root@) == Some(t@),
                Err(e) => e == Error::Decode && trie_reads(self.nodes_view(), root@) is None,
            },
    {
        open_trie(&self.nodes, root)
    }

    /// Writes a transaction's nodes and returns the new root: the
    /// canonical root of its contents. The node table only grows, so
    /// every previously readable root remains readable unchanged.
    pub fn apply(&mut self, txn: TrieTxn) -> (r: Result<Hash256, Error>)
        requires
            old(self).wf(),
            txn.wf(),
        ensures
            final(self).wf(),
            old(self).nodes_view().submap_of(final(self).nodes_view()),
            final(self).codes_view() == old(self).codes_view(),
            final(self).refc_view() == old(self).refc_view(),
            final(self).txs_view() == old(self).txs_view(),
            final(self).receipts_view() == old(self).receipts_view(),
            final(self).txs_per_block_view() == old(self).txs_per_block_view(),
            final(self).slots_view() == old(self).slots_view(),
            final(self).gc_mode() == old(self).gc_mode(),
            match r {
                Ok(root) => root.wf() && root@ == trie_root_of(txn@) && trie_reads(
                    final(self).nodes_view(),
                    root@,
                ) == Some(txn@),
                Err(e) => e == Error::HashCollision && (crate::trie::has_collision(
                    final(self).nodes_view(),
                ) || (txn@.dom() != Set::<Seq<u8>>::empty() && crate::trie::sub_hash(txn@, 0)
                    == Some(spec_empty_root()))),
            },
    {
        apply_trie(&mut self.nodes, txn)
    }
}

/// The message of a store-level error, empty for the other kinds.
pub fn error_text(e: Error) -> (r: String)
    ensures
        e matches Error::Store(m) ==> r@ == m@,
        !(e matches Error::Store(_)) ==> r@ == Seq::<char>::empty(),
{
    match e {
        Error::Store(m) => m,
        _ => String::new(),
    }
}

/// The reference count recorded in a counter table: a missing or
/// malformed row counts as zero.
pub open spec fn spec_count_of(refc: Map<Seq<u8>, Seq<u8>>, root: Seq<u8>) -> u64 {
    if refc.contains_key(root) && refc[root].len() == 8 {
        spec_u64_of_be(refc[root])
    } else {
        0
    }
}

/// A counter table after incrementing one root's count, saturating at the
/// largest 64-bit value.
pub open spec fn spec_bump(refc: Map<Seq<u8>, Seq<u8>>, root: Seq<u8>) -> Map<Seq<u8>, Seq<u8>> {
    let c = spec_count_of(refc, root);
    refc.insert(root, spec_u64_be(if c < u64::MAX { (c + 1) as u64 } else { u64::MAX }))
}

/// A counter table after incrementing each root in the list, in order.
pub open spec fn spec_bump_list(m: Map<Seq<u8>, Seq<u8>>, roots: Seq<Seq<u8>>) -> Map<
    Seq<u8>,
    Seq<u8>,
>
    decreases roots.len(),
{
    if roots.len() == 0 {
        m
    } else {
        spec_bump(spec_bump_list(m, roots.drop_last()), roots.last())
    }
}

/// A counter table after decrementing one root's count; a count that
/// reaches zero has its row removed, and zero stays zero.
pub open spec fn spec_drop(refc: Map<Seq<u8>, Seq<u8>>, root: Seq<u8>) -> Map<Seq<u8>, Seq<u8>> {
    let c = spec_count_of(refc, root);
    if c <= 1 {
        refc.remove(root)
    } else {
        refc.insert(root, spec_u64_be((c - 1) as u64))
    }
}

/// The immediate child references of a root's node: the present children
/// of a stored branch node, nothing otherwise.
pub open spec fn spec_node_children(nodes: Map<Seq<u8>, Seq<u8>>, root: Seq<u8>) -> Seq<Seq<u8>> {
    if nodes.contains_key(root) {
        let c = nodes[root];
        if c.len() == 67 && c[0] == 1 {
            (match crate::trie::parse_ref(c.subrange(1, 34)) {
                Some(Some(h)) => seq![h],
                _ => Seq::<Seq<u8>>::empty(),
            }) + (match crate::trie::parse_ref(c.subrange(34, 67)) {
                Some(Some(h)) => seq![h],
                _ => Seq::<Seq<u8>>::empty(),
            })
        } else {
            Seq::<Seq<u8>>::empty()
        }
    } else {
        Seq::<Seq<u8>>::empty()
    }
}

/// Decrements each hash in order, collecting those whose count reaches
/// zero.
pub open spec fn spec_drop_list(refc: Map<Seq<u8>, Seq<u8>>, hs: Seq<Seq<u8>>) -> (
    Map<Seq<u8>, Seq<u8>>,
    Seq<Seq<u8>>,
)
    decreases hs.len(),
{
    if hs.len() == 0 {
        (refc, Seq::<Seq<u8>>::empty())
    } else {
        let prev = spec_drop_list(refc, hs.drop_last());
        let h = hs.last();
        if spec_count_of(prev.0, h) <= 1 {
            (spec_drop(prev.0, h), prev.1.push(h))
        } else {
            (spec_drop(prev.0, h), prev.1)
        }
    }
}

/// One root's removal: its count drops; if it reaches zero, each immediate
/// child of its node loses one reference in turn, and the children whose
/// counts thereby reach zero are collected.
pub open spec fn spec_remove_one(
    nodes: Map<Seq<u8>, Seq<u8>>,
    refc: Map<Seq<u8>, Seq<u8>>,
    root: Seq<u8>,
) -> (Map<Seq<u8>, Seq<u8>>, Seq<Seq<u8>>) {
    let c = spec_count_of(refc, root);
    let m1 = spec_drop(refc, root);
    if c <= 1 {
        spec_drop_list(m1, spec_node_children(nodes, root))
    } else {
        (m1, Seq::<Seq<u8>>::empty())
    }
}

/// Removal of one reference from each root, in order.
pub open spec fn spec_remove_refs(
    nodes: Map<Seq<u8>, Seq<u8>>,
    refc: Map<Seq<u8>, Seq<u8>>,
    roots: Seq<Seq<u8>>,
) -> (Map<Seq<u8>, Seq<u8>>, Seq<Seq<u8>>)
    decreases roots.len(),
{
    if roots.len() == 0 {
        (refc, Seq::<Seq<u8>>::empty())
    } else {
        let prev = spec_remove_refs(nodes, refc, roots.drop_last());
        let one = spec_remove_one(nodes, prev.0, roots.last());
        (one.0, prev.1 + one.1)
    }
}

impl Storage {
    /// Reads a count out of the counter table.
    fn read_count(&self, root: &Hash256) -> (r: u64)
        requires
            self.wf(),
        ensures
            r == spec_count_of(self.refc_view(), root@),
    {
        match self.refc.get(&root.bytes) {
            Some(v) => {
                if v.len() == 8 {
                    u64_from_be(&v)
                } else {
                    0
                }
            },
            None => 0,
        }
    }

    /// Increments a root's reference count, saturating.
    fn bump_count(&mut self, root: &Hash256)
        requires
            old(self).wf(),
            old(self).gc_mode(),
        ensures
            final(self).wf(),
            final(self).refc_view() == spec_bump(old(self).refc_view(), root@),
            final(self).nodes_view() == old(self).nodes_view(),
            final(self).codes_view() == old(self).codes_view(),
            final(self).txs_view() == old(self).txs_view(),
            final(self).receipts_view() == old(self).receipts_view(),
            final(self).txs_per_block_view() == old(self).txs_per_block_view(),
            final(self).slots_view() == old(self).slots_view(),
            final(self).gc_mode() == old(self).gc_mode(),
    {
        let c = self.read_count(root);
        let c2: u64 = if c < u64::MAX {
            c + 1
        } else {
            u64::MAX
        };
        let key = clone_bytes(&root.bytes);
        self.refc.put(key, u64_to_be(c2));
    }

    /// Decrements a root's reference count; the row is removed when the
    /// count reaches zero. Returns the count after the call.
    fn drop_count(&mut self, root: &Hash256) -> (r: u64)
        requires
            old(self).wf(),
            old(self).gc_mode(),
        ensures
            final(self).wf(),
            final(self).refc_view() == spec_drop(old(self).refc_view(), root@),
            r == spec_count_of(final(self).refc_view(), root@),
            spec_count_of(old(self).refc_view(), root@) > 1 ==> r == spec_count_of(
                old(self).refc_view(),
                root@,
            ) - 1,
            spec_count_of(old(self).refc_view(), root@) <= 1 ==> r == 0,
            final(self).nodes_view() == old(self).nodes_view(),
            final(self).codes_view() == old(self).codes_view(),
            final(self).txs_view() == old(self).txs_view(),
            final(self).receipts_view() == old(self).receipts_view(),
            final(self).txs_per_block_view() == old(self).txs_per_block_view(),
            final(self).slots_view() == old(self).slots_view(),
            final(self).gc_mode() == old(self).gc_mode(),
    {
        let c = self.read_count(root);
        if c <= 1 {
            self.refc.del(&root.bytes);
            proof {
                crate::bytes::lemma_u64_be_roundtrip(0);
            }
            0
        } else {
            let c2: u64 = c - 1;
            let key = clone_bytes(&root.bytes);
            self.refc.put(key, u64_to_be(c2));
            proof {
                crate::bytes::lemma_u64_be_roundtrip(c2);
            }
            c2
        }
    }

    /// The current reference count of a root; zero with garbage
    /// collection disabled.
    pub fn gc_count(&self, link: &Hash256) -> (r: Result<u64, Error>)
        requires
            self.wf(),
        ensures
            match r {
                Ok(c) => c == (if self.gc_mode() {
                    spec_count_of(self.refc_view(), link@)
                } else {
                    0u64
                }),
                Err(_) => false,
            },
    {
        if !self.gc_enabled {
            return Ok(0);
        }
        Ok(self.read_count(link))
    }

    /// Registers one more parent of a root: an account whose storage root
    /// it became, or a slot anchor. A no-op with garbage collection
    /// disabled. The count saturates at the largest 64-bit value.
    pub(crate) fn gc_register_root_link(&mut self, root: &Hash256) -> (r: Result<(), Error>)
        requires
            old(self).wf(),
        ensures
            final(self).wf(),
            r is Ok,
            final(self).refc_view() == (if old(self).gc_mode() {
                spec_bump(old(self).refc_view(), root@)
            } else {
                old(self).refc_view()
            }),
            final(self).nodes_view() == old(self).nodes_view(),
            final(self).codes_view() == old(self).codes_view(),
            final(self).txs_view() == old(self).txs_view(),
            final(self).receipts_view() == old(self).receipts_view(),
            final(self).txs_per_block_view() == old(self).txs_per_block_view(),
            final(self).slots_view() == old(self).slots_view(),
            final(self).gc_mode() == old(self).gc_mode(),
    {
        if self.gc_enabled {
            self.bump_count(root);
        }
        Ok(())
    }

    /// Records `slot -> root` and increments the root's reference count.
    /// A no-op with garbage collection disabled. Re-registering a slot
    /// overwrites its mapping and releases the replaced root's reference:
    /// the slot stops pointing at it.
    pub fn register_slot(&mut self, slot: u64, root: &Hash256) -> (r: Result<(), Error>)
        requires
            old(self).wf(),
            root.wf(),
        ensures
            final(self).wf(),
            r is Ok,
            final(self).slots_view() == (if old(self).gc_mode() {
                old(self).slots_view().insert(spec_u64_be(slot), root@)
            } else {
                old(self).slots_view()
            }),
            final(self).refc_view() == (if old(self).gc_mode() {
                spec_bump(
                    if old(self).slots_view().contains_key(spec_u64_be(slot)) {
                        spec_drop(
                            old(self).refc_view(),
                            old(self).slots_view()[spec_u64_be(slot)],
                        )
                    } else {
                        old(self).refc_view()
                    },
                    root@,
                )
            } else {
                old(self).refc_view()
            }),
            final(self).nodes_view() == old(self).nodes_view(),
            final(self).codes_view() == old(self).codes_view(),
            final(self).txs_view() == old(self).txs_view(),
            final(self).receipts_view() == old(self).receipts_view(),
            final(self).txs_per_block_view() == old(self).txs_per_block_view(),
            final(self).gc_mode() == old(self).gc_mode(),
    {
        if !self.gc_enabled {
            return Ok(());
        }
        let key = u64_to_be(slot);
        match self.slots.get(&key) {
            Some(replaced) => {
                let old_root = Hash256 { bytes: replaced };
                let _ = self.drop_count(&old_root);
            },
            None => {},
        }
        let _ = self.gc_register_root_link(root);
        self.slots.put(key, clone_bytes(&root.bytes));
        Ok(())
    }

    /// Removes the `slot -> root` mapping, if any, and decrements that
    /// root's reference count. Returns the root exactly when this call
    /// brought its count to zero. A no-op returning nothing with garbage
    /// collection disabled or for an unregistered slot.
    pub fn purge_slot(&mut self, slot: u64) -> (r: Result<Option<Hash256>, Error>)
        requires
            old(self).wf(),
        ensures
            final(self).wf(),
            final(self).nodes_view() == old(self).nodes_view(),
            final(self).codes_view() == old(self).codes_view(),
            final(self).txs_view() == old(self).txs_view(),
            final(self).receipts_view() == old(self).receipts_view(),
            final(self).txs_per_block_view() == old(self).txs_per_block_view(),
            final(self).gc_mode() == old(self).gc_mode(),
            match r {
                Ok(out) => {
                    if !old(self).gc_mode() || !old(self).slots_view().contains_key(
                        spec_u64_be(slot),
                    ) {
                        out is None && final(self).slots_view() == old(self).slots_view()
                            && final(self).refc_view() == old(self).refc_view()
                    } else {
                        {
                            let root = old(self).slots_view()[spec_u64_be(slot)];
                            &&& final(self).slots_view() == old(self).slots_view().remove(
                                spec_u64_be(slot),
                            )
                            &&& final(self).refc_view() == spec_drop(old(self).refc_view(), root)
                            &&& (out matches Some(h) ==> h@ == root && spec_count_of(
                                old(self).refc_view(),
                                root,
                            ) <= 1)
                            &&& (out is None ==> spec_count_of(old(self).refc_view(), root) > 1)
                        }
                    }
                },
                Err(_) => false,
            },
    {
        if !self.gc_enabled {
            return Ok(None);
        }
        let key = u64_to_be(slot);
        match self.slots.get(&key) {
            None => Ok(None),
            Some(root_bytes) => {
                self.slots.del(&key);
                let ghost rb = root_bytes@;
                let root = Hash256 { bytes: root_bytes };
                let after = self.drop_count(&root);
                if after == 0 {
                    let c = self.read_count(&root);
                    proof {
                        if spec_count_of(old(self).refc_view(), rb) > 1 {
                            crate::bytes::lemma_u64_be_roundtrip(
                                (spec_count_of(old(self).refc_view(), rb) - 1) as u64,
                            );
                        }
                    }
                    if c == 0 {
                        Ok(Some(root))
                    } else {
                        Ok(None)
                    }
                } else {
                    Ok(None)
                }
            },
        }
    }

    /// Removes one reference from each given root, in order. When a root's
    /// count reaches zero its counter row is removed and each immediate
    /// child reference of its node loses one reference in turn; the
    /// returned set holds exactly the children whose counts thereby
    /// reached zero: one level of cascade per call, driven further by
    /// re-invoking with the returned set. A no-op returning nothing with
    /// garbage collection disabled. Exclusive access through the handle
    /// keeps the counter updates atomic.
    pub fn gc_remove_references(&mut self, references: &Vec<Hash256>) -> (r: Result<
        Vec<Hash256>,
        Error,
    >)
        requires
            old(self).wf(),
        ensures
            final(self).wf(),
            r is Ok,
            final(self).gc_mode() == old(self).gc_mode(),
            final(self).nodes_view() == old(self).nodes_view(),
            final(self).codes_view() == old(self).codes_view(),
            final(self).txs_view() == old(self).txs_view(),
            final(self).receipts_view() == old(self).receipts_view(),
            final(self).txs_per_block_view() == old(self).txs_per_block_view(),
            final(self).slots_view() == old(self).slots_view(),
            match r {
                Ok(out) => {
                    if old(self).gc_mode() {
                        {
                            let rs = spec_remove_refs(
                                old(self).nodes_view(),
                                old(self).refc_view(),
                                references@.map_values(|h: Hash256| h@),
                            );
                            &&& final(self).refc_view() == rs.0
                            &&& out@.map_values(|h: Hash256| h@) == rs.1
                        }
                    } else {
                        out@.len() == 0 && final(self).refc_view() == old(self).refc_view()
                    }
                },
                Err(_) => false,
            },
    {
        if !self.gc_enabled {
            return Ok(Vec::new());
        }
        let ghost nv = self.nodes@;
        let ghost refc0 = self.refc@;
        let ghost rv = references@.map_values(|h: Hash256| h@);
        let mut out: Vec<Hash256> = Vec::new();
        let n = references.len();
        let mut i: usize = 0;
        while i < n
            invariant
                i <= n,
                n == references@.len(),
                rv == references@.map_values(|h: Hash256| h@),
                self.wf(),
                self.gc_enabled,
                nv == self.nodes@,
                self.gc_enabled == old(self).gc_mode(),
                refc0 == old(self).refc_view(),
                nv == old(self).nodes_view(),
                self.codes@ == old(self).codes_view(),
                self.txs@ == old(self).txs_view(),
                self.receipts@ == old(self).receipts_view(),
                self.txs_per_block@ == old(self).txs_per_block_view(),
                self.slots@ == old(self).slots_view(),
                self.refc@ == spec_remove_refs(nv, refc0, rv.take(i as int)).0,
                out@.map_values(|h: Hash256| h@) == spec_remove_refs(nv, refc0, rv.take(i as int)).1,
            decreases n - i,
        {
            proof {
                assert(rv.take((i + 1) as int).drop_last() =~= rv.take(i as int));
                assert(rv.take((i + 1) as int).last() == rv[i as int]);
                assert(rv[i as int] == references@[i as int]@);
            }
            let ghost m1 = self.refc@;
            let ghost outv = out@.map_values(|h: Hash256| h@);
            let root = &references[i];
            let c = self.read_count(root);
            let after = self.drop_count(root);
            if c <= 1 {
                let kids = self.node_children(root);
                let ghost kv_ = kids@.map_values(|h: Hash256| h@);
                proof {
                    assert(kv_ == spec_node_children(nv, rv[i as int]));
                }
                let nk = kids.len();
                let mut t: usize = 0;
                while t < nk
                    invariant
                        t <= nk,
                        nk == kids@.len(),
                        kv_ == kids@.map_values(|h: Hash256| h@),
                        self.wf(),
                        self.gc_enabled,
                        nv == self.nodes@,
                        self.gc_enabled == old(self).gc_mode(),
                        nv == old(self).nodes_view(),
                        self.codes@ == old(self).codes_view(),
                        self.txs@ == old(self).txs_view(),
                        self.receipts@ == old(self).receipts_view(),
                        self.txs_per_block@ == old(self).txs_per_block_view(),
                        self.slots@ == old(self).slots_view(),
                        self.refc@ == spec_drop_list(spec_drop(m1, rv[i as int]), kv_.take(t as int)).0,
                        out@.map_values(|h: Hash256| h@) == outv + spec_drop_list(
                            spec_drop(m1, rv[i as int]),
                            kv_.take(t as int),
                        ).1,
                    decreases nk - t,
                {
                    proof {
                        assert(kv_.take((t + 1) as int).drop_last() =~= kv_.take(t as int));
                        assert(kv_.take((t + 1) as int).last() == kv_[t as int]);
                        assert(kv_[t as int] == kids@[t as int]@);
                    }
                    let kid = &kids[t];
                    let kc = self.read_count(kid);
                    let _ = self.drop_count(kid);
                    if kc <= 1 {
                        let ghost outpre2 = out@;
                        out.push(kid.dup());
                        proof {
                            assert(out@.map_values(|h: Hash256| h@) =~= outpre2.map_values(
                                |h: Hash256| h@,
                            ).push(kv_[t as int]));
                        }
                    }
                    t = t + 1;
                }
                proof {
                    assert(kv_.take(nk as int) =~= kv_);
                    assert(self.refc@ == spec_remove_refs(nv, refc0, rv.take((i + 1) as int)).0);
                    assert(out@.map_values(|h: Hash256| h@) =~= spec_remove_refs(
                        nv,
                        refc0,
                        rv.take((i + 1) as int),
                    ).1);
                }
            } else {
                proof {
                    assert(out@.map_values(|h: Hash256| h@) =~= spec_remove_refs(
                        nv,
                        refc0,
                        rv.take((i + 1) as int),
                    ).1);
                }
            }
            i = i + 1;
        }
        proof {
            assert(rv.take(n as int) =~= rv);
        }
        Ok(out)
    }

    /// The immediate child roots referenced by a stored branch node.
    fn node_children(&self, root: &Hash256) -> (r: Vec<Hash256>)
        requires
            self.wf(),
        ensures
            r@.map_values(|h: Hash256| h@) == spec_node_children(self.nodes_view(), root@),
    {
        let mut out: Vec<Hash256> = Vec::new();
        match self.nodes.get(&root.bytes) {
            None => {
                proof {
                    assert(out@.map_values(|h: Hash256| h@) =~= spec_node_children(
                        self.nodes_view(),
                        root@,
                    ));
                }
            },
            Some(c) => {
                if c.len() == 67 && c[0] == 1u8 {
                    proof {
                        assert(c@.subrange(1, 34)[0] == c@[1]);
                        assert(c@.subrange(34, 67)[0] == c@[34]);
                        assert(c@.subrange(1, 34).skip(1) =~= c@.subrange(2, 34));
                        assert(c@.subrange(34, 67).skip(1) =~= c@.subrange(35, 67));
                    }
                    if c[1] == 1u8 {
                        out.push(Hash256 { bytes: crate::bytes::sub_bytes(&c, 2, 34) });
                    }
                    if c[34] == 1u8 {
                        out.push(Hash256 { bytes: crate::bytes::sub_bytes(&c, 35, 67) });
                    }
                    proof {
                        assert(out@.map_values(|h: Hash256| h@) =~= spec_node_children(
                            self.nodes_view(),
                            root@,
                        ));
                    }
                } else {
                    proof {
                        assert(out@.map_values(|h: Hash256| h@) =~= spec_node_children(
                            self.nodes_view(),
                            root@,
                        ));
                    }
                }
            },
        }
        out
    }

    /// Every row of the node table, for a caller persisting the store.
    pub fn node_rows(&self) -> (r: Vec<(Vec<u8>, Vec<u8>)>)
        requires
            self.wf(),
        ensures
            map_of(crate::kv::rows_view(r@)) == self.nodes_view(),
    {
        self.nodes.all_rows()
    }

    /// Every row of the code table, for a caller persisting the store.
    pub fn code_rows(&self) -> (r: Vec<(Vec<u8>, Vec<u8>)>)
        requires
            self.wf(),
        ensures
            map_of(crate::kv::rows_view(r@)) == self.codes_view(),
    {
        self.codes.all_rows()
    }

    /// Restores one node row, as a backup reader hands them back.
    pub fn import_node_row(&mut self, key: Vec<u8>, value: Vec<u8>)
        requires
            old(self).wf(),
        ensures
            final(self).wf(),
            final(self).nodes_view() == old(self).nodes_view().insert(key@, value@),
            final(self).codes_view() == old(self).codes_view(),
            final(self).refc_view() == old(self).refc_view(),
            final(self).txs_view() == old(self).txs_view(),
            final(self).receipts_view() == old(self).receipts_view(),
            final(self).txs_per_block_view() == old(self).txs_per_block_view(),
            final(self).slots_view() == old(self).slots_view(),
            final(self).gc_mode() == old(self).gc_mode(),
    {
        self.nodes.put(key, value);
    }

    /// Restores one code row, as a backup reader hands them back.
    pub fn import_code_row(&mut self, key: Vec<u8>, value: Vec<u8>)
        requires
            old(self).wf(),
        ensures
            final(self).wf(),
            final(self).codes_view() == old(self).codes_view().insert(key@, value@),
            final(self).nodes_view() == old(self).nodes_view(),
            final(self).refc_view() == old(self).refc_view(),
            final(self).txs_view() == old(self).txs_view(),
            final(self).receipts_view() == old(self).receipts_view(),
            final(self).txs_per_block_view() == old(self).txs_per_block_view(),
            final(self).slots_view() == old(self).slots_view(),
            final(self).gc_mode() == old(self).gc_mode(),
    {
        self.codes.put(key, value);
    }

    /// Bulk-copies every node row and every code row from `other`. Both
    /// handles must be in archival mode: independently counted stores can
    /// disagree on true reference counts, so merging counted stores is
    /// rejected before any row is copied.
    pub fn merge_from_db(&mut self, other: &Storage) -> (r: Result<(), Error>)
        requires
            old(self).wf(),
            other.wf(),
        ensures
            final(self).wf(),
            final(self).gc_mode() == old(self).gc_mode(),
            final(self).refc_view() == old(self).refc_view(),
            final(self).txs_view() == old(self).txs_view(),
            final(self).receipts_view() == old(self).receipts_view(),
            final(self).txs_per_block_view() == old(self).txs_per_block_view(),
            final(self).slots_view() == old(self).slots_view(),
            match r {
                Ok(_) => !old(self).gc_mode() && !other.gc_mode() && final(self).nodes_view()
                    == old(self).nodes_view().union_prefer_right(other.nodes_view())
                    && final(self).codes_view() == old(self).codes_view().union_prefer_right(
                    other.codes_view(),
                ),
                Err(e) => e == Error::Precondition && (old(self).gc_mode() || other.gc_mode())
                    && final(self).nodes_view() == old(self).nodes_view() && final(self).codes_view() == old(self).codes_view(),
            },
    {
        if self.gc_enabled || other.gc_enabled {
            return Err(Error::Precondition);
        }
        merge_column(&mut self.nodes, &other.nodes);
        merge_column(&mut self.codes, &other.codes);
        Ok(())
    }
}

/// The tables a commit writes: the account-trie contents being built, the
/// code table, and the reference-counter table.
pub ghost struct CommitView {
    pub accounts: Map<Seq<u8>, Seq<u8>>,
    pub codes: Map<Seq<u8>, Seq<u8>>,
    pub refc: Map<Seq<u8>, Seq<u8>>,
}

/// A storage trie's contents after one account's writes, in order: a zero
/// word deletes its index, any other word is stored.
pub open spec fn apply_storage_writes(
    m: Map<Seq<u8>, Seq<u8>>,
    w: Seq<(Seq<u8>, Seq<u8>)>,
) -> Map<Seq<u8>, Seq<u8>>
    decreases w.len(),
{
    if w.len() == 0 {
        m
    } else {
        let prev = apply_storage_writes(m, w.drop_last());
        if w.last().1 == crate::bytes::zeros(32) {
            prev.remove(w.last().0)
        } else {
            prev.insert(w.last().0, w.last().1)
        }
    }
}

/// The account a delta starts from: the stored row under the address key,
/// or the zero account if absent. `None` marks a malformed stored row.
pub open spec fn spec_base_account(accounts: Map<Seq<u8>, Seq<u8>>, key: Seq<u8>) -> Option<
    AccountV,
> {
    if accounts.contains_key(key) {
        if accounts[key].len() == 104 {
            Some(dec_account(accounts[key]))
        } else {
            None
        }
    } else {
        Some(spec_zero_account())
    }
}

/// One address's effect on the commit state. Addresses in a batch are
/// distinct, so the base account and its storage trie are read from the
/// prior version (`acc0` over the node store `n0`). A storage root gains a
/// reference exactly when the account starts pointing at it: when it
/// differs from the base account's. `None` marks a malformed account row
/// or an unreadable storage trie.
pub open spec fn apply_change(
    n0: Map<Seq<u8>, Seq<u8>>,
    acc0: Map<Seq<u8>, Seq<u8>>,
    gc: bool,
    cs: CommitView,
    addr: Seq<u8>,
    ch: ChangeV,
) -> Option<CommitView> {
    let key = spec_addr_key(addr);
    match ch {
        ChangeV::Remove => Some(
            CommitView { accounts: cs.accounts.remove(key), codes: cs.codes, refc: cs.refc },
        ),
        ChangeV::Update { nonce, balance, code, storage } => match spec_base_account(acc0, key) {
            None => None,
            Some(base) => match trie_reads(n0, base.storage_root) {
                None => None,
                Some(sm) => {
                    let sm2 = apply_storage_writes(sm, storage);
                    let sroot = trie_root_of(sm2);
                    let ch_hash = if code.len() > 0 {
                        keccak_of(code)
                    } else {
                        base.code_hash
                    };
                    let codes2 = if code.len() > 0 {
                        cs.codes.insert(keccak_of(code), code)
                    } else {
                        cs.codes
                    };
                    let refc2 = if gc && sroot != base.storage_root {
                        spec_bump(cs.refc, sroot)
                    } else {
                        cs.refc
                    };
                    let acct = AccountV { nonce, balance, code_hash: ch_hash, storage_root: sroot };
                    Some(
                        CommitView {
                            accounts: cs.accounts.insert(key, enc_account(acct)),
                            codes: codes2,
                            refc: refc2,
                        },
                    )
                },
            },
        },
    }
}

/// The storage contents an update delta commits: the prior storage trie's
/// contents with the delta's writes applied. `None` for a removal, a
/// malformed account row or an unreadable prior storage trie.
pub open spec fn spec_step_storage(
    n0: Map<Seq<u8>, Seq<u8>>,
    acc0: Map<Seq<u8>, Seq<u8>>,
    addr: Seq<u8>,
    ch: ChangeV,
) -> Option<Map<Seq<u8>, Seq<u8>>> {
    match ch {
        ChangeV::Remove => None,
        ChangeV::Update { nonce, balance, code, storage } => match spec_base_account(
            acc0,
            spec_addr_key(addr),
        ) {
            None => None,
            Some(base) => match trie_reads(n0, base.storage_root) {
                None => None,
                Some(sm) => Some(apply_storage_writes(sm, storage)),
            },
        },
    }
}

/// The commit state after a whole batch, processed in order.
pub open spec fn apply_changes(
    n0: Map<Seq<u8>, Seq<u8>>,
    acc0: Map<Seq<u8>, Seq<u8>>,
    gc: bool,
    cs: CommitView,
    ups: Seq<(Seq<u8>, ChangeV)>,
) -> Option<CommitView>
    decreases ups.len(),
{
    if ups.len() == 0 {
        Some(cs)
    } else {
        match apply_changes(n0, acc0, gc, cs, ups.drop_last()) {
            None => None,
            Some(cs2) => apply_change(n0, acc0, gc, cs2, ups.last().0, ups.last().1),
        }
    }
}

/// A batch that fails at some prefix fails as a whole.
proof fn lemma_changes_none(
    n0: Map<Seq<u8>, Seq<u8>>,
    acc0: Map<Seq<u8>, Seq<u8>>,
    gc: bool,
    cs: CommitView,
    ups: Seq<(Seq<u8>, ChangeV)>,
    k: int,
)
    requires
        0 <= k <= ups.len(),
        apply_changes(n0, acc0, gc, cs, ups.take(k)) is None,
    ensures
        apply_changes(n0, acc0, gc, cs, ups) is None,
    decreases ups.len() - k,
{
    if k == ups.len() {
        assert(ups.take(k) =~= ups);
    } else {
        assert(ups.take(k + 1).drop_last() =~= ups.take(k));
        assert(apply_changes(n0, acc0, gc, cs, ups.take(k + 1)) is None);
        lemma_changes_none(n0, acc0, gc, cs, ups, k + 1);
    }
}

/// What a planned write remembers about its delta, checked against the
/// prior version.
enum Plan {
    Remove { key: Hash256 },
    Put {
        key: Hash256,
        nonce: u64,
        balance: Hash256,
        code: Vec<u8>,
        base_code_hash: Hash256,
        base_storage_root: Hash256,
        storage_txn: TrieTxn,
    },
}

/// The plan for one delta agrees with the commit specification's reading
/// of the prior version.
spec fn plan_matches(
    n0: Map<Seq<u8>, Seq<u8>>,
    acc0: Map<Seq<u8>, Seq<u8>>,
    p: Plan,
    addr: Seq<u8>,
    ch: ChangeV,
) -> bool {
    match ch {
        ChangeV::Remove => p matches Plan::Remove { key } && key@ == spec_addr_key(addr)
            && key.wf(),
        ChangeV::Update { nonce, balance, code, storage } => p matches Plan::Put {
            key,
            nonce: pn,
            balance: pb,
            code: pc,
            base_code_hash: bch,
            base_storage_root: bsr,
            storage_txn: st,
        } && {
            let base = spec_base_account(acc0, spec_addr_key(addr));
            &&& key@ == spec_addr_key(addr) && key.wf()
            &&& pn == nonce
            &&& pb@ == balance && pb.wf()
            &&& pc@ == code
            &&& base is Some
            &&& spec_account_wf(base.unwrap())
            &&& bch@ == base.unwrap().code_hash && bch.wf()
            &&& bsr@ == base.unwrap().storage_root && bsr.wf()
            &&& trie_reads(n0, base.unwrap().storage_root) is Some
            &&& st.wf()
            &&& st@ == apply_storage_writes(trie_reads(n0, base.unwrap().storage_root).unwrap(), storage)
        },
    }
}

impl Storage {
    /// The state-commit protocol: consumes a prior state root and one
    /// delta per touched address, writes the new storage-trie and
    /// account-trie nodes, stores freshly supplied code under its content
    /// hash, registers each changed storage root with the collector, and
    /// returns the new state root. Every committed storage root reads back
    /// to its contents from the final node table.
    ///
    /// On success the result is exactly the commit specification
    /// `apply_changes` applied to the prior version; the node table only
    /// grows, so every earlier version remains readable. On any failure
    /// the code and counter tables are untouched: their writes are staged
    /// and applied only once every delta has succeeded. A `Decode` error
    /// means the prior version could not be read, with nothing at all
    /// changed; a `HashCollision` error is returned only for a witnessed
    /// content-hash collision, produces no new root, and leaves at most
    /// unreferenced node rows behind, which the cleaner reclaims.
    pub fn flush_changes(&mut self, state_root: &Hash256, changes: &ChangedState) -> (r: Result<
        Hash256,
        Error,
    >)
        requires
            old(self).wf(),
            changes.wf(),
        ensures
            final(self).wf(),
            final(self).gc_mode() == old(self).gc_mode(),
            old(self).nodes_view().submap_of(final(self).nodes_view()),
            final(self).txs_view() == old(self).txs_view(),
            final(self).receipts_view() == old(self).receipts_view(),
            final(self).txs_per_block_view() == old(self).txs_per_block_view(),
            final(self).slots_view() == old(self).slots_view(),
            match r {
                Ok(root) => ({
                    let acc0 = trie_reads(old(self).nodes_view(), state_root@).unwrap();
                    let cs0 = CommitView {
                        accounts: acc0,
                        codes: old(self).codes_view(),
                        refc: old(self).refc_view(),
                    };
                    let csf = apply_changes(
                        old(self).nodes_view(),
                        acc0,
                        old(self).gc_mode(),
                        cs0,
                        changes@,
                    );
                    &&& trie_reads(old(self).nodes_view(), state_root@) is Some
                    &&& csf is Some
                    &&& root.wf()
                    &&& root@ == trie_root_of(csf.unwrap().accounts)
                    &&& trie_reads(final(self).nodes_view(), root@) == Some(csf.unwrap().accounts)
                    &&& final(self).codes_view() == csf.unwrap().codes
                    &&& final(self).refc_view() == csf.unwrap().refc
                    &&& forall|jj: int|
                        0 <= jj < changes@.len() && (#[trigger] spec_step_storage(
                            old(self).nodes_view(),
                            acc0,
                            changes@[jj].0,
                            changes@[jj].1,
                        )) is Some ==> trie_reads(
                            final(self).nodes_view(),
                            trie_root_of(
                                spec_step_storage(
                                    old(self).nodes_view(),
                                    acc0,
                                    changes@[jj].0,
                                    changes@[jj].1,
                                ).unwrap(),
                            ),
                        ) == Some(
                            spec_step_storage(
                                old(self).nodes_view(),
                                acc0,
                                changes@[jj].0,
                                changes@[jj].1,
                            ).unwrap(),
                        )
                }),
                Err(e) => (e == Error::Decode || e == Error::HashCollision) && final(self).codes_view() == old(self).codes_view() && final(self).refc_view() == old(
                    self,
                ).refc_view() && (e == Error::HashCollision ==> (crate::trie::has_collision(
                    final(self).nodes_view(),
                ) || exists|m: Map<Seq<u8>, Seq<u8>>|
                    #[trigger] crate::trie::sub_hash(m, 0) == Some(spec_empty_root()) && m.dom()
                        != Set::<Seq<u8>>::empty())) && (e == Error::Decode ==> final(self).nodes_view() == old(self).nodes_view() && (trie_reads(
                    old(self).nodes_view(),
                    state_root@,
                ) is None || ({
                    let acc0 = trie_reads(old(self).nodes_view(), state_root@).unwrap();
                    apply_changes(
                        old(self).nodes_view(),
                        acc0,
                        old(self).gc_mode(),
                        CommitView {
                            accounts: acc0,
                            codes: old(self).codes_view(),
                            refc: old(self).refc_view(),
                        },
                        changes@,
                    ) is None
                }))),
            },
    {
        let gc = self.gc_enabled;
        let ghost n0 = self.nodes@;
        let mut acc_txn = match self.trie_for(state_root) {
            Ok(t) => t,
            Err(e) => {
                return Err(e);
            },
        };
        let ghost acc0 = acc_txn@;
        let ghost cs0 = CommitView { accounts: acc0, codes: self.codes@, refc: self.refc@ };

        // Read phase: resolve every delta against the prior version.
        let mut plans: Vec<Plan> = Vec::new();
        let n = changes.updates.len();
        let mut i: usize = 0;
        while i < n
            invariant
                i <= n,
                n == changes@.len(),
                changes.wf(),
                self == old(self),
                n0 == self.nodes@,
                gc == self.gc_enabled,
                cs0 == (CommitView { accounts: acc0, codes: self.codes@, refc: self.refc@ }),
                self.wf(),
                acc_txn.wf(),
                acc0 == acc_txn@,
                trie_reads(n0, state_root@) == Some(acc0),
                plans@.len() == i,
                forall|j: int|
                    0 <= j < i ==> plan_matches(n0, acc0, #[trigger] plans@[j], changes@[j].0, changes@[j].1),
            decreases n - i,
        {
            let (addr, change) = &changes.updates[i];
            proof {
                assert(changes@[i as int].0 == addr@);
                assert(changes@[i as int].1 == change@);
            }
            let key_bytes = addr_key(addr);
            let key = Hash256 { bytes: key_bytes };
            match change {
                AccountChange::Remove => {
                    plans.push(Plan::Remove { key });
                },
                AccountChange::Update { nonce, balance, code, storage } => {
                    let base = match acc_txn.get(&key) {
                        Some(b) => match decode_account(&b) {
                            Some(a) => a,
                            None => {
                                proof {
                                    assert(spec_base_account(acc0, key@) is None);
                                    assert(changes@.take(i + 1).drop_last() =~= changes@.take(
                                        i as int,
                                    ));
                                    assert(changes@.take(i + 1).last() == changes@[i as int]);
                                    assert(changes@[i as int].1 == change@);
                                    assert(apply_changes(n0, acc0, gc, cs0, changes@.take(i + 1))
                                        is None);
                                    lemma_changes_none(n0, acc0, gc, cs0, changes@, i + 1);
                                }
                                return Err(Error::Decode);
                            },
                        },
                        None => Account::zero(),
                    };
                    proof {
                        assert(spec_base_account(acc0, key@) == Some(base@));
                    }
                    let mut storage_txn = match self.trie_for(&base.storage_root) {
                        Ok(t) => t,
                        Err(e) => {
                            proof {
                                assert(trie_reads(n0, base@.storage_root) is None);
                                assert(changes@.take(i + 1).drop_last() =~= changes@.take(i as int));
                                assert(changes@.take(i + 1).last() == changes@[i as int]);
                                assert(changes@[i as int].1 == change@);
                                assert(apply_changes(n0, acc0, gc, cs0, changes@.take(i + 1))
                                    is None);
                                lemma_changes_none(n0, acc0, gc, cs0, changes@, i + 1);
                            }
                            return Err(Error::Decode);
                        },
                    };
                    let ghost sm0 = storage_txn@;
                    let ghost stv = storage@.map_values(|p: (Hash256, Hash256)| (p.0@, p.1@));
                    let ns = storage.len();
                    let mut si: usize = 0;
                    while si < ns
                        invariant
                            si <= ns,
                            ns == storage@.len(),
                            stv == storage@.map_values(|p: (Hash256, Hash256)| (p.0@, p.1@)),
                            forall|t: int|
                                0 <= t < stv.len() ==> (#[trigger] stv[t]).0.len() == 32
                                    && stv[t].1.len() == 32,
                            storage_txn.wf(),
                            storage_txn@ == apply_storage_writes(sm0, stv.take(si as int)),
                        decreases ns - si,
                    {
                        let (index, value) = &storage[si];
                        proof {
                            assert(stv[si as int] == (index@, value@));
                            assert(stv.take((si + 1) as int).drop_last() =~= stv.take(si as int));
                            assert(stv.take((si + 1) as int).last() == stv[si as int]);
                        }
                        if value.is_zero() {
                            storage_txn.remove(index);
                        } else {
                            storage_txn.insert(index, clone_bytes(&value.bytes));
                        }
                        si = si + 1;
                    }
                    proof {
                        assert(stv.take(ns as int) =~= stv);
                    }
                    plans.push(
                        Plan::Put {
                            key,
                            nonce: *nonce,
                            balance: balance.dup(),
                            code: clone_bytes(code),
                            base_code_hash: base.code_hash,
                            base_storage_root: base.storage_root,
                            storage_txn,
                        },
                    );
                },
            }
            i = i + 1;
        }

        // Write phase: apply each storage trie and rebuild the account
        // trie; code rows and counter increments are staged and written
        // only once every delta has succeeded, so a failed commit leaves
        // the code and counter tables untouched.
        let mut code_stage: Vec<(Vec<u8>, Vec<u8>)> = Vec::new();
        let mut refc_stage: Vec<Hash256> = Vec::new();
        proof {
            assert(crate::kv::rows_view(code_stage@) =~= Seq::<(Seq<u8>, Seq<u8>)>::empty());
            assert(map_of(crate::kv::rows_view(code_stage@)) =~= Map::<Seq<u8>, Seq<u8>>::empty());
            assert(old(self).codes_view().union_prefer_right(
                map_of(crate::kv::rows_view(code_stage@)),
            ) =~= old(self).codes_view());
            assert(refc_stage@.map_values(|h: Hash256| h@) =~= Seq::<Seq<u8>>::empty());
        }
        let ghost full_plans = plans@;
        let mut j: usize = 0;
        let np = plans.len();
        let mut plans_left = plans;
        while j < np
            invariant
                j <= np,
                np == full_plans.len(),
                np == changes@.len(),
                changes.wf(),
                plans_left@ == full_plans.skip(j as int),
                forall|t: int|
                    0 <= t < np ==> plan_matches(n0, acc0, #[trigger] full_plans[t], changes@[t].0, changes@[t].1),
                self.wf(),
                self.gc_enabled == old(self).gc_mode(),
                gc == old(self).gc_mode(),
                old(self).nodes_view().submap_of(self.nodes@),
                self.txs@ == old(self).txs_view(),
                self.receipts@ == old(self).receipts_view(),
                self.txs_per_block@ == old(self).txs_per_block_view(),
                self.slots@ == old(self).slots_view(),
                acc_txn.wf(),
                cs0 == (CommitView {
                    accounts: acc0,
                    codes: old(self).codes_view(),
                    refc: old(self).refc_view(),
                }),
                self.codes@ == old(self).codes_view(),
                self.refc@ == old(self).refc_view(),
                !gc ==> refc_stage@.len() == 0,
                forall|t: int|
                    0 <= t < j && (#[trigger] spec_step_storage(n0, acc0, changes@[t].0, changes@[t].1)) is Some
                        ==> trie_reads(
                        self.nodes@,
                        trie_root_of(spec_step_storage(n0, acc0, changes@[t].0, changes@[t].1).unwrap()),
                    ) == Some(spec_step_storage(n0, acc0, changes@[t].0, changes@[t].1).unwrap()),
                apply_changes(n0, acc0, gc, cs0, changes@.take(j as int)) == Some(
                    CommitView {
                        accounts: acc_txn@,
                        codes: old(self).codes_view().union_prefer_right(
                            map_of(crate::kv::rows_view(code_stage@)),
                        ),
                        refc: spec_bump_list(
                            old(self).refc_view(),
                            refc_stage@.map_values(|h: Hash256| h@),
                        ),
                    },
                ),
            decreases np - j,
        {
            let ghost cs_j = CommitView {
                accounts: acc_txn@,
                codes: old(self).codes_view().union_prefer_right(
                    map_of(crate::kv::rows_view(code_stage@)),
                ),
                refc: spec_bump_list(
                    old(self).refc_view(),
                    refc_stage@.map_values(|h: Hash256| h@),
                ),
            };
            proof {
                assert(changes@.take((j + 1) as int).drop_last() =~= changes@.take(j as int));
                assert(changes@.take((j + 1) as int).last() == changes@[j as int]);
                assert(plan_matches(n0, acc0, full_plans[j as int], changes@[j as int].0, changes@[j as int].1));
                assert(plans_left@[0] == full_plans[j as int]);
            }
            let plan = plans_left.remove(0);
            proof {
                assert(plans_left@ =~= full_plans.skip((j + 1) as int));
            }
            match plan {
                Plan::Remove { key } => {
                    acc_txn.remove(&key);
                    proof {
                        assert(apply_change(n0, acc0, gc, cs_j, changes@[j as int].0, changes@[j as int].1)
                            == Some(CommitView { accounts: acc_txn@, codes: cs_j.codes, refc: cs_j.refc }));
                    }
                },
                Plan::Put { key, nonce, balance, code, base_code_hash, base_storage_root, storage_txn } => {
                    let ghost codes_j = cs_j.codes;
                    let code_hash = if code.len() > 0 {
                        let h = keccak256(&code);
                        let kv2 = clone_bytes(&h.bytes);
                        let ghost cpre = code_stage@;
                        let ghost cv = code@;
                        let ghost pair = (kv2, code);
                        code_stage.push((kv2, code));
                        proof {
                            assert(code_stage@ == cpre.push(pair));
                            assert forall|t: int|
                                0 <= t < crate::kv::rows_view(code_stage@).len() implies crate::kv::rows_view(
                                code_stage@,
                            )[t] == crate::kv::rows_view(cpre).push((h@, cv))[t] by {
                                if t < cpre.len() {
                                    assert(code_stage@[t] == cpre[t]);
                                } else {
                                    assert(code_stage@[t] == pair);
                                    assert(pair.0@ == h@ && pair.1@ == cv);
                                }
                            }
                            assert(crate::kv::rows_view(code_stage@) =~= crate::kv::rows_view(
                                cpre,
                            ).push((h@, cv)));
                            assert(crate::kv::rows_view(code_stage@).drop_last()
                                =~= crate::kv::rows_view(cpre));
                            assert(map_of(crate::kv::rows_view(code_stage@)) == map_of(
                                crate::kv::rows_view(cpre),
                            ).insert(h@, cv));
                            assert(old(self).codes_view().union_prefer_right(
                                map_of(crate::kv::rows_view(code_stage@)),
                            ) =~= codes_j.insert(h@, cv));
                        }
                        h
                    } else {
                        base_code_hash
                    };
                    let ghost stview = storage_txn@;
                    let ghost nodes_pre = self.nodes@;
                    let sroot = match self.apply(storage_txn) {
                        Ok(rt) => rt,
                        Err(e) => {
                            proof {
                                vstd::map_lib::lemma_submap_of_trans(
                                    old(self).nodes_view(),
                                    nodes_pre,
                                    self.nodes@,
                                );
                                if !crate::trie::has_collision(self.nodes@) {
                                    assert(crate::trie::sub_hash(stview, 0) == Some(
                                        spec_empty_root(),
                                    ) && stview.dom() != Set::<Seq<u8>>::empty());
                                }
                            }
                            return Err(e);
                        },
                    };
                    proof {
                        vstd::map_lib::lemma_submap_of_trans(
                            old(self).nodes_view(),
                            nodes_pre,
                            self.nodes@,
                        );
                        assert(sroot@ == trie_root_of(stview));
                        assert forall|t: int|
                            0 <= t < j && (#[trigger] spec_step_storage(n0, acc0, changes@[t].0, changes@[t].1)) is Some
                                implies trie_reads(
                            self.nodes@,
                            trie_root_of(
                                spec_step_storage(n0, acc0, changes@[t].0, changes@[t].1).unwrap(),
                            ),
                        ) == Some(
                            spec_step_storage(n0, acc0, changes@[t].0, changes@[t].1).unwrap(),
                        ) by {
                            crate::trie::lemma_trie_reads_monotone(
                                nodes_pre,
                                self.nodes@,
                                trie_root_of(
                                    spec_step_storage(n0, acc0, changes@[t].0, changes@[t].1).unwrap(),
                                ),
                            );
                        }
                        assert(spec_step_storage(n0, acc0, changes@[j as int].0, changes@[j as int].1)
                            == Some(stview));
                    }
                    if gc && !sroot.same(&base_storage_root) {
                        let ghost rpre = refc_stage@;
                        refc_stage.push(sroot.dup());
                        proof {
                            assert(refc_stage@.map_values(|h: Hash256| h@) =~= rpre.map_values(
                                |h: Hash256| h@,
                            ).push(sroot@));
                            assert(refc_stage@.map_values(|h: Hash256| h@).drop_last()
                                =~= rpre.map_values(|h: Hash256| h@));
                        }
                    }
                    let account = Account { nonce, balance, code_hash, storage_root: sroot };
                    let row = encode_account(&account);
                    acc_txn.insert(&key, row);
                    proof {
                        let base = spec_base_account(acc0, key@).unwrap();
                        let sm = trie_reads(n0, base.storage_root).unwrap();
                        assert(stview == apply_storage_writes(sm, changes@[j as int].1->Update_storage));
                        assert(account@ == (AccountV {
                            nonce: nonce,
                            balance: balance@,
                            code_hash: code_hash@,
                            storage_root: sroot@,
                        }));
                        assert(apply_change(n0, acc0, gc, cs_j, changes@[j as int].0, changes@[j as int].1)
                            == Some(CommitView {
                                accounts: acc_txn@,
                                codes: old(self).codes_view().union_prefer_right(
                                    map_of(crate::kv::rows_view(code_stage@)),
                                ),
                                refc: spec_bump_list(
                                    old(self).refc_view(),
                                    refc_stage@.map_values(|h: Hash256| h@),
                                ),
                            }));
                    }
                },
            }
            j = j + 1;
        }
        proof {
            assert(changes@.take(np as int) =~= changes@);
        }
        let ghost nodes_pre = self.nodes@;
        let ghost accf = acc_txn@;
        let root = match self.apply(acc_txn) {
            Ok(root) => root,
            Err(e) => {
                proof {
                    vstd::map_lib::lemma_submap_of_trans(
                        old(self).nodes_view(),
                        nodes_pre,
                        self.nodes@,
                    );
                    if !crate::trie::has_collision(self.nodes@) {
                        assert(crate::trie::sub_hash(accf, 0) == Some(spec_empty_root())
                            && accf.dom() != Set::<Seq<u8>>::empty());
                    }
                }
                return Err(e);
            },
        };
        proof {
            vstd::map_lib::lemma_submap_of_trans(old(self).nodes_view(), nodes_pre, self.nodes@);
            assert forall|t: int|
                0 <= t < changes@.len() && (#[trigger] spec_step_storage(n0, acc0, changes@[t].0, changes@[t].1)) is Some
                    implies trie_reads(
                self.nodes@,
                trie_root_of(spec_step_storage(n0, acc0, changes@[t].0, changes@[t].1).unwrap()),
            ) == Some(spec_step_storage(n0, acc0, changes@[t].0, changes@[t].1).unwrap()) by {
                crate::trie::lemma_trie_reads_monotone(
                    nodes_pre,
                    self.nodes@,
                    trie_root_of(spec_step_storage(n0, acc0, changes@[t].0, changes@[t].1).unwrap()),
                );
            }
        }
        // Every delta succeeded: only now do the staged code rows and
        // counter increments reach their tables.
        self.codes.put_rows(&code_stage);
        if gc {
            let ghost hl = refc_stage@.map_values(|h: Hash256| h@);
            let ghost nodes_done = self.nodes@;
            let ghost codes_done = self.codes@;
            let nb = refc_stage.len();
            let mut t: usize = 0;
            while t < nb
                invariant
                    t <= nb,
                    nb == refc_stage@.len(),
                    hl == refc_stage@.map_values(|h: Hash256| h@),
                    self.wf(),
                    self.gc_enabled,
                    self.gc_enabled == old(self).gc_mode(),
                    self.nodes@ == nodes_done,
                    self.codes@ == codes_done,
                    self.txs@ == old(self).txs_view(),
                    self.receipts@ == old(self).receipts_view(),
                    self.txs_per_block@ == old(self).txs_per_block_view(),
                    self.slots@ == old(self).slots_view(),
                    self.refc@ == spec_bump_list(old(self).refc_view(), hl.take(t as int)),
                decreases nb - t,
            {
                proof {
                    assert(hl.take((t + 1) as int).drop_last() =~= hl.take(t as int));
                    assert(hl.take((t + 1) as int).last() == hl[t as int]);
                    assert(hl[t as int] == refc_stage@[t as int]@);
                }
                self.bump_count(&refc_stage[t]);
                t = t + 1;
            }
            proof {
                assert(hl.take(nb as int) =~= hl);
            }
        } else {
            proof {
                assert(refc_stage@.map_values(|h: Hash256| h@) =~= Seq::<Seq<u8>>::empty());
                assert(spec_bump_list(
                    old(self).refc_view(),
                    refc_stage@.map_values(|h: Hash256| h@),
                ) == old(self).refc_view());
            }
        }
        Ok(root)
    }
}

/// A typed table of the store. Each implementor names one column, says in
/// which schema it exists, and carries the raw row accessors; `Storage::get`
/// and `Storage::set` dispatch through it.
pub trait SubStorage {
    /// The table's rows over the store.
    spec fn table(s: &Storage) -> Map<Seq<u8>, Seq<u8>>;

    /// Whether the table exists under the given collection mode.
    spec fn available(gc: bool) -> bool;

    /// Every other table of the store is unchanged.
    spec fn frame(pre: &Storage, post: &Storage) -> bool;

    /// Reads the row under a key.
    fn raw_get(s: &Storage, key: &Vec<u8>) -> (r: Option<Vec<u8>>)
        requires
            s.wf(),
            Self::available(s.gc_mode()),
        ensures
            match r {
                Some(v) => Self::table(s).contains_key(key@) && v@ == Self::table(s)[key@],
                None => !Self::table(s).contains_key(key@),
            },
    ;

    /// Writes the row under a key, replacing any existing row.
    fn raw_put(s: &mut Storage, key: Vec<u8>, value: Vec<u8>)
        requires
            old(s).wf(),
            Self::available(old(s).gc_mode()),
        ensures
            final(s).wf(),
            final(s).gc_mode() == old(s).gc_mode(),
            Self::table(final(s)) == Self::table(old(s)).insert(key@, value@),
            Self::frame(old(s), final(s)),
    ;
}

/// The code table: code blobs keyed by their 32-byte content hash. Exists
/// in both schemas.
pub enum Codes { Marker }

/// The reference-counter table: 8-byte big-endian counts keyed by root
/// hash. Exists only with garbage collection enabled.
pub enum ReferenceCounter { Marker }

/// The transaction archive: raw transaction bytes keyed by their 32-byte
/// hash. Archival mode only.
pub enum Transactions { Marker }

/// The receipt archive: raw receipt bytes keyed by the transaction's
/// 32-byte hash. Archival mode only.
pub enum Receipts { Marker }

/// The per-block archive: concatenated 32-byte transaction hashes keyed by
/// the 8-byte big-endian block number. Archival mode only.
pub enum TransactionHashesPerBlock { Marker }

impl SubStorage for Codes {
    open spec fn table(s: &Storage) -> Map<Seq<u8>, Seq<u8>> {
        s.codes_view()
    }

    open spec fn available(gc: bool) -> bool {
        true
    }

    open spec fn frame(pre: &Storage, post: &Storage) -> bool {
        post.nodes_view() == pre.nodes_view() && post.refc_view() == pre.refc_view()
            && post.txs_view() == pre.txs_view() && post.receipts_view() == pre.receipts_view()
            && post.txs_per_block_view() == pre.txs_per_block_view() && post.slots_view()
            == pre.slots_view()
    }

    fn raw_get(s: &Storage, key: &Vec<u8>) -> (r: Option<Vec<u8>>) {
        s.codes.get(key)
    }

    fn raw_put(s: &mut Storage, key: Vec<u8>, value: Vec<u8>) {
        s.codes.put(key, value);
    }
}

impl SubStorage for ReferenceCounter {
    open spec fn table(s: &Storage) -> Map<Seq<u8>, Seq<u8>> {
        s.refc_view()
    }

    open spec fn available(gc: bool) -> bool {
        gc
    }

    open spec fn frame(pre: &Storage, post: &Storage) -> bool {
        post.nodes_view() == pre.nodes_view() && post.codes_view() == pre.codes_view()
            && post.txs_view() == pre.txs_view() && post.receipts_view() == pre.receipts_view()
            && post.txs_per_block_view() == pre.txs_per_block_view() && post.slots_view()
            == pre.slots_view()
    }

    fn raw_get(s: &Storage, key: &Vec<u8>) -> (r: Option<Vec<u8>>) {
        s.refc.get(key)
    }

    fn raw_put(s: &mut Storage, key: Vec<u8>, value: Vec<u8>) {
        s.refc.put(key, value);
    }
}

impl SubStorage for Transactions {
    open spec fn table(s: &Storage) -> Map<Seq<u8>, Seq<u8>> {
        s.txs_view()
    }

    open spec fn available(gc: bool) -> bool {
        !gc
    }

    open spec fn frame(pre: &Storage, post: &Storage) -> bool {
        post.nodes_view() == pre.nodes_view() && post.codes_view() == pre.codes_view()
            && post.refc_view() == pre.refc_view() && post.receipts_view() == pre.receipts_view()
            && post.txs_per_block_view() == pre.txs_per_block_view() && post.slots_view()
            == pre.slots_view()
    }

    fn raw_get(s: &Storage, key: &Vec<u8>) -> (r: Option<Vec<u8>>) {
        s.txs.get(key)
    }

    fn raw_put(s: &mut Storage, key: Vec<u8>, value: Vec<u8>) {
        s.txs.put(key, value);
    }
}

impl SubStorage for Receipts {
    open spec fn table(s: &Storage) -> Map<Seq<u8>, Seq<u8>> {
        s.receipts_view()
    }

    open spec fn available(gc: bool) -> bool {
        !gc
    }

    open spec fn frame(pre: &Storage, post: &Storage) -> bool {
        post.nodes_view() == pre.nodes_view() && post.codes_view() == pre.codes_view()
            && post.refc_view() == pre.refc_view() && post.txs_view() == pre.txs_view()
            && post.txs_per_block_view() == pre.txs_per_block_view() && post.slots_view()
            == pre.slots_view()
    }

    fn raw_get(s: &Storage, key: &Vec<u8>) -> (r: Option<Vec<u8>>) {
        s.receipts.get(key)
    }

    fn raw_put(s: &mut Storage, key: Vec<u8>, value: Vec<u8>) {
        s.receipts.put(key, value);
    }
}

impl SubStorage for TransactionHashesPerBlock {
    open spec fn table(s: &Storage) -> Map<Seq<u8>, Seq<u8>> {
        s.txs_per_block_view()
    }

    open spec fn available(gc: bool) -> bool {
        !gc
    }

    open spec fn frame(pre: &Storage, post: &Storage) -> bool {
        post.nodes_view() == pre.nodes_view() && post.codes_view() == pre.codes_view()
            && post.refc_view() == pre.refc_view() && post.txs_view() == pre.txs_view()
            && post.receipts_view() == pre.receipts_view() && post.slots_view()
            == pre.slots_view()
    }

    fn raw_get(s: &Storage, key: &Vec<u8>) -> (r: Option<Vec<u8>>) {
        s.txs_per_block.get(key)
    }

    fn raw_put(s: &mut Storage, key: Vec<u8>, value: Vec<u8>) {
        s.txs_per_block.put(key, value);
    }
}

impl Storage {
    /// Looks up a row in the typed table `S`. The table must belong to
    /// this handle's schema.
    pub fn get<S: SubStorage>(&self, key: &Vec<u8>) -> (r: Option<Vec<u8>>)
        requires
            self.wf(),
            S::available(self.gc_mode()),
        ensures
            match r {
                Some(v) => S::table(self).contains_key(key@) && v@ == S::table(self)[key@],
                None => !S::table(self).contains_key(key@),
            },
    {
        S::raw_get(self, key)
    }

    /// Writes a row into the typed table `S`, overwriting any existing
    /// value for that key. The table must belong to this handle's schema.
    pub fn set<S: SubStorage>(&mut self, key: Vec<u8>, value: Vec<u8>)
        requires
            old(self).wf(),
            S::available(old(self).gc_mode()),
        ensures
            final(self).wf(),
            final(self).gc_mode() == old(self).gc_mode(),
            S::table(final(self)) == S::table(old(self)).insert(key@, value@),
            S::frame(old(self), final(self)),
    {
        S::raw_put(self, key, value)
    }
}


impl Storage {
    /// Deletes every node row whose key is not in `live_nodes` and every
    /// code row whose key is not in `live_codes`.
    pub(crate) fn sweep_tables(&mut self, live_nodes: &Vec<Vec<u8>>, live_codes: &Vec<Vec<u8>>)
        requires
            old(self).wf(),
        ensures
            final(self).wf(),
            final(self).nodes_view() == crate::kv::swept(
                old(self).nodes_view(),
                crate::kv::keys_set(live_nodes@),
            ),
            final(self).codes_view() == crate::kv::swept(
                old(self).codes_view(),
                crate::kv::keys_set(live_codes@),
            ),
            final(self).refc_view() == old(self).refc_view(),
            final(self).txs_view() == old(self).txs_view(),
            final(self).receipts_view() == old(self).receipts_view(),
            final(self).txs_per_block_view() == old(self).txs_per_block_view(),
            final(self).slots_view() == old(self).slots_view(),
            final(self).gc_mode() == old(self).gc_mode(),
    {
        self.nodes.retain_keys(live_nodes);
        self.codes.retain_keys(live_codes);
    }
}

/// Copies every row of `src` into `dst`, later rows overwriting.
fn merge_column(dst: &mut Column, src: &Column)
    requires
        old(dst).wf(),
        src.wf(),
    ensures
        final(dst).wf(),
        final(dst)@ == old(dst)@.union_prefer_right(src@),
{
    let rows = src.all_rows();
    dst.put_rows(&rows);
}

} // verus!
