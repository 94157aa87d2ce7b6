//! The offline mark-and-sweep cleaner: given the node hashes reachable
//! from every live root and the code hashes referenced by every live
//! account (computed by an external trie-walking collector), it deletes
//! every other row of the node and code tables. It needs exclusive access
//! to the store for its whole sweep.

use vstd::prelude::*;

use crate::bytes::Hash256;
use crate::bytes::clone_bytes;
use crate::error::Error;
use crate::kv::keys_set;
use crate::kv::swept;
use crate::storage::Storage;

verus! {

/// The set of hashes a list holds.
pub open spec fn hashes_set(s: Seq<Hash256>) -> Set<Seq<u8>> {
    Set::new(|k: Seq<u8>| exists|i: int| 0 <= i < s.len() && s[i]@ == k)
}

/// A sweep pass over one store: the live node hashes and live code hashes
/// that survive it.
pub struct Cleaner {
    pub trie_nodes: Vec<Hash256>,
    pub code_hashes: Vec<Hash256>,
}

impl Cleaner {
    /// A cleaner keeping exactly the given live sets.
    pub fn new_with(trie_nodes: Vec<Hash256>, code_hashes: Vec<Hash256>) -> (r: Cleaner)
        ensures
            r.trie_nodes@ == trie_nodes@,
            r.code_hashes@ == code_hashes@,
    {
        Cleaner { trie_nodes, code_hashes }
    }

    /// Sweeps the store: afterwards the node table holds exactly its rows
    /// whose keys are live node hashes, and the code table exactly its
    /// rows whose keys are live code hashes. No other table changes.
    pub fn cleanup(self, storage: &mut Storage) -> (r: Result<(), Error>)
        requires
            old(storage).wf(),
        ensures
            r is Ok,
            final(storage).wf(),
            final(storage).nodes_view() == swept(
                old(storage).nodes_view(),
                hashes_set(self.trie_nodes@),
            ),
            final(storage).codes_view() == swept(
                old(storage).codes_view(),
                hashes_set(self.code_hashes@),
            ),
            final(storage).refc_view() == old(storage).refc_view(),
            final(storage).txs_view() == old(storage).txs_view(),
            final(storage).receipts_view() == old(storage).receipts_view(),
            final(storage).txs_per_block_view() == old(storage).txs_per_block_view(),
            final(storage).slots_view() == old(storage).slots_view(),
            final(storage).gc_mode() == old(storage).gc_mode(),
    {
        let live_nodes = hash_key_list(&self.trie_nodes);
        let live_codes = hash_key_list(&self.code_hashes);
        proof {
            lemma_hash_keys(live_nodes@, self.trie_nodes@);
            lemma_hash_keys(live_codes@, self.code_hashes@);
        }
        storage.sweep_tables(&live_nodes, &live_codes);
        Ok(())
    }
}

/// Pointwise-equal key lists describe the same set.
proof fn lemma_hash_keys(lv: Seq<Vec<u8>>, hs: Seq<Hash256>)
    requires
        lv.len() == hs.len(),
        forall|i: int| 0 <= i < lv.len() ==> (#[trigger] lv[i])@ == hs[i]@,
    ensures
        keys_set(lv) == hashes_set(hs),
{
    assert forall|k: Seq<u8>| keys_set(lv).contains(k) implies hashes_set(hs).contains(k) by {
        let i = choose|i: int| 0 <= i < lv.len() && lv[i]@ == k;
        assert(hs[i]@ == k);
    }
    assert forall|k: Seq<u8>| hashes_set(hs).contains(k) implies keys_set(lv).contains(k) by {
        let i = choose|i: int| 0 <= i < hs.len() && hs[i]@ == k;
        assert(lv[i]@ == k);
    }
    assert(keys_set(lv) =~= hashes_set(hs));
}

/// The byte keys of a hash list, in order.
fn hash_key_list(hs: &Vec<Hash256>) -> (r: Vec<Vec<u8>>)
    ensures
        r@.len() == hs@.len(),
        forall|i: int| 0 <= i < r@.len() ==> (#[trigger] r@[i])@ == hs@[i]@,
{
    let mut out: Vec<Vec<u8>> = Vec::new();
    let n = hs.len();
    let mut i: usize = 0;
    while i < n
        invariant
            i <= n,
            n == hs@.len(),
            out@.len() == i,
            forall|j: int| 0 <= j < i ==> (#[trigger] out@[j])@ == hs@[j]@,
        decreases n - i,
    {
        out.push(clone_bytes(&hs[i].bytes));
        i = i + 1;
    }
    out
}

} // verus!
