//! The content-addressed Merkle trie.
//!
//! A trie version is a map from 32-byte keys to byte values. Its nodes live
//! in the shared node column, each stored under the Keccak-256 hash of its
//! content, so distinct versions share every unchanged subtree by
//! construction. The shape is canonical: a node at depth `d` splits its keys
//! by bit `d`, an absent subtree is an empty reference, and a full-depth
//! node is a leaf carrying key and value. The root hash is therefore a pure
//! function of the contents, `trie_root_of`; the empty map is represented by
//! a distinguished root hash for which no node is ever stored.
//!
//! Design note: the shape is a full-depth binary trie, one bit per level,
//! chosen for a provably canonical form rather than for node economy: a
//! single key costs one node per bit plus a leaf, and non-empty root values
//! differ numerically from those of a hex Merkle-Patricia trie over the
//! same contents (the distinguished empty root is the conventional
//! constant). Version identity, content addressing and structural sharing
//! are unaffected by the shape.

use vstd::prelude::*;

use crate::bytes::Hash256;
use crate::bytes::bytes_eq;
use crate::bytes::clone_bytes;
use crate::bytes::push_bytes;
use crate::bytes::sub_bytes;
use crate::bytes::zeros;
use crate::error::Error;
use crate::hashing::keccak_of;
use crate::hashing::keccak256;
use crate::kv::Column;
use crate::kv::map_of;
use crate::kv::rows_view;
use crate::kv::distinct_keys;
use crate::kv::lemma_map_of_dom;
use crate::kv::lemma_map_of_at;

verus! {

/// Bit `i` of a byte string, most significant bit of each byte first.
pub open spec fn bit_at(k: Seq<u8>, i: nat) -> bool {
    ((k[(i / 8) as int] as u64) >> ((7 - (i % 8)) as u64)) & 1 == 1
}

/// The keys of `m` whose bit `d` equals `b`.
pub open spec fn restrict_bit(m: Map<Seq<u8>, Seq<u8>>, d: nat, b: bool) -> Map<Seq<u8>, Seq<u8>> {
    Map::new(|k: Seq<u8>| m.dom().contains(k) && bit_at(k, d) == b, |k: Seq<u8>| m[k])
}

/// The 33-byte reference to a child subtree: a presence tag and the hash.
pub open spec fn child_ref(r: Option<Seq<u8>>) -> Seq<u8> {
    match r {
        None => zeros(33),
        Some(h) => seq![1u8] + h,
    }
}

/// The content of a leaf node: tag, the full 32-byte key, the value.
pub open spec fn leaf_content(k: Seq<u8>, v: Seq<u8>) -> Seq<u8> {
    seq![0u8] + k + v
}

/// The content of a branch node: tag and the two child references.
pub open spec fn branch_content(l: Option<Seq<u8>>, r: Option<Seq<u8>>) -> Seq<u8> {
    seq![1u8] + child_ref(l) + child_ref(r)
}

/// The canonical hash of the subtree holding `m` at depth `d`:
/// `None` for an empty subtree, otherwise the content hash of its node.
pub open spec fn sub_hash(m: Map<Seq<u8>, Seq<u8>>, d: nat) -> Option<Seq<u8>>
    decreases 256 - d,
{
    if m.dom() == Set::<Seq<u8>>::empty() {
        None
    } else if d >= 256 {
        Some(keccak_of(leaf_content(m.dom().choose(), m[m.dom().choose()])))
    } else {
        Some(
            keccak_of(
                branch_content(
                    sub_hash(restrict_bit(m, d, false), d + 1),
                    sub_hash(restrict_bit(m, d, true), d + 1),
                ),
            ),
        )
    }
}

/// The root hash under which no node is ever stored: it denotes the empty
/// trie on any store, however fresh.
pub open spec fn spec_empty_root() -> Seq<u8> {
    seq![
        0x56u8, 0xe8u8, 0x1fu8, 0x17u8, 0x1bu8, 0xccu8, 0x55u8, 0xa6u8, 0xffu8, 0x83u8, 0x45u8,
        0xe6u8, 0x92u8, 0xc0u8, 0xf8u8, 0x6eu8, 0x5bu8, 0x48u8, 0xe0u8, 0x1bu8, 0x99u8, 0x6cu8,
        0xadu8, 0xc0u8, 0x01u8, 0x62u8, 0x2fu8, 0xb5u8, 0xe3u8, 0x63u8, 0xb4u8, 0x21u8,
    ]
}

/// The root hash of a trie holding `m`: a pure function of the contents.
pub open spec fn trie_root_of(m: Map<Seq<u8>, Seq<u8>>) -> Seq<u8> {
    match sub_hash(m, 0) {
        None => spec_empty_root(),
        Some(h) => h,
    }
}

/// Decodes a child reference; `None` means the bytes are malformed.
pub open spec fn parse_ref(b: Seq<u8>) -> Option<Option<Seq<u8>>> {
    if b.len() != 33 {
        None
    } else if b[0] == 0 {
        Some(None)
    } else if b[0] == 1 {
        Some(Some(b.skip(1)))
    } else {
        None
    }
}

/// The contents read from the node store for a subtree reference at depth
/// `d`: `None` when a node is missing or malformed.
pub open spec fn read_sub(
    nodes: Map<Seq<u8>, Seq<u8>>,
    r: Option<Seq<u8>>,
    d: nat,
) -> Option<Map<Seq<u8>, Seq<u8>>>
    decreases 256 - d,
{
    match r {
        None => Some(Map::<Seq<u8>, Seq<u8>>::empty()),
        Some(h) => {
            if !nodes.contains_key(h) {
                None
            } else {
                let c = nodes[h];
                if d >= 256 {
                    if c.len() >= 33 && c[0] == 0 {
                        Some(Map::<Seq<u8>, Seq<u8>>::empty().insert(c.subrange(1, 33), c.skip(33)))
                    } else {
                        None
                    }
                } else {
                    if c.len() == 67 && c[0] == 1 {
                        match (parse_ref(c.subrange(1, 34)), parse_ref(c.subrange(34, 67))) {
                            (Some(l), Some(rr)) => {
                                match (read_sub(nodes, l, d + 1), read_sub(nodes, rr, d + 1)) {
                                    (Some(m0), Some(m1)) => Some(m0.union_prefer_right(m1)),
                                    _ => None,
                                }
                            },
                            _ => None,
                        }
                    } else {
                        None
                    }
                }
            }
        },
    }
}

/// The contents of the trie rooted at `root` over a node store.
pub open spec fn trie_reads(nodes: Map<Seq<u8>, Seq<u8>>, root: Seq<u8>) -> Option<
    Map<Seq<u8>, Seq<u8>>,
> {
    if root == spec_empty_root() {
        Some(Map::<Seq<u8>, Seq<u8>>::empty())
    } else {
        read_sub(nodes, Some(root), 0)
    }
}

/// Growing the node store never changes what an existing reference reads:
/// nodes are immutable once written, so every readable trie stays readable
/// with the same contents.
pub proof fn lemma_read_sub_monotone(
    n1: Map<Seq<u8>, Seq<u8>>,
    n2: Map<Seq<u8>, Seq<u8>>,
    r: Option<Seq<u8>>,
    d: nat,
)
    requires
        n1.submap_of(n2),
        read_sub(n1, r, d) is Some,
    ensures
        read_sub(n2, r, d) == read_sub(n1, r, d),
    decreases 256 - d,
{
    match r {
        None => {},
        Some(h) => {
            assert(n1.contains_key(h));
            assert(n2.contains_key(h) && n2[h] == n1[h]);
            let c = n1[h];
            if d < 256 {
                let l = parse_ref(c.subrange(1, 34)).unwrap();
                let rr = parse_ref(c.subrange(34, 67)).unwrap();
                lemma_read_sub_monotone(n1, n2, l, d + 1);
                lemma_read_sub_monotone(n1, n2, rr, d + 1);
            }
        },
    }
}

/// Same fact lifted to whole tries.
pub proof fn lemma_trie_reads_monotone(
    n1: Map<Seq<u8>, Seq<u8>>,
    n2: Map<Seq<u8>, Seq<u8>>,
    root: Seq<u8>,
)
    requires
        n1.submap_of(n2),
        trie_reads(n1, root) is Some,
    ensures
        trie_reads(n2, root) == trie_reads(n1, root),
{
    if root != spec_empty_root() {
        lemma_read_sub_monotone(n1, n2, Some(root), 0);
    }
}

/// The distinguished empty-trie root hash as a value.
pub fn empty_root() -> (r: Hash256)
    ensures
        r@ == spec_empty_root(),
        r.wf(),
{
    let mut b: Vec<u8> = Vec::new();
    b.push(0x56u8);
    b.push(0xe8u8);
    b.push(0x1fu8);
    b.push(0x17u8);
    b.push(0x1bu8);
    b.push(0xccu8);
    b.push(0x55u8);
    b.push(0xa6u8);
    b.push(0xffu8);
    b.push(0x83u8);
    b.push(0x45u8);
    b.push(0xe6u8);
    b.push(0x92u8);
    b.push(0xc0u8);
    b.push(0xf8u8);
    b.push(0x6eu8);
    b.push(0x5bu8);
    b.push(0x48u8);
    b.push(0xe0u8);
    b.push(0x1bu8);
    b.push(0x99u8);
    b.push(0x6cu8);
    b.push(0xadu8);
    b.push(0xc0u8);
    b.push(0x01u8);
    b.push(0x62u8);
    b.push(0x2fu8);
    b.push(0xb5u8);
    b.push(0xe3u8);
    b.push(0x63u8);
    b.push(0xb4u8);
    b.push(0x21u8);
    proof {
        assert(b@ =~= spec_empty_root());
    }
    Hash256 { bytes: b }
}

/// A witnessed content-hash collision in a node store: some stored row's
/// key is the digest of different bytes than the row holds.
pub open spec fn has_collision(nodes: Map<Seq<u8>, Seq<u8>>) -> bool {
    exists|c: Seq<u8>| nodes.contains_key(#[trigger] keccak_of(c)) && nodes[keccak_of(c)] != c
}

/// Stores a node under its content hash. Re-storing identical content is a
/// no-op; a content whose hash is already taken by different bytes is a
/// detected hash collision and is refused rather than overwriting a live
/// node.
pub(crate) fn put_node(nodes: &mut Column, content: Vec<u8>) -> (r: Result<Hash256, Error>)
    requires
        old(nodes).wf(),
    ensures
        final(nodes).wf(),
        old(nodes)@.submap_of(final(nodes)@),
        match r {
            Ok(h) => h@ == keccak_of(content@) && h.wf() && final(nodes)@ == old(nodes)@.insert(
                h@,
                content@,
            ),
            Err(e) => e == Error::HashCollision && final(nodes)@ == old(nodes)@
                && final(nodes)@.contains_key(keccak_of(content@))
                && final(nodes)@[keccak_of(content@)] != content@,
        },
{
    let h = keccak256(&content);
    match nodes.get(&h.bytes) {
        Some(existing) => {
            if bytes_eq(&existing, &content) {
                proof {
                    assert(old(nodes)@.insert(h@, content@) =~= old(nodes)@);
                }
                Ok(h)
            } else {
                Err(Error::HashCollision)
            }
        },
        None => {
            let key = clone_bytes(&h.bytes);
            nodes.put(key, content);
            proof {
                assert(old(nodes)@.submap_of(final(nodes)@));
            }
            Ok(h)
        },
    }
}

/// The hash view of an optional subtree root.
pub open spec fn opt_view(r: Option<Hash256>) -> Option<Seq<u8>> {
    match r {
        None => None,
        Some(h) => Some(h@),
    }
}

/// Bit `i` of a 32-byte key.
pub(crate) fn key_bit(k: &Vec<u8>, i: usize) -> (b: bool)
    requires
        k@.len() == 32,
        i < 256,
    ensures
        b == bit_at(k@, i as nat),
{
    ((k[i / 8] as u64) >> ((7 - (i % 8)) as u64)) & 1 == 1
}

/// One key bit, seen from the byte it lives in.
proof fn lemma_bit_of_byte(a: Seq<u8>, j: int, t: u64)
    requires
        a.len() == 32,
        0 <= j < 32,
        t < 8,
    ensures
        bit_at(a, (8 * j + t) as nat) == (((a[j] as u64) >> ((7 - t) as u64)) & 1 == 1),
{
    let i: nat = (8 * j + t) as nat;
    assert(i / 8 == j && i % 8 == t as nat) by (nonlinear_arith)
        requires
            0 <= j < 32,
            t < 8,
            i == 8 * j + t,
    ;
}

/// Two bytes with the same eight bits are equal.
proof fn lemma_byte_eq_bits(x: u8, y: u8)
    requires
        forall|t: u64|
            t < 8 ==> (#[trigger] ((x as u64) >> ((7 - t) as u64)) & 1 == 1) == (((y as u64) >> ((7
                - t) as u64)) & 1 == 1),
    ensures
        x == y,
{
    assert((((x as u64) >> ((7 - 0) as u64)) & 1 == 1) == (((y as u64) >> ((7 - 0) as u64)) & 1
        == 1));
    assert((((x as u64) >> ((7 - 1) as u64)) & 1 == 1) == (((y as u64) >> ((7 - 1) as u64)) & 1
        == 1));
    assert((((x as u64) >> ((7 - 2) as u64)) & 1 == 1) == (((y as u64) >> ((7 - 2) as u64)) & 1
        == 1));
    assert((((x as u64) >> ((7 - 3) as u64)) & 1 == 1) == (((y as u64) >> ((7 - 3) as u64)) & 1
        == 1));
    assert((((x as u64) >> ((7 - 4) as u64)) & 1 == 1) == (((y as u64) >> ((7 - 4) as u64)) & 1
        == 1));
    assert((((x as u64) >> ((7 - 5) as u64)) & 1 == 1) == (((y as u64) >> ((7 - 5) as u64)) & 1
        == 1));
    assert((((x as u64) >> ((7 - 6) as u64)) & 1 == 1) == (((y as u64) >> ((7 - 6) as u64)) & 1
        == 1));
    assert((((x as u64) >> ((7 - 7) as u64)) & 1 == 1) == (((y as u64) >> ((7 - 7) as u64)) & 1
        == 1));
    assert(x == y) by (bit_vector)
        requires
            (((x as u64) >> 7u64) & 1 == 1) == (((y as u64) >> 7u64) & 1 == 1),
            (((x as u64) >> 6u64) & 1 == 1) == (((y as u64) >> 6u64) & 1 == 1),
            (((x as u64) >> 5u64) & 1 == 1) == (((y as u64) >> 5u64) & 1 == 1),
            (((x as u64) >> 4u64) & 1 == 1) == (((y as u64) >> 4u64) & 1 == 1),
            (((x as u64) >> 3u64) & 1 == 1) == (((y as u64) >> 3u64) & 1 == 1),
            (((x as u64) >> 2u64) & 1 == 1) == (((y as u64) >> 2u64) & 1 == 1),
            (((x as u64) >> 1u64) & 1 == 1) == (((y as u64) >> 1u64) & 1 == 1),
            (((x as u64) >> 0u64) & 1 == 1) == (((y as u64) >> 0u64) & 1 == 1),
    ;
}

/// Two 32-byte keys with the same 256 bits are equal.
proof fn lemma_keys_equal_from_bits(a: Seq<u8>, b: Seq<u8>)
    requires
        a.len() == 32,
        b.len() == 32,
        forall|i: nat| i < 256 ==> bit_at(a, i) == bit_at(b, i),
    ensures
        a == b,
{
    assert forall|j: int| 0 <= j < 32 implies a[j] == b[j] by {
        assert forall|t: u64| t < 8 implies (#[trigger] ((a[j] as u64) >> ((7 - t) as u64)) & 1
            == 1) == (((b[j] as u64) >> ((7 - t) as u64)) & 1 == 1) by {
            let i: nat = (8 * j + t) as nat;
            assert(i < 256);
            lemma_bit_of_byte(a, j, t);
            lemma_bit_of_byte(b, j, t);
            assert(bit_at(a, i) == bit_at(b, i));
        }
        lemma_byte_eq_bits(a[j], b[j]);
    }
    assert(a =~= b);
}

/// Appends the 33-byte reference of an optional subtree root.
fn push_ref(out: &mut Vec<u8>, r: &Option<Hash256>)
    requires
        match r {
            Some(h) => h.wf(),
            None => true,
        },
    ensures
        final(out)@ == old(out)@ + child_ref(opt_view(*r)),
{
    match r {
        None => {
            let ghost pre = out@;
            let mut i: usize = 0;
            while i < 33
                invariant
                    i <= 33,
                    out@ == pre + zeros(i as nat),
                decreases 33 - i,
            {
                out.push(0u8);
                proof {
                    assert(out@ =~= pre + zeros((i + 1) as nat));
                }
                i = i + 1;
            }
        },
        Some(h) => {
            out.push(1u8);
            push_bytes(out, &h.bytes);
            proof {
                assert(out@ =~= old(out)@ + (seq![1u8] + h@));
            }
        },
    }
}

/// A parsed child reference round-trips.
proof fn lemma_parse_child_ref(r: Option<Seq<u8>>)
    requires
        match r {
            Some(h) => h.len() == 32,
            None => true,
        },
    ensures
        child_ref(r).len() == 33,
        parse_ref(child_ref(r)) == Some(r),
{
    match r {
        None => {
            assert(child_ref(r)[0] == 0);
        },
        Some(h) => {
            assert(child_ref(r)[0] == 1);
            assert(child_ref(r).skip(1) =~= h);
        },
    }
}

/// Writes the canonical nodes of the subtree holding `rows` at depth
/// `depth`, returning its reference. The node store only grows; on success
/// the reference is the canonical `sub_hash` of the contents and reads back
/// to exactly those contents.
pub(crate) fn build_sub(nodes: &mut Column, rows: Vec<(Vec<u8>, Vec<u8>)>, depth: usize) -> (r: Result<
    Option<Hash256>,
    Error,
>)
    requires
        old(nodes).wf(),
        depth <= 256,
        distinct_keys(rows_view(rows@)),
        forall|i: int| 0 <= i < rows@.len() ==> (#[trigger] rows_view(rows@)[i]).0.len() == 32,
        forall|i: int, j: int, t: nat|
            0 <= i < rows@.len() && 0 <= j < rows@.len() && t < depth ==> bit_at(
                rows_view(rows@)[i].0,
                t,
            ) == bit_at(rows_view(rows@)[j].0, t),
    ensures
        final(nodes).wf(),
        old(nodes)@.submap_of(final(nodes)@),
        match r {
            Ok(h) => opt_view(h) == sub_hash(map_of(rows_view(rows@)), depth as nat) && read_sub(
                final(nodes)@,
                opt_view(h),
                depth as nat,
            ) == Some(map_of(rows_view(rows@))) && (h matches Some(hh) ==> hh.wf()),
            Err(e) => e == Error::HashCollision && has_collision(final(nodes)@),
        },
    decreases 256 - depth,
{
    let ghost rv = rows_view(rows@);
    let ghost m = map_of(rv);
    if rows.len() == 0 {
        proof {
            assert(m.dom() =~= Set::<Seq<u8>>::empty());
            assert(m =~= Map::<Seq<u8>, Seq<u8>>::empty());
        }
        Ok(None)
    } else if depth == 256 {
        proof {
            assert forall|i: int| 0 <= i < rv.len() implies (#[trigger] rv[i]).0 == rv[0].0 by {
                assert(forall|t: nat| t < 256 ==> bit_at(rv[i].0, t) == bit_at(rv[0].0, t));
                lemma_keys_equal_from_bits(rv[i].0, rv[0].0);
            }
            assert(rv.len() == 1) by {
                if rv.len() > 1 {
                    assert(rv[0].0 == rv[1].0);
                }
            }
            assert(m =~= Map::<Seq<u8>, Seq<u8>>::empty().insert(rv[0].0, rv[0].1)) by {
                assert(rv.drop_last().len() == 0);
                assert(map_of(rv.drop_last()) =~= Map::<Seq<u8>, Seq<u8>>::empty());
                assert(rv.last() == rv[0]);
            }
        }
        let mut content: Vec<u8> = Vec::new();
        content.push(0u8);
        push_bytes(&mut content, &rows[0].0);
        push_bytes(&mut content, &rows[0].1);
        proof {
            assert(content@ =~= leaf_content(rv[0].0, rv[0].1));
        }
        match put_node(nodes, content) {
            Ok(h) => {
                proof {
                    let k0 = m.dom().choose();
                    assert(m.dom().contains(rv[0].0));
                    assert(m.dom() =~= Set::<Seq<u8>>::empty().insert(rv[0].0));
                    assert(m.dom().contains(k0));
                    assert(k0 == rv[0].0);
                    assert(m[k0] == rv[0].1);
                    assert(m.dom() != Set::<Seq<u8>>::empty());
                    assert(sub_hash(m, 256) == Some(keccak_of(leaf_content(rv[0].0, rv[0].1))));
                    let n2 = final(nodes)@;
                    let c = leaf_content(rv[0].0, rv[0].1);
                    assert(n2.contains_key(h@) && n2[h@] == c);
                    assert(c.len() >= 33 && c[0] == 0);
                    assert(c.subrange(1, 33) =~= rv[0].0);
                    assert(c.skip(33) =~= rv[0].1);
                    assert(read_sub(n2, Some(h@), 256) == Some(
                        Map::<Seq<u8>, Seq<u8>>::empty().insert(rv[0].0, rv[0].1),
                    ));
                }
                Ok(Some(h))
            },
            Err(e) => Err(e),
        }
    } else {
        // Partition the rows by the bit at this depth.
        let mut rows0: Vec<(Vec<u8>, Vec<u8>)> = Vec::new();
        let mut rows1: Vec<(Vec<u8>, Vec<u8>)> = Vec::new();
        let n = rows.len();
        let mut i: usize = 0;
        while i < n
            invariant
                i <= n,
                n == rows@.len(),
                depth < 256,
                rv == rows_view(rows@),
                m == map_of(rv),
                distinct_keys(rv),
                forall|a: int| 0 <= a < rv.len() ==> (#[trigger] rv[a]).0.len() == 32,
                forall|j: int|
                    0 <= j < rows_view(rows0@).len() ==> exists|a: int|
                        0 <= a < i && #[trigger] rows_view(rows0@)[j] == rv[a] && !bit_at(
                            rv[a].0,
                            depth as nat,
                        ),
                forall|j: int|
                    0 <= j < rows_view(rows1@).len() ==> exists|a: int|
                        0 <= a < i && #[trigger] rows_view(rows1@)[j] == rv[a] && bit_at(
                            rv[a].0,
                            depth as nat,
                        ),
                distinct_keys(rows_view(rows0@)),
                distinct_keys(rows_view(rows1@)),
                map_of(rows_view(rows0@)) == restrict_bit(map_of(rv.take(i as int)), depth as nat, false),
                map_of(rows_view(rows1@)) == restrict_bit(map_of(rv.take(i as int)), depth as nat, true),
            decreases n - i,
        {
            let ghost v0 = rows_view(rows0@);
            let ghost v1 = rows_view(rows1@);
            let ghost mpre = map_of(rv.take(i as int));
            proof {
                assert(rv.take((i + 1) as int).drop_last() =~= rv.take(i as int));
                assert(rv.take((i + 1) as int).last() == rv[i as int]);
                assert(map_of(rv.take((i + 1) as int)) == mpre.insert(rv[i as int].0, rv[i as int].1));
                lemma_map_of_dom(rv.take(i as int), rv[i as int].0);
                assert forall|a: int| 0 <= a < i implies rv.take(i as int)[a].0 != rv[i as int].0 by {
                    assert(rv[a].0 != rv[i as int].0);
                }
                assert(!mpre.contains_key(rv[i as int].0));
            }
            let k = clone_bytes(&rows[i].0);
            let v = clone_bytes(&rows[i].1);
            let b = key_bit(&k, depth);
            let ghost pair = (k, v);
            if !b {
                proof {
                    assert forall|j: int| 0 <= j < v0.len() implies (#[trigger] v0[j]).0 != k@ by {
                        let a = choose|a: int|
                            0 <= a < i && v0[j] == rv[a] && !bit_at(rv[a].0, depth as nat);
                        assert(rv[a].0 != rv[i as int].0);
                    }
                }
                let ghost rows0pre = rows0@;
                rows0.push((k, v));
                proof {
                    assert(rows0@ == rows0pre.push(pair));
                    assert forall|j: int|
                        0 <= j < rows_view(rows0@).len() implies rows_view(rows0@)[j] == v0.push(
                        (rv[i as int].0, rv[i as int].1),
                    )[j] by {
                        if j < v0.len() {
                            assert(rows0@[j] == rows0pre[j]);
                        } else {
                            assert(rows0@[j] == pair);
                            assert(pair.0@ == rv[i as int].0);
                            assert(pair.1@ == rv[i as int].1);
                        }
                    }
                    assert(rows_view(rows0@) =~= v0.push((rv[i as int].0, rv[i as int].1)));
                    assert(rows_view(rows0@).drop_last() =~= v0);
                    assert(map_of(rows_view(rows0@)) == map_of(v0).insert(
                        rv[i as int].0,
                        rv[i as int].1,
                    ));
                    assert(map_of(rows_view(rows0@)) =~= restrict_bit(
                        map_of(rv.take((i + 1) as int)),
                        depth as nat,
                        false,
                    ));
                    assert(map_of(rows_view(rows1@)) =~= restrict_bit(
                        map_of(rv.take((i + 1) as int)),
                        depth as nat,
                        true,
                    ));
                    assert(distinct_keys(rows_view(rows0@)));
                }
            } else {
                proof {
                    assert forall|j: int| 0 <= j < v1.len() implies (#[trigger] v1[j]).0 != k@ by {
                        let a = choose|a: int|
                            0 <= a < i && v1[j] == rv[a] && bit_at(rv[a].0, depth as nat);
                        assert(rv[a].0 != rv[i as int].0);
                    }
                }
                let ghost rows1pre = rows1@;
                rows1.push((k, v));
                proof {
                    assert(rows1@ == rows1pre.push(pair));
                    assert forall|j: int|
                        0 <= j < rows_view(rows1@).len() implies rows_view(rows1@)[j] == v1.push(
                        (rv[i as int].0, rv[i as int].1),
                    )[j] by {
                        if j < v1.len() {
                            assert(rows1@[j] == rows1pre[j]);
                        } else {
                            assert(rows1@[j] == pair);
                            assert(pair.0@ == rv[i as int].0);
                            assert(pair.1@ == rv[i as int].1);
                        }
                    }
                    assert(rows_view(rows1@) =~= v1.push((rv[i as int].0, rv[i as int].1)));
                    assert(rows_view(rows1@).drop_last() =~= v1);
                    assert(map_of(rows_view(rows1@)) == map_of(v1).insert(
                        rv[i as int].0,
                        rv[i as int].1,
                    ));
                    assert(map_of(rows_view(rows1@)) =~= restrict_bit(
                        map_of(rv.take((i + 1) as int)),
                        depth as nat,
                        true,
                    ));
                    assert(map_of(rows_view(rows0@)) =~= restrict_bit(
                        map_of(rv.take((i + 1) as int)),
                        depth as nat,
                        false,
                    ));
                    assert(distinct_keys(rows_view(rows1@)));
                }
            }
            i = i + 1;
        }
        proof {
            assert(rv.take(n as int) =~= rv);
        }
        let ghost m0 = map_of(rows_view(rows0@));
        let ghost m1 = map_of(rows_view(rows1@));
        proof {
            assert(m0 == restrict_bit(m, depth as nat, false));
            assert(m1 == restrict_bit(m, depth as nat, true));
        }
        let ghost nodes0 = nodes@;
        let r0 = match build_sub(nodes, rows0, depth + 1) {
            Ok(h) => h,
            Err(e) => {
                return Err(e);
            },
        };
        let ghost nodes1 = nodes@;
        let r1 = match build_sub(nodes, rows1, depth + 1) {
            Ok(h) => h,
            Err(e) => {
                proof {
                    vstd::map_lib::lemma_submap_of_trans(nodes0, nodes1, nodes@);
                }
                return Err(e);
            },
        };
        let ghost nodes2 = nodes@;
        let mut content: Vec<u8> = Vec::new();
        content.push(1u8);
        push_ref(&mut content, &r0);
        push_ref(&mut content, &r1);
        proof {
            assert(content@ =~= branch_content(opt_view(r0), opt_view(r1)));
        }
        match put_node(nodes, content) {
            Ok(h) => {
                proof {
                    vstd::map_lib::lemma_submap_of_trans(nodes0, nodes1, nodes2);
                    vstd::map_lib::lemma_submap_of_trans(nodes0, nodes2, nodes@);
                    // The canonical hash of the whole subtree.
                    assert(m.dom().contains(rv[0].0)) by {
                        lemma_map_of_at(rv, 0);
                    }
                    assert(m.dom() != Set::<Seq<u8>>::empty());
                    assert(sub_hash(m, depth as nat) == Some(
                        keccak_of(
                            branch_content(
                                sub_hash(m0, depth as nat + 1),
                                sub_hash(m1, depth as nat + 1),
                            ),
                        ),
                    ));
                    assert(opt_view(r0) == sub_hash(m0, depth as nat + 1));
                    assert(opt_view(r1) == sub_hash(m1, depth as nat + 1));
                    assert(h@ == keccak_of(branch_content(opt_view(r0), opt_view(r1))));
                    // Reading the node back.
                    let c = branch_content(opt_view(r0), opt_view(r1));
                    let n2 = final(nodes)@;
                    assert(n2.contains_key(h@) && n2[h@] == c);
                    lemma_parse_child_ref(opt_view(r0));
                    lemma_parse_child_ref(opt_view(r1));
                    assert(c.len() == 67 && c[0] == 1);
                    assert(c.subrange(1, 34) =~= child_ref(opt_view(r0)));
                    assert(c.subrange(34, 67) =~= child_ref(opt_view(r1)));
                    assert(parse_ref(c.subrange(1, 34)) == Some(opt_view(r0)));
                    assert(parse_ref(c.subrange(34, 67)) == Some(opt_view(r1)));
                    assert(nodes2.submap_of(n2));
                    vstd::map_lib::lemma_submap_of_trans(nodes1, nodes2, n2);
                    assert(nodes1.submap_of(n2));
                    lemma_read_sub_monotone(nodes1, n2, opt_view(r0), depth as nat + 1);
                    lemma_read_sub_monotone(nodes2, n2, opt_view(r1), depth as nat + 1);
                    assert(read_sub(n2, opt_view(r0), depth as nat + 1) == Some(m0));
                    assert(read_sub(n2, opt_view(r1), depth as nat + 1) == Some(m1));
                    assert(m0.union_prefer_right(m1) =~= m);
                    assert(read_sub(n2, Some(h@), depth as nat) == Some(m));
                }
                Ok(Some(h))
            },
            Err(e) => {
                proof {
                    vstd::map_lib::lemma_submap_of_trans(nodes0, nodes1, nodes2);
                    vstd::map_lib::lemma_submap_of_trans(nodes0, nodes2, nodes@);
                }
                Err(e)
            },
        }
    }
}

/// Concatenation of association lists is union of their maps, later
/// entries winning.
pub proof fn lemma_map_of_concat(a: Seq<(Seq<u8>, Seq<u8>)>, b: Seq<(Seq<u8>, Seq<u8>)>)
    ensures
        map_of(a + b) == map_of(a).union_prefer_right(map_of(b)),
    decreases b.len(),
{
    if b.len() == 0 {
        assert(a + b =~= a);
        assert(map_of(a).union_prefer_right(map_of(b)) =~= map_of(a));
    } else {
        assert((a + b).drop_last() =~= a + b.drop_last());
        assert((a + b).last() == b.last());
        lemma_map_of_concat(a, b.drop_last());
        assert(map_of(a).union_prefer_right(map_of(b.drop_last())).insert(b.last().0, b.last().1)
            =~= map_of(a).union_prefer_right(map_of(b)));
    }
}

/// Reads out every row of the subtree referenced by `r` at depth `d`.
/// Succeeds exactly when the reference is readable.
pub(crate) fn load_sub(nodes: &Column, r: &Option<Hash256>, depth: usize) -> (out: Result<
    Vec<(Vec<u8>, Vec<u8>)>,
    Error,
>)
    requires
        nodes.wf(),
        depth <= 256,
    ensures
        match out {
            Ok(rows) => read_sub(nodes@, opt_view(*r), depth as nat) == Some(
                map_of(rows_view(rows@)),
            ) && (forall|i: int|
                0 <= i < rows@.len() ==> (#[trigger] rows_view(rows@)[i]).0.len() == 32),
            Err(e) => e == Error::Decode && read_sub(nodes@, opt_view(*r), depth as nat) is None,
        },
    decreases 256 - depth,
{
    match r {
        None => {
            let rows: Vec<(Vec<u8>, Vec<u8>)> = Vec::new();
            proof {
                assert(rows_view(rows@) =~= Seq::<(Seq<u8>, Seq<u8>)>::empty());
                assert(map_of(rows_view(rows@)) =~= Map::<Seq<u8>, Seq<u8>>::empty());
            }
            Ok(rows)
        },
        Some(h) => {
            match nodes.get(&h.bytes) {
                None => Err(Error::Decode),
                Some(c) => {
                    if depth == 256 {
                        if c.len() >= 33 && c[0] == 0u8 {
                            let key = sub_bytes(&c, 1, 33);
                            let val = sub_bytes(&c, 33, c.len());
                            let mut rows: Vec<(Vec<u8>, Vec<u8>)> = Vec::new();
                            let ghost kview = key@;
                            let ghost vview = val@;
                            rows.push((key, val));
                            proof {
                                assert(c@.skip(33) =~= c@.subrange(33, c@.len() as int));
                                assert(rows@.len() == 1);
                                assert(rows_view(rows@).len() == 1);
                                assert(rows_view(rows@)[0] == (kview, vview));
                                let rvr = rows_view(rows@);
                                assert(rvr.drop_last() =~= Seq::<(Seq<u8>, Seq<u8>)>::empty());
                                assert(map_of(rvr.drop_last()) == Map::<Seq<u8>, Seq<u8>>::empty());
                                assert(rvr.last() == (kview, vview));
                                assert(map_of(rvr) == Map::<Seq<u8>, Seq<u8>>::empty().insert(
                                    kview,
                                    vview,
                                ));
                                assert(map_of(rvr) =~= Map::<Seq<u8>, Seq<u8>>::empty().insert(
                                    c@.subrange(1, 33),
                                    c@.skip(33),
                                ));
                            }
                            Ok(rows)
                        } else {
                            Err(Error::Decode)
                        }
                    } else {
                        if c.len() == 67 && c[0] == 1u8 {
                            let l: Option<Hash256> = if c[1] == 0u8 {
                                None
                            } else if c[1] == 1u8 {
                                Some(Hash256 { bytes: sub_bytes(&c, 2, 34) })
                            } else {
                                return Err(Error::Decode);
                            };
                            let rr: Option<Hash256> = if c[34] == 0u8 {
                                None
                            } else if c[34] == 1u8 {
                                Some(Hash256 { bytes: sub_bytes(&c, 35, 67) })
                            } else {
                                return Err(Error::Decode);
                            };
                            proof {
                                assert(c@.subrange(1, 34)[0] == c@[1]);
                                assert(c@.subrange(34, 67)[0] == c@[34]);
                                assert(c@.subrange(1, 34).skip(1) =~= c@.subrange(2, 34));
                                assert(c@.subrange(34, 67).skip(1) =~= c@.subrange(35, 67));
                                assert(parse_ref(c@.subrange(1, 34)) == Some(opt_view(l)));
                                assert(parse_ref(c@.subrange(34, 67)) == Some(opt_view(rr)));
                            }
                            let mut rows0 = match load_sub(nodes, &l, depth + 1) {
                                Ok(rows) => rows,
                                Err(e) => {
                                    return Err(e);
                                },
                            };
                            let rows1 = match load_sub(nodes, &rr, depth + 1) {
                                Ok(rows) => rows,
                                Err(e) => {
                                    return Err(e);
                                },
                            };
                            let ghost v0 = rows_view(rows0@);
                            let ghost v1 = rows_view(rows1@);
                            let n1 = rows1.len();
                            let mut j: usize = 0;
                            let mut rows1m = rows1;
                            while j < n1
                                invariant
                                    j <= n1,
                                    n1 == rows1m@.len(),
                                    rows_view(rows1m@) == v1,
                                    rows0@.len() == v0.len() + j,
                                    rows_view(rows0@) == v0 + v1.take(j as int),
                                decreases n1 - j,
                            {
                                let k2 = clone_bytes(&rows1m[j].0);
                                let v2 = clone_bytes(&rows1m[j].1);
                                let ghost pre = rows0@;
                                let ghost pair = (k2, v2);
                                rows0.push((k2, v2));
                                proof {
                                    assert(rows0@ == pre.push(pair));
                                    assert(rows0@.len() == pre.len() + 1);
                                    assert(rows_view(pre) == v0 + v1.take(j as int));
                                    assert forall|t: int|
                                        0 <= t < rows_view(rows0@).len() implies rows_view(
                                        rows0@,
                                    )[t] == (v0 + v1.take((j + 1) as int))[t] by {
                                        if t < pre.len() {
                                            assert(rows0@[t] == pre[t]);
                                            assert(rows_view(rows0@)[t] == rows_view(pre)[t]);
                                            assert(rows_view(pre)[t] == (v0 + v1.take(
                                                j as int,
                                            ))[t]);
                                        } else {
                                            assert(rows0@[t] == pair);
                                            assert(pair.0@ == v1[j as int].0);
                                            assert(pair.1@ == v1[j as int].1);
                                        }
                                    }
                                    assert(rows_view(rows0@) =~= v0 + v1.take((j + 1) as int));
                                }
                                j = j + 1;
                            }
                            proof {
                                assert(v0 + v1.take(n1 as int) =~= v0 + v1);
                                lemma_map_of_concat(v0, v1);
                            }
                            Ok(rows0)
                        } else {
                            Err(Error::Decode)
                        }
                    }
                },
            }
        },
    }
}

/// An in-memory trie transaction: the full contents of one trie version,
/// edited in memory and applied to the node store in one step.
pub struct TrieTxn {
    contents: Column,
}

impl View for TrieTxn {
    type V = Map<Seq<u8>, Seq<u8>>;

    closed spec fn view(&self) -> Map<Seq<u8>, Seq<u8>> {
        self.contents@
    }
}

impl TrieTxn {
    /// Every key is a 32-byte trie key.
    pub closed spec fn wf(&self) -> bool {
        self.contents.wf() && forall|k: Seq<u8>| self@.contains_key(k) ==> k.len() == 32
    }

    /// A well-formed transaction holds only 32-byte keys.
    pub proof fn lemma_wf_keys(&self)
        requires
            self.wf(),
        ensures
            forall|k: Seq<u8>| self@.contains_key(k) ==> k.len() == 32,
    {
    }

    /// An empty transaction.
    pub fn empty() -> (r: TrieTxn)
        ensures
            r.wf(),
            r@ == Map::<Seq<u8>, Seq<u8>>::empty(),
    {
        TrieTxn { contents: Column::new() }
    }

    /// The value at a key, if present.
    pub fn get(&self, key: &Hash256) -> (r: Option<Vec<u8>>)
        requires
            self.wf(),
        ensures
            match r {
                Some(v) => self@.contains_key(key@) && v@ == self@[key@],
                None => !self@.contains_key(key@),
            },
    {
        self.contents.get(&key.bytes)
    }

    /// Sets the value at a key.
    pub fn insert(&mut self, key: &Hash256, value: Vec<u8>)
        requires
            old(self).wf(),
            key.wf(),
        ensures
            final(self).wf(),
            final(self)@ == old(self)@.insert(key@, value@),
    {
        let k = clone_bytes(&key.bytes);
        self.contents.put(k, value);
    }

    /// Removes the value at a key, if any.
    pub fn remove(&mut self, key: &Hash256)
        requires
            old(self).wf(),
        ensures
            final(self).wf(),
            final(self)@ == old(self)@.remove(key@),
    {
        self.contents.del(&key.bytes);
    }
}

/// Builds a transaction holding exactly the given rows.
fn txn_from_rows(rows: Vec<(Vec<u8>, Vec<u8>)>) -> (r: TrieTxn)
    requires
        forall|i: int| 0 <= i < rows@.len() ==> (#[trigger] rows_view(rows@)[i]).0.len() == 32,
    ensures
        r.wf(),
        r@ == map_of(rows_view(rows@)),
{
    let ghost rv = rows_view(rows@);
    let mut col = Column::new();
    let n = rows.len();
    let mut i: usize = 0;
    while i < n
        invariant
            i <= n,
            n == rows@.len(),
            rv == rows_view(rows@),
            forall|t: int| 0 <= t < rows@.len() ==> (#[trigger] rv[t]).0.len() == 32,
            col.wf(),
            col@ == map_of(rv.take(i as int)),
            forall|k: Seq<u8>| col@.contains_key(k) ==> k.len() == 32,
        decreases n - i,
    {
        let k = clone_bytes(&rows[i].0);
        let v = clone_bytes(&rows[i].1);
        proof {
            assert(rv.take((i + 1) as int).drop_last() =~= rv.take(i as int));
            assert(rv.take((i + 1) as int).last() == rv[i as int]);
        }
        col.put(k, v);
        i = i + 1;
    }
    proof {
        assert(rv.take(n as int) =~= rv);
    }
    TrieTxn { contents: col }
}

/// Opens the trie rooted at `root` over the node store, materializing its
/// contents. Succeeds exactly when the root is readable: always for the
/// empty-trie root, else when every node of the version is present and
/// well-formed.
pub fn open_trie(nodes: &Column, root: &Hash256) -> (r: Result<TrieTxn, Error>)
    requires
        nodes.wf(),
    ensures
        match r {
            Ok(t) => t.wf() && trie_reads(nodes@, root@) == Some(t@),
            Err(e) => e == Error::Decode && trie_reads(nodes@, root@) is None,
        },
{
    let er = empty_root();
    if root.same(&er) {
        Ok(TrieTxn::empty())
    } else {
        let opt = Some(root.dup());
        match load_sub(nodes, &opt, 0) {
            Ok(rows) => {
                let t = txn_from_rows(rows);
                Ok(t)
            },
            Err(e) => Err(e),
        }
    }
}

/// Writes a transaction's canonical nodes into the node store and returns
/// the new root. The store only grows, so every previously readable version
/// remains readable unchanged; the returned root is the canonical root of
/// the transaction's contents and reads back to exactly those contents.
pub fn apply_trie(nodes: &mut Column, txn: TrieTxn) -> (r: Result<Hash256, Error>)
    requires
        old(nodes).wf(),
        txn.wf(),
    ensures
        final(nodes).wf(),
        old(nodes)@.submap_of(final(nodes)@),
        match r {
            Ok(root) => root.wf() && root@ == trie_root_of(txn@) && trie_reads(
                final(nodes)@,
                root@,
            ) == Some(txn@),
            Err(e) => e == Error::HashCollision && (has_collision(final(nodes)@) || (txn@.dom()
                != Set::<Seq<u8>>::empty() && sub_hash(txn@, 0) == Some(spec_empty_root()))),
        },
{
    let ghost m = txn@;
    let rows = txn.contents.all_rows();
    proof {
        assert forall|i: int|
            0 <= i < rows@.len() implies (#[trigger] rows_view(rows@)[i]).0.len() == 32 by {
            lemma_map_of_at(rows_view(rows@), i);
        }
    }
    match build_sub(nodes, rows, 0) {
        Ok(None) => {
            proof {
                assert(sub_hash(m, 0) is None);
                assert(m.dom() == Set::<Seq<u8>>::empty());
                assert(m =~= Map::<Seq<u8>, Seq<u8>>::empty());
            }
            Ok(empty_root())
        },
        Ok(Some(h)) => {
            let er = empty_root();
            if h.same(&er) {
                // The canonical node hash of a non-empty version collided
                // with the distinguished empty root.
                Err(Error::HashCollision)
            } else {
                Ok(h)
            }
        },
        Err(e) => Err(e),
    }
}

} // verus!
