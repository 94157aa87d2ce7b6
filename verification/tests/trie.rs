use evm_state::bytes::Hash256;
use evm_state::bytes::u64_from_be;
use evm_state::bytes::u64_to_be;
use evm_state::hashing::keccak256;
use evm_state::trie::TrieTxn;
use evm_state::trie::empty_root;
use evm_state::storage::Storage;

fn h(n: u8) -> Hash256 {
    let mut b = vec![0u8; 32];
    b[31] = n;
    Hash256 { bytes: b }
}

#[test]
fn keccak_of_empty_input() {
    let d = keccak256(&vec![]);
    let expected = vec![
        0xc5u8, 0xd2, 0x46, 0x01, 0x86, 0xf7, 0x23, 0x3c, 0x92, 0x7e, 0x7d, 0xb2, 0xdc, 0xc7,
        0x03, 0xc0, 0xe5, 0x00, 0xb6, 0x53, 0xca, 0x82, 0x27, 0x3b, 0x7b, 0xfa, 0xd8, 0x04,
        0x5d, 0x85, 0xa4, 0x70,
    ];
    assert_eq!(d.bytes, expected);
}

#[test]
fn keccak_depends_on_input() {
    let a = keccak256(&vec![1, 2, 3]);
    let b = keccak256(&vec![1, 2, 4]);
    assert_ne!(a.bytes, b.bytes);
    assert_eq!(a.bytes.len(), 32);
}

#[test]
fn u64_big_endian_roundtrip() {
    let b = u64_to_be(0x0102030405060708);
    assert_eq!(b, vec![1, 2, 3, 4, 5, 6, 7, 8]);
    assert_eq!(u64_from_be(&b), 0x0102030405060708);
}

#[test]
fn empty_trie_txn_applies_to_empty_root() {
    let mut s = Storage::create_temporary().unwrap();
    let txn = TrieTxn::empty();
    let root = s.apply(txn).unwrap();
    assert_eq!(root.bytes, empty_root().bytes);
}

#[test]
fn trie_roots_are_canonical_under_history() {
    let mut s = Storage::create_temporary().unwrap();

    // Build { h1 -> a } directly.
    let mut t1 = TrieTxn::empty();
    t1.insert(&h(1), vec![0xaa]);
    let r_direct = s.apply(t1).unwrap();

    // Build { h1 -> a, h2 -> b }, then delete h2 again.
    let mut t2 = TrieTxn::empty();
    t2.insert(&h(1), vec![0xaa]);
    t2.insert(&h(2), vec![0xbb]);
    let r_two = s.apply(t2).unwrap();
    let mut t3 = s.trie_for(&r_two).unwrap();
    t3.remove(&h(2));
    let r_pruned = s.apply(t3).unwrap();

    assert_ne!(r_two.bytes, r_direct.bytes);
    assert_eq!(r_pruned.bytes, r_direct.bytes);
}

#[test]
fn trie_reads_back_inserted_values() {
    let mut s = Storage::create_temporary().unwrap();
    let mut t = TrieTxn::empty();
    t.insert(&h(1), vec![0xaa]);
    t.insert(&h(2), vec![0xbb, 0xcc]);
    let root = s.apply(t).unwrap();

    let back = s.trie_for(&root).unwrap();
    assert_eq!(back.get(&h(1)), Some(vec![0xaa]));
    assert_eq!(back.get(&h(2)), Some(vec![0xbb, 0xcc]));
    assert_eq!(back.get(&h(3)), None);
}

#[test]
fn overwriting_a_key_changes_and_restores_the_root() {
    let mut s = Storage::create_temporary().unwrap();
    let mut t = TrieTxn::empty();
    t.insert(&h(1), vec![1]);
    let r1 = s.apply(t).unwrap();

    let mut t2 = s.trie_for(&r1).unwrap();
    t2.insert(&h(1), vec![2]);
    let r2 = s.apply(t2).unwrap();
    assert_ne!(r1.bytes, r2.bytes);

    let mut t3 = s.trie_for(&r2).unwrap();
    t3.insert(&h(1), vec![1]);
    let r3 = s.apply(t3).unwrap();
    assert_eq!(r1.bytes, r3.bytes);
}
