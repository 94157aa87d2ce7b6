use evm_state::account::AccountChange;
use evm_state::account::ChangedState;
use evm_state::account::decode_account;
use evm_state::bytes::Address;
use evm_state::bytes::Hash256;
use evm_state::bytes::addr_key;
use evm_state::cleaner::Cleaner;
use evm_state::error::Error;
use evm_state::hashing::keccak256;
use evm_state::storage::Codes;
use evm_state::storage::ReferenceCounter;
use evm_state::storage::Receipts;
use evm_state::storage::Storage;
use evm_state::storage::Transactions;
use evm_state::storage::TransactionHashesPerBlock;
use evm_state::trie::TrieTxn;
use evm_state::trie::empty_root;

fn h(n: u8) -> Hash256 {
    let mut b = vec![0u8; 32];
    b[31] = n;
    Hash256 { bytes: b }
}

fn addr(n: u8) -> Address {
    let mut b = vec![0u8; 20];
    b[19] = n;
    Address { bytes: b }
}

fn update(
    nonce: u64,
    balance: u8,
    code: Vec<u8>,
    storage: Vec<(Hash256, Hash256)>,
) -> AccountChange {
    AccountChange::Update { nonce, balance: h(balance), code, storage }
}

fn batch(entries: Vec<(Address, AccountChange)>) -> ChangedState {
    ChangedState { updates: entries }
}

fn gc_storage() -> Storage {
    Storage::open_persistent("gc-store".to_string(), true).unwrap()
}

#[test]
fn typed_tables_roundtrip() {
    let mut s = Storage::create_temporary().unwrap();
    let key = h(7).bytes;
    s.set::<Codes>(key.clone(), vec![1, 2, 3]);
    assert_eq!(s.get::<Codes>(&key), Some(vec![1, 2, 3]));
    s.set::<Codes>(key.clone(), vec![9]);
    assert_eq!(s.get::<Codes>(&key), Some(vec![9]));
    s.set::<Transactions>(h(1).bytes, vec![0xaa]);
    assert_eq!(s.get::<Transactions>(&h(1).bytes), Some(vec![0xaa]));
    assert_eq!(s.get::<Transactions>(&h(2).bytes), None);
    s.set::<Receipts>(h(1).bytes, vec![0xbb]);
    assert_eq!(s.get::<Receipts>(&h(1).bytes), Some(vec![0xbb]));
    s.set::<TransactionHashesPerBlock>(vec![0, 0, 0, 0, 0, 0, 0, 1], h(5).bytes);
    assert_eq!(
        s.get::<TransactionHashesPerBlock>(&vec![0, 0, 0, 0, 0, 0, 0, 1]),
        Some(h(5).bytes)
    );
    let mut g = gc_storage();
    g.set::<ReferenceCounter>(h(3).bytes, vec![0, 0, 0, 0, 0, 0, 0, 2]);
    assert_eq!(g.get::<ReferenceCounter>(&h(3).bytes), Some(vec![0, 0, 0, 0, 0, 0, 0, 2]));
}

#[test]
fn empty_root_exists_on_fresh_store() {
    let s = Storage::create_temporary().unwrap();
    assert!(s.check_root_exist(&empty_root()));
    assert!(!s.check_root_exist(&h(9)));
}

#[test]
fn commit_empty_batch_returns_empty_root() {
    let mut s = Storage::create_temporary().unwrap();
    let r = s.flush_changes(&empty_root(), &batch(vec![])).unwrap();
    assert_eq!(r.bytes, empty_root().bytes);
}

#[test]
fn end_to_end_insert_then_remove() {
    let mut s = Storage::create_temporary().unwrap();
    let b = batch(vec![(addr(1), update(1, 100, vec![], vec![]))]);
    let r1 = s.flush_changes(&empty_root(), &b).unwrap();
    assert_ne!(r1.bytes, empty_root().bytes);
    assert!(s.check_root_exist(&r1));

    let trie = s.trie_for(&r1).unwrap();
    let key = Hash256 { bytes: addr_key(&addr(1)) };
    let row = trie.get(&key).expect("account present");
    let acct = decode_account(&row).expect("account decodes");
    assert_eq!(acct.nonce, 1);
    assert_eq!(acct.balance.bytes, h(100).bytes);
    assert_eq!(acct.storage_root.bytes, empty_root().bytes);

    let b2 = batch(vec![(addr(1), AccountChange::Remove)]);
    let r2 = s.flush_changes(&r1, &b2).unwrap();
    assert_eq!(r2.bytes, empty_root().bytes);
}

#[test]
fn zero_slot_write_is_absent_write() {
    let mut s = Storage::create_temporary().unwrap();
    let plain = batch(vec![(addr(1), update(1, 5, vec![], vec![]))]);
    let r_plain = s.flush_changes(&empty_root(), &plain).unwrap();

    let zeroed = batch(vec![(addr(1), update(1, 5, vec![], vec![(h(4), h(0))]))]);
    let r_zeroed = s.flush_changes(&empty_root(), &zeroed).unwrap();
    assert_eq!(r_plain.bytes, r_zeroed.bytes);
}

#[test]
fn zero_slot_write_returns_prior_root() {
    let mut s = Storage::create_temporary().unwrap();
    let base = batch(vec![(addr(1), update(1, 5, vec![], vec![]))]);
    let r_base = s.flush_changes(&empty_root(), &base).unwrap();

    let written = batch(vec![(addr(1), update(1, 5, vec![], vec![(h(4), h(9))]))]);
    let r_written = s.flush_changes(&empty_root(), &written).unwrap();
    assert_ne!(r_base.bytes, r_written.bytes);

    let erased = batch(vec![(addr(1), update(1, 5, vec![], vec![(h(4), h(0))]))]);
    let r_erased = s.flush_changes(&r_written, &erased).unwrap();
    assert_eq!(r_base.bytes, r_erased.bytes);
}

#[test]
fn structural_sharing_keeps_untouched_account() {
    let mut s = Storage::create_temporary().unwrap();
    let base = batch(vec![
        (addr(1), update(1, 10, vec![], vec![(h(1), h(11))])),
        (addr(2), update(1, 20, vec![], vec![])),
    ]);
    let r0 = s.flush_changes(&empty_root(), &base).unwrap();

    let left = batch(vec![(addr(2), update(2, 21, vec![], vec![]))]);
    let r_left = s.flush_changes(&r0, &left).unwrap();
    let right = batch(vec![(addr(3), update(1, 30, vec![], vec![]))]);
    let r_right = s.flush_changes(&r0, &right).unwrap();

    let key1 = Hash256 { bytes: addr_key(&addr(1)) };
    let row_left = s.trie_for(&r_left).unwrap().get(&key1).unwrap();
    let row_right = s.trie_for(&r_right).unwrap().get(&key1).unwrap();
    assert_eq!(row_left, row_right);
    let a_left = decode_account(&row_left).unwrap();
    let a_right = decode_account(&row_right).unwrap();
    assert_eq!(a_left.storage_root.bytes, a_right.storage_root.bytes);
}

#[test]
fn code_storage_is_idempotent() {
    let mut s = Storage::create_temporary().unwrap();
    let code = vec![0x60, 0x00, 0x60, 0x00];
    let b1 = batch(vec![(addr(1), update(1, 1, code.clone(), vec![]))]);
    let r1 = s.flush_changes(&empty_root(), &b1).unwrap();
    let b2 = batch(vec![(addr(2), update(1, 2, code.clone(), vec![]))]);
    let _r2 = s.flush_changes(&r1, &b2).unwrap();

    let ch = keccak256(&code);
    assert_eq!(s.get::<Codes>(&ch.bytes), Some(code.clone()));

    let key1 = Hash256 { bytes: addr_key(&addr(1)) };
    let row = s.trie_for(&r1).unwrap().get(&key1).unwrap();
    let acct = decode_account(&row).unwrap();
    assert_eq!(acct.code_hash.bytes, ch.bytes);
}

#[test]
fn old_versions_stay_readable() {
    let mut s = Storage::create_temporary().unwrap();
    let r1 = s
        .flush_changes(&empty_root(), &batch(vec![(addr(1), update(1, 1, vec![], vec![]))]))
        .unwrap();
    let r2 = s
        .flush_changes(&r1, &batch(vec![(addr(1), update(2, 2, vec![], vec![]))]))
        .unwrap();
    assert_ne!(r1.bytes, r2.bytes);
    let key = Hash256 { bytes: addr_key(&addr(1)) };
    let old_row = s.trie_for(&r1).unwrap().get(&key).unwrap();
    assert_eq!(decode_account(&old_row).unwrap().nonce, 1);
    let new_row = s.trie_for(&r2).unwrap().get(&key).unwrap();
    assert_eq!(decode_account(&new_row).unwrap().nonce, 2);
}

#[test]
fn flush_against_unknown_root_is_decode_error() {
    let mut s = Storage::create_temporary().unwrap();
    let r = s.flush_changes(&h(42), &batch(vec![]));
    assert_eq!(r, Err(Error::Decode));
    assert!(s.trie_for(&h(42)).is_err());
}

#[test]
fn gc_conservation_over_register_and_purge() {
    let mut s = gc_storage();
    let root = h(7);
    s.register_slot(1, &root).unwrap();
    s.register_slot(2, &root).unwrap();
    assert_eq!(s.gc_count(&root).unwrap(), 2);

    assert_eq!(s.purge_slot(1).unwrap(), None);
    assert_eq!(s.gc_count(&root).unwrap(), 1);

    let freed = s.purge_slot(2).unwrap();
    assert_eq!(freed.map(|r| r.bytes), Some(root.bytes.clone()));
    assert_eq!(s.gc_count(&root).unwrap(), 0);

    assert_eq!(s.purge_slot(3).unwrap(), None);
}

#[test]
fn gc_is_noop_when_disabled() {
    let mut s = Storage::create_temporary().unwrap();
    assert!(!s.is_gc_enabled());
    s.register_slot(1, &h(7)).unwrap();
    assert_eq!(s.gc_count(&h(7)).unwrap(), 0);
    assert_eq!(s.purge_slot(1).unwrap(), None);
    assert_eq!(s.gc_remove_references(&vec![h(7)]).unwrap(), vec![]);
}

#[test]
fn gc_remove_references_counts_down() {
    let mut s = gc_storage();
    let root = h(9);
    s.register_slot(1, &root).unwrap();
    s.register_slot(2, &root).unwrap();
    let first = s.gc_remove_references(&vec![root.dup()]).unwrap();
    assert!(first.is_empty());
    assert_eq!(s.gc_count(&root).unwrap(), 1);
    // The root reaches zero; it has no stored node, so no children are
    // collected and the returned set is empty.
    let second = s.gc_remove_references(&vec![root.dup()]).unwrap();
    assert!(second.is_empty());
    assert_eq!(s.gc_count(&root).unwrap(), 0);
}

#[test]
fn merge_rejects_gc_mode_before_copying() {
    let mut gc = gc_storage();
    let other = Storage::create_temporary().unwrap();
    assert_eq!(gc.merge_from_db(&other), Err(Error::Precondition));

    let mut plain = Storage::create_temporary().unwrap();
    let gc_src = gc_storage();
    assert_eq!(plain.merge_from_db(&gc_src), Err(Error::Precondition));
    assert_eq!(plain.get::<Codes>(&h(1).bytes), None);
}

#[test]
fn merge_copies_nodes_and_codes() {
    let mut src = Storage::create_temporary().unwrap();
    let code = vec![1, 2, 3];
    let r1 = src
        .flush_changes(&empty_root(), &batch(vec![(addr(1), update(1, 1, code.clone(), vec![]))]))
        .unwrap();

    let mut dst = Storage::create_temporary().unwrap();
    assert!(!dst.check_root_exist(&r1));
    dst.merge_from_db(&src).unwrap();
    assert!(dst.check_root_exist(&r1));
    let key = Hash256 { bytes: addr_key(&addr(1)) };
    let row = dst.trie_for(&r1).unwrap().get(&key).unwrap();
    assert_eq!(decode_account(&row).unwrap().nonce, 1);
    let ch = keccak256(&code);
    assert_eq!(dst.get::<Codes>(&ch.bytes), Some(code));
}

#[test]
fn cleaner_sweeps_dead_rows_and_keeps_live_ones() {
    let mut s = Storage::create_temporary().unwrap();
    let code = vec![5, 6];
    let r1 = s
        .flush_changes(&empty_root(), &batch(vec![(addr(1), update(1, 1, code.clone(), vec![]))]))
        .unwrap();
    let ch = keccak256(&code);
    assert!(s.check_root_exist(&r1));

    // Keep only the state root's own node and the code row.
    let cleaner = Cleaner::new_with(vec![r1.dup()], vec![ch.dup()]);
    cleaner.cleanup(&mut s).unwrap();
    assert!(s.check_root_exist(&r1));
    assert_eq!(s.get::<Codes>(&ch.bytes), Some(code));

    // A second pass keeping nothing removes everything.
    let wipe = Cleaner::new_with(vec![], vec![]);
    wipe.cleanup(&mut s).unwrap();
    assert!(!s.check_root_exist(&r1));
    assert_eq!(s.get::<Codes>(&ch.bytes), None);
    // The empty root still exists by definition.
    assert!(s.check_root_exist(&empty_root()));
}

#[test]
fn inner_location_is_under_the_store() {
    let s = Storage::open_persistent("some/dir".to_string(), false).unwrap();
    assert_eq!(s.get_inner_location(), "some/dir/tmp_inner_space");
}

#[test]
fn gc_remove_references_cascades_into_children() {
    let mut s = gc_storage();
    let r1 = s
        .flush_changes(&empty_root(), &batch(vec![(addr(1), update(1, 1, vec![], vec![]))]))
        .unwrap();
    s.register_slot(1, &r1).unwrap();
    // One registration from the slot; the commit registered only the
    // account's storage root, not the state root itself.
    assert_eq!(s.gc_count(&r1).unwrap(), 1);

    let freed = s.gc_remove_references(&vec![r1.dup()]).unwrap();
    // The root reached zero, so the immediate child reference of its node
    // lost a reference too; its count was already zero, so the returned
    // set holds exactly that child, not the root itself.
    assert_eq!(freed.len(), 1);
    assert_ne!(freed[0].bytes, r1.bytes);
    assert_eq!(s.gc_count(&r1).unwrap(), 0);
}

#[test]
fn commit_registers_new_storage_roots() {
    let mut s = gc_storage();
    let b = batch(vec![(addr(1), update(1, 1, vec![], vec![(h(2), h(3))]))]);
    let r1 = s.flush_changes(&empty_root(), &b).unwrap();
    let key = Hash256 { bytes: addr_key(&addr(1)) };
    let row = s.trie_for(&r1).unwrap().get(&key).unwrap();
    let acct = decode_account(&row).unwrap();
    // The account's fresh storage root got one reference from the commit.
    assert_eq!(s.gc_count(&acct.storage_root).unwrap(), 1);
}

#[test]
fn commits_are_deterministic_across_stores() {
    let make = |s: &mut Storage| {
        let b = batch(vec![
            (addr(1), update(1, 10, vec![0xfe], vec![(h(1), h(2))])),
            (addr(2), AccountChange::Remove),
        ]);
        s.flush_changes(&empty_root(), &b).unwrap()
    };
    let mut s1 = Storage::create_temporary().unwrap();
    let mut s2 = Storage::create_temporary().unwrap();
    let r1 = make(&mut s1);
    let r2 = make(&mut s2);
    assert_eq!(r1.bytes, r2.bytes);
    // Re-committing the identical batch on the same store gives the same
    // root again: nodes are content-addressed, never duplicated.
    let r3 = make(&mut s1);
    assert_eq!(r1.bytes, r3.bytes);
}

#[test]
fn failed_commit_leaves_code_and_counters_untouched() {
    // Build an account trie whose row for addr(1) is malformed, so the
    // commit fails while resolving its delta.
    let mut s = Storage::create_temporary().unwrap();
    let key = Hash256 { bytes: addr_key(&addr(1)) };
    let mut t = TrieTxn::empty();
    t.insert(&key, vec![1, 2, 3]);
    let bad_root = s.apply(t).unwrap();

    let code = vec![0xab, 0xcd];
    let b = batch(vec![(addr(1), update(7, 7, code.clone(), vec![]))]);
    let r = s.flush_changes(&bad_root, &b);
    assert_eq!(r, Err(Error::Decode));
    // The staged code write was discarded with the failed batch.
    let ch = keccak256(&code);
    assert_eq!(s.get::<Codes>(&ch.bytes), None);
}

#[test]
fn committed_storage_roots_read_back() {
    let mut s = Storage::create_temporary().unwrap();
    let b = batch(vec![(addr(1), update(1, 1, vec![], vec![(h(4), h(9)), (h(5), h(0))]))]);
    let r1 = s.flush_changes(&empty_root(), &b).unwrap();
    let key = Hash256 { bytes: addr_key(&addr(1)) };
    let row = s.trie_for(&r1).unwrap().get(&key).unwrap();
    let acct = decode_account(&row).unwrap();
    // The freshly committed storage trie is readable at its root and holds
    // exactly the non-zero write.
    let st = s.trie_for(&acct.storage_root).unwrap();
    assert_eq!(st.get(&h(4)), Some(h(9).bytes));
    assert_eq!(st.get(&h(5)), None);
}

#[test]
fn reregistering_a_slot_releases_the_replaced_root() {
    let mut s = gc_storage();
    s.register_slot(1, &h(7)).unwrap();
    assert_eq!(s.gc_count(&h(7)).unwrap(), 1);
    // The slot moves to another root: the old root loses its reference.
    s.register_slot(1, &h(8)).unwrap();
    assert_eq!(s.gc_count(&h(7)).unwrap(), 0);
    assert_eq!(s.gc_count(&h(8)).unwrap(), 1);
    assert_eq!(s.purge_slot(1).unwrap().map(|r| r.bytes), Some(h(8).bytes));
}

#[test]
fn unchanged_storage_root_gains_no_reference() {
    let mut s = gc_storage();
    // No storage writes: the account keeps the empty storage root it
    // started from, so no reference is registered for it.
    let b = batch(vec![(addr(1), update(1, 1, vec![], vec![]))]);
    let _r1 = s.flush_changes(&empty_root(), &b).unwrap();
    assert_eq!(s.gc_count(&empty_root()).unwrap(), 0);
}
