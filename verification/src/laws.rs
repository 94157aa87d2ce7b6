//! The library's laws: general properties of the commit protocol, the
//! typed tables and the collector, proved once over the same
//! specifications the executable functions are verified against.

use vstd::prelude::*;

use crate::bytes::spec_addr_key;
use crate::bytes::spec_u64_be;
use crate::bytes::lemma_u64_be_roundtrip;
use crate::bytes::zeros;
use crate::hashing::keccak_of;
use crate::account::AccountV;
use crate::account::ChangeV;
use crate::account::dec_account;
use crate::account::enc_account;
use crate::account::lemma_account_roundtrip;
use crate::account::spec_account_wf;
use crate::account::spec_zero_account;
use crate::storage::CommitView;
use crate::storage::spec_base_account;
use crate::storage::apply_change;
use crate::storage::apply_changes;
use crate::storage::apply_storage_writes;
use crate::storage::spec_bump;
use crate::storage::spec_count_of;
use crate::storage::spec_drop;
use crate::trie::spec_empty_root;
use crate::trie::trie_reads;
use crate::trie::trie_root_of;

verus! {

/// Round trip: writing a row into a table and reading the same key back
/// yields the written value, for every table state, key and value. The
/// typed accessors' contracts say that `set` makes the table this
/// insertion and `get` returns the row under the key.
pub proof fn lemma_set_get_roundtrip(t: Map<Seq<u8>, Seq<u8>>, key: Seq<u8>, value: Seq<u8>)
    ensures
        t.insert(key, value).contains_key(key),
        t.insert(key, value)[key] == value,
{
}

/// Zero-slot invariant, first half: writing the zero word to an index the
/// storage trie does not hold leaves the contents, and therefore the
/// storage root, unchanged.
pub proof fn lemma_zero_write_absent(m: Map<Seq<u8>, Seq<u8>>, idx: Seq<u8>)
    requires
        !m.contains_key(idx),
    ensures
        apply_storage_writes(m, seq![(idx, zeros(32))]) == m,
        trie_root_of(apply_storage_writes(m, seq![(idx, zeros(32))])) == trie_root_of(m),
{
    let w = seq![(idx, zeros(32))];
    assert(w.len() == 1 && w.last() == (idx, zeros(32)));
    assert(w.drop_last() =~= Seq::<(Seq<u8>, Seq<u8>)>::empty());
    assert(apply_storage_writes(m, w.drop_last()) == m);
    assert(m.remove(idx) =~= m);
}

/// Zero-slot invariant, second half: writing a word to a previously
/// absent index and later writing the zero word there returns the
/// contents, and therefore the storage root, to the value before the
/// first write.
pub proof fn lemma_zero_write_round(m: Map<Seq<u8>, Seq<u8>>, idx: Seq<u8>, v: Seq<u8>)
    requires
        !m.contains_key(idx),
        v != zeros(32),
    ensures
        apply_storage_writes(apply_storage_writes(m, seq![(idx, v)]), seq![(idx, zeros(32))]) == m,
        trie_root_of(
            apply_storage_writes(apply_storage_writes(m, seq![(idx, v)]), seq![(idx, zeros(32))]),
        ) == trie_root_of(m),
{
    let w1 = seq![(idx, v)];
    let w0 = seq![(idx, zeros(32))];
    assert(w1.len() == 1 && w1.last() == (idx, v));
    assert(w0.len() == 1 && w0.last() == (idx, zeros(32)));
    assert(w1.drop_last() =~= Seq::<(Seq<u8>, Seq<u8>)>::empty());
    assert(w0.drop_last() =~= Seq::<(Seq<u8>, Seq<u8>)>::empty());
    assert(apply_storage_writes(m, w1.drop_last()) == m);
    assert(apply_storage_writes(m, w1) == m.insert(idx, v));
    let m1 = m.insert(idx, v);
    assert(apply_storage_writes(m1, w0.drop_last()) == m1);
    assert(apply_storage_writes(m1, w0) == m1.remove(idx));
    assert(m.insert(idx, v).remove(idx) =~= m);
}

/// A base account read back from the prior version is well-formed.
proof fn lemma_base_account_wf(acc: Map<Seq<u8>, Seq<u8>>, key: Seq<u8>)
    requires
        spec_base_account(acc, key) is Some,
    ensures
        spec_account_wf(spec_base_account(acc, key).unwrap()),
{
    if acc.contains_key(key) {
        assert(acc[key].len() == 104);
    } else {
        assert(spec_empty_root().len() == 32);
    }
}

/// Zero-slot invariant at the stored-root level: committing a delta whose
/// only storage write is the zero word at an index the account's storage
/// trie does not hold stores the account with its prior storage root
/// unchanged. The premise that the prior root is the canonical root of its
/// contents holds of every root this library itself commits.
pub proof fn lemma_zero_slot_commit(
    n: Map<Seq<u8>, Seq<u8>>,
    acc: Map<Seq<u8>, Seq<u8>>,
    gc: bool,
    cs: CommitView,
    addr: Seq<u8>,
    nonce: u64,
    balance: Seq<u8>,
    idx: Seq<u8>,
)
    requires
        addr.len() == 20,
        balance.len() == 32,
        spec_base_account(acc, spec_addr_key(addr)) is Some,
        trie_reads(n, spec_base_account(acc, spec_addr_key(addr)).unwrap().storage_root) is Some,
        !trie_reads(
            n,
            spec_base_account(acc, spec_addr_key(addr)).unwrap().storage_root,
        ).unwrap().contains_key(idx),
        spec_base_account(acc, spec_addr_key(addr)).unwrap().storage_root == trie_root_of(
            trie_reads(n, spec_base_account(acc, spec_addr_key(addr)).unwrap().storage_root).unwrap(),
        ),
    ensures
        ({
            let key = spec_addr_key(addr);
            let base = spec_base_account(acc, key).unwrap();
            let ch = ChangeV::Update {
                nonce,
                balance,
                code: Seq::<u8>::empty(),
                storage: seq![(idx, zeros(32))],
            };
            let step = apply_change(n, acc, gc, cs, addr, ch);
            &&& step is Some
            &&& step.unwrap().accounts.contains_key(key)
            &&& dec_account(step.unwrap().accounts[key]).storage_root == base.storage_root
        }),
{
    let key = spec_addr_key(addr);
    let base = spec_base_account(acc, key).unwrap();
    let sm = trie_reads(n, base.storage_root).unwrap();
    lemma_base_account_wf(acc, key);
    lemma_zero_write_absent(sm, idx);
    let acct = AccountV {
        nonce,
        balance,
        code_hash: base.code_hash,
        storage_root: trie_root_of(apply_storage_writes(sm, seq![(idx, zeros(32))])),
    };
    assert(spec_account_wf(acct));
    lemma_account_roundtrip(acct);
}

/// Zero-slot invariant, round trip, at the stored-root level: when the
/// account's storage root is the canonical root of contents obtained by
/// writing a word at a previously absent index (which is exactly what a
/// prior commit of that single write produces), committing the zero word
/// at that index stores the account with the canonical root of the
/// contents without the index: the root of never having written.
pub proof fn lemma_zero_slot_commit_round(
    n: Map<Seq<u8>, Seq<u8>>,
    acc: Map<Seq<u8>, Seq<u8>>,
    gc: bool,
    cs: CommitView,
    addr: Seq<u8>,
    nonce: u64,
    balance: Seq<u8>,
    idx: Seq<u8>,
    v: Seq<u8>,
    sm0: Map<Seq<u8>, Seq<u8>>,
)
    requires
        addr.len() == 20,
        balance.len() == 32,
        !sm0.contains_key(idx),
        // Every root the library itself produces is 32 bytes.
        trie_root_of(sm0).len() == 32,
        spec_base_account(acc, spec_addr_key(addr)) is Some,
        trie_reads(n, spec_base_account(acc, spec_addr_key(addr)).unwrap().storage_root) == Some(
            sm0.insert(idx, v),
        ),
        spec_base_account(acc, spec_addr_key(addr)).unwrap().storage_root == trie_root_of(
            sm0.insert(idx, v),
        ),
    ensures
        ({
            let key = spec_addr_key(addr);
            let ch = ChangeV::Update {
                nonce,
                balance,
                code: Seq::<u8>::empty(),
                storage: seq![(idx, zeros(32))],
            };
            let step = apply_change(n, acc, gc, cs, addr, ch);
            &&& step is Some
            &&& step.unwrap().accounts.contains_key(key)
            &&& dec_account(step.unwrap().accounts[key]).storage_root == trie_root_of(sm0)
        }),
{
    let key = spec_addr_key(addr);
    let base = spec_base_account(acc, key).unwrap();
    let sm = sm0.insert(idx, v);
    lemma_base_account_wf(acc, key);
    let w = seq![(idx, zeros(32))];
    assert(w.len() == 1 && w.last() == (idx, zeros(32)));
    assert(w.drop_last() =~= Seq::<(Seq<u8>, Seq<u8>)>::empty());
    assert(apply_storage_writes(sm, w.drop_last()) == sm);
    assert(apply_storage_writes(sm, w) == sm.remove(idx));
    assert(sm.remove(idx) =~= sm0);
    let acct = AccountV {
        nonce,
        balance,
        code_hash: base.code_hash,
        storage_root: trie_root_of(apply_storage_writes(sm, w)),
    };
    assert(spec_account_wf(acct));
    lemma_account_roundtrip(acct);
}

/// Address keys are the address bytes zero-padded, so distinct addresses
/// never collide in the account trie.
pub proof fn lemma_addr_key_injective(a: Seq<u8>, b: Seq<u8>)
    requires
        a.len() == 20,
        b.len() == 20,
        a != b,
    ensures
        spec_addr_key(a) != spec_addr_key(b),
{
    if spec_addr_key(a) == spec_addr_key(b) {
        assert(spec_addr_key(a).subrange(0, 20) =~= a);
        assert(spec_addr_key(b).subrange(0, 20) =~= b);
    }
}

/// Structural sharing: a batch that does not touch an address leaves that
/// account's row, in particular its storage root, byte-identical in the
/// resulting version; the subtree under that root is the same
/// content-addressed rows of the shared node table, not a copy.
pub proof fn lemma_untouched_account(
    n0: Map<Seq<u8>, Seq<u8>>,
    acc0: Map<Seq<u8>, Seq<u8>>,
    gc: bool,
    cs0: CommitView,
    ups: Seq<(Seq<u8>, ChangeV)>,
    a: Seq<u8>,
)
    requires
        a.len() == 20,
        forall|i: int| 0 <= i < ups.len() ==> (#[trigger] ups[i]).0.len() == 20 && ups[i].0 != a,
        cs0.accounts == acc0,
        apply_changes(n0, acc0, gc, cs0, ups) is Some,
    ensures
        ({
            let accf = apply_changes(n0, acc0, gc, cs0, ups).unwrap().accounts;
            let key = spec_addr_key(a);
            accf.contains_key(key) == acc0.contains_key(key) && (accf.contains_key(key)
                ==> accf[key] == acc0[key])
        }),
    decreases ups.len(),
{
    let key = spec_addr_key(a);
    if ups.len() > 0 {
        let prefix = ups.drop_last();
        assert(apply_changes(n0, acc0, gc, cs0, prefix) is Some);
        lemma_untouched_account(n0, acc0, gc, cs0, prefix, a);
        let cs2 = apply_changes(n0, acc0, gc, cs0, prefix).unwrap();
        let last = ups.last();
        assert(last.0 == ups[ups.len() - 1].0);
        lemma_addr_key_injective(last.0, a);
        assert(spec_addr_key(last.0) != key);
        let stepped = apply_change(n0, acc0, gc, cs2, last.0, last.1);
        match last.1 {
            ChangeV::Remove => {
                assert(stepped.unwrap().accounts == cs2.accounts.remove(spec_addr_key(last.0)));
            },
            ChangeV::Update { nonce, balance, code, storage } => {
                assert(stepped.unwrap().accounts.contains_key(key) == cs2.accounts.contains_key(
                    key,
                ));
            },
        }
    }
}

/// Idempotent code storage: storing the same code bytes twice leaves
/// exactly the one row keyed by the content hash of those bytes.
pub proof fn lemma_code_idempotent(codes: Map<Seq<u8>, Seq<u8>>, code: Seq<u8>)
    ensures
        codes.insert(keccak_of(code), code).insert(keccak_of(code), code) == codes.insert(
            keccak_of(code),
            code,
        ),
        codes.insert(keccak_of(code), code)[keccak_of(code)] == code,
{
    assert(codes.insert(keccak_of(code), code).insert(keccak_of(code), code) =~= codes.insert(
        keccak_of(code),
        code,
    ));
}

/// One garbage-collection counter step: a registration, or a purge.
pub ghost enum GcOp {
    Register,
    Purge,
}

/// The counter table after a sequence of registrations and purges of one
/// root, in order.
pub open spec fn gc_apply(m: Map<Seq<u8>, Seq<u8>>, root: Seq<u8>, ops: Seq<GcOp>) -> Map<
    Seq<u8>,
    Seq<u8>,
>
    decreases ops.len(),
{
    if ops.len() == 0 {
        m
    } else {
        let prev = gc_apply(m, root, ops.drop_last());
        match ops.last() {
            GcOp::Register => spec_bump(prev, root),
            GcOp::Purge => spec_drop(prev, root),
        }
    }
}

/// How many of the steps are registrations.
pub open spec fn gc_registrations(ops: Seq<GcOp>) -> int
    decreases ops.len(),
{
    if ops.len() == 0 {
        0
    } else {
        gc_registrations(ops.drop_last()) + (if ops.last() is Register {
            1int
        } else {
            0int
        })
    }
}

/// A sequence of steps never purges an unreferenced root and never
/// saturates the counter.
pub open spec fn gc_in_range(m: Map<Seq<u8>, Seq<u8>>, root: Seq<u8>, ops: Seq<GcOp>) -> bool
    decreases ops.len(),
{
    if ops.len() == 0 {
        true
    } else {
        let prev = gc_apply(m, root, ops.drop_last());
        gc_in_range(m, root, ops.drop_last()) && (match ops.last() {
            GcOp::Register => spec_count_of(prev, root) < u64::MAX,
            GcOp::Purge => spec_count_of(prev, root) > 0,
        })
    }
}

/// Incrementing changes exactly the root's count, by one.
pub proof fn lemma_bump_count(m: Map<Seq<u8>, Seq<u8>>, root: Seq<u8>)
    requires
        spec_count_of(m, root) < u64::MAX,
    ensures
        spec_count_of(spec_bump(m, root), root) == spec_count_of(m, root) + 1,
{
    lemma_u64_be_roundtrip((spec_count_of(m, root) + 1) as u64);
}

/// Decrementing changes exactly the root's count, by one.
pub proof fn lemma_drop_count(m: Map<Seq<u8>, Seq<u8>>, root: Seq<u8>)
    requires
        spec_count_of(m, root) > 0,
    ensures
        spec_count_of(spec_drop(m, root), root) == spec_count_of(m, root) - 1,
{
    if spec_count_of(m, root) > 1 {
        lemma_u64_be_roundtrip((spec_count_of(m, root) - 1) as u64);
    }
}

/// GC conservation: over any in-range sequence of registrations and
/// purges of one root, the net reference count is the starting count plus
/// registrations minus purges. (`purge_slot` returns the root exactly on
/// the call that brings the count to zero; that is part of its contract.)
pub proof fn lemma_gc_conservation(m: Map<Seq<u8>, Seq<u8>>, root: Seq<u8>, ops: Seq<GcOp>)
    requires
        gc_in_range(m, root, ops),
    ensures
        spec_count_of(gc_apply(m, root, ops), root) == spec_count_of(m, root) + gc_registrations(
            ops,
        ) - (ops.len() - gc_registrations(ops)),
    decreases ops.len(),
{
    if ops.len() > 0 {
        lemma_gc_conservation(m, root, ops.drop_last());
        let prev = gc_apply(m, root, ops.drop_last());
        match ops.last() {
            GcOp::Register => {
                lemma_bump_count(prev, root);
            },
            GcOp::Purge => {
                lemma_drop_count(prev, root);
            },
        }
        assert(0 <= gc_registrations(ops.drop_last()) <= ops.len() - 1) by {
            lemma_gc_registrations_bounds(ops.drop_last());
        }
    }
}

/// Registrations are between none and all of the steps.
proof fn lemma_gc_registrations_bounds(ops: Seq<GcOp>)
    ensures
        0 <= gc_registrations(ops) <= ops.len(),
    decreases ops.len(),
{
    if ops.len() > 0 {
        lemma_gc_registrations_bounds(ops.drop_last());
    }
}

/// End-to-end: committing one fresh account against the empty root gives
/// a version holding exactly that account with the empty storage root;
/// committing its removal against the result empties the trie again, so
/// the final root equals the root of an account trie that never held the
/// address.
pub proof fn lemma_commit_cycle(
    n0: Map<Seq<u8>, Seq<u8>>,
    gc: bool,
    cs0: CommitView,
    a: Seq<u8>,
    nonce: u64,
    balance: Seq<u8>,
)
    requires
        a.len() == 20,
        balance.len() == 32,
        cs0.accounts == Map::<Seq<u8>, Seq<u8>>::empty(),
    ensures
        ({
            let ch = ChangeV::Update {
                nonce,
                balance,
                code: Seq::<u8>::empty(),
                storage: Seq::<(Seq<u8>, Seq<u8>)>::empty(),
            };
            let step1 = apply_change(n0, cs0.accounts, gc, cs0, a, ch);
            &&& step1 is Some
            &&& step1.unwrap().accounts == Map::<Seq<u8>, Seq<u8>>::empty().insert(
                spec_addr_key(a),
                enc_account(
                    AccountV {
                        nonce,
                        balance,
                        code_hash: zeros(32),
                        storage_root: spec_empty_root(),
                    },
                ),
            )
            &&& ({
                let acc1 = step1.unwrap().accounts;
                let step2 = apply_change(n0, acc1, gc, step1.unwrap(), a, ChangeV::Remove);
                step2 is Some && step2.unwrap().accounts == Map::<Seq<u8>, Seq<u8>>::empty()
                    && trie_root_of(step2.unwrap().accounts) == spec_empty_root()
            })
        }),
{
    let ch = ChangeV::Update {
        nonce,
        balance,
        code: Seq::<u8>::empty(),
        storage: Seq::<(Seq<u8>, Seq<u8>)>::empty(),
    };
    let key = spec_addr_key(a);
    assert(!cs0.accounts.contains_key(key));
    assert(trie_reads(n0, spec_zero_account().storage_root) == Some(
        Map::<Seq<u8>, Seq<u8>>::empty(),
    ));
    assert(apply_storage_writes(
        Map::<Seq<u8>, Seq<u8>>::empty(),
        Seq::<(Seq<u8>, Seq<u8>)>::empty(),
    ) == Map::<Seq<u8>, Seq<u8>>::empty());
    let emp = Map::<Seq<u8>, Seq<u8>>::empty();
    assert(emp.dom() =~= Set::<Seq<u8>>::empty());
    assert(trie_root_of(emp) == spec_empty_root());
    let step1 = apply_change(n0, cs0.accounts, gc, cs0, a, ch);
    assert(step1 is Some);
    let acc1 = step1.unwrap().accounts;
    let step2 = apply_change(n0, acc1, gc, step1.unwrap(), a, ChangeV::Remove);
    assert(step2.unwrap().accounts =~= Map::<Seq<u8>, Seq<u8>>::empty());
}

} // verus!

