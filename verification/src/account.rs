//! Accounts as the account trie stores them, and the per-account deltas a
//! commit consumes.

use vstd::prelude::*;

use crate::bytes::Address;
use crate::bytes::Hash256;
use crate::bytes::clone_bytes;
use crate::bytes::spec_u64_be;
use crate::bytes::spec_u64_of_be;
use crate::bytes::lemma_u64_be_roundtrip;
use crate::bytes::sub_bytes;
use crate::bytes::push_bytes;
use crate::bytes::u64_to_be;
use crate::bytes::u64_from_be;
use crate::bytes::zeros;
use crate::trie::spec_empty_root;
use crate::trie::empty_root;

verus! {

/// The mathematical value of an account.
pub ghost struct AccountV {
    pub nonce: u64,
    pub balance: Seq<u8>,
    pub code_hash: Seq<u8>,
    pub storage_root: Seq<u8>,
}

/// An account row: nonce, 256-bit balance, code hash, storage trie root.
pub struct Account {
    pub nonce: u64,
    pub balance: Hash256,
    pub code_hash: Hash256,
    pub storage_root: Hash256,
}

impl View for Account {
    type V = AccountV;

    open spec fn view(&self) -> AccountV {
        AccountV {
            nonce: self.nonce,
            balance: self.balance@,
            code_hash: self.code_hash@,
            storage_root: self.storage_root@,
        }
    }
}

impl Account {
    /// The three word fields are 32 bytes each.
    pub open spec fn wf(&self) -> bool {
        spec_account_wf(self@)
    }

    /// The zero-valued account: zero nonce and balance, zero code hash, and
    /// the empty storage trie.
    pub fn zero() -> (r: Account)
        ensures
            r.wf(),
            r@ == spec_zero_account(),
    {
        Account {
            nonce: 0,
            balance: Hash256::zero(),
            code_hash: Hash256::zero(),
            storage_root: empty_root(),
        }
    }
}

/// Well-formedness of an account value.
pub open spec fn spec_account_wf(a: AccountV) -> bool {
    a.balance.len() == 32 && a.code_hash.len() == 32 && a.storage_root.len() == 32
}

/// The zero-valued account.
pub open spec fn spec_zero_account() -> AccountV {
    AccountV { nonce: 0, balance: zeros(32), code_hash: zeros(32), storage_root: spec_empty_root() }
}

/// The fixed 104-byte encoding of an account: big-endian nonce, balance,
/// code hash, storage root.
pub open spec fn enc_account(a: AccountV) -> Seq<u8> {
    spec_u64_be(a.nonce) + a.balance + a.code_hash + a.storage_root
}

/// The account read back from a 104-byte row.
pub open spec fn dec_account(b: Seq<u8>) -> AccountV {
    AccountV {
        nonce: spec_u64_of_be(b.subrange(0, 8)),
        balance: b.subrange(8, 40),
        code_hash: b.subrange(40, 72),
        storage_root: b.subrange(72, 104),
    }
}

/// Decoding inverts encoding on well-formed accounts.
pub proof fn lemma_account_roundtrip(a: AccountV)
    requires
        spec_account_wf(a),
    ensures
        enc_account(a).len() == 104,
        dec_account(enc_account(a)) == a,
{
    let b = enc_account(a);
    assert(b.subrange(0, 8) =~= spec_u64_be(a.nonce));
    lemma_u64_be_roundtrip(a.nonce);
    assert(b.subrange(8, 40) =~= a.balance);
    assert(b.subrange(40, 72) =~= a.code_hash);
    assert(b.subrange(72, 104) =~= a.storage_root);
}

/// Encodes an account into its 104-byte row.
pub fn encode_account(a: &Account) -> (r: Vec<u8>)
    requires
        a.wf(),
    ensures
        r@ == enc_account(a@),
        r@.len() == 104,
{
    let mut out = u64_to_be(a.nonce);
    push_bytes(&mut out, &a.balance.bytes);
    push_bytes(&mut out, &a.code_hash.bytes);
    push_bytes(&mut out, &a.storage_root.bytes);
    proof {
        lemma_account_roundtrip(a@);
    }
    out
}

/// Decodes a 104-byte row into an account; any other length is malformed.
pub fn decode_account(b: &Vec<u8>) -> (r: Option<Account>)
    ensures
        match r {
            Some(a) => b@.len() == 104 && a@ == dec_account(b@) && a.wf(),
            None => b@.len() != 104,
        },
{
    if b.len() != 104 {
        return None;
    }
    let nonce_bytes = sub_bytes(b, 0, 8);
    let nonce = u64_from_be(&nonce_bytes);
    let balance = Hash256 { bytes: sub_bytes(b, 8, 40) };
    let code_hash = Hash256 { bytes: sub_bytes(b, 40, 72) };
    let storage_root = Hash256 { bytes: sub_bytes(b, 72, 104) };
    Some(Account { nonce, balance, code_hash, storage_root })
}

/// One address's delta in a commit batch: either the new state of the
/// account, or its removal.
pub enum AccountChange {
    /// The account's new nonce and balance, freshly supplied code (empty
    /// means unchanged), and its storage writes: a zero word deletes the
    /// index, any other word is stored.
    Update { nonce: u64, balance: Hash256, code: Vec<u8>, storage: Vec<(Hash256, Hash256)> },
    /// The account ceases to exist.
    Remove,
}

/// The mathematical value of a delta.
pub ghost enum ChangeV {
    Update { nonce: u64, balance: Seq<u8>, code: Seq<u8>, storage: Seq<(Seq<u8>, Seq<u8>)> },
    Remove,
}

impl View for AccountChange {
    type V = ChangeV;

    open spec fn view(&self) -> ChangeV {
        match self {
            AccountChange::Update { nonce, balance, code, storage } => ChangeV::Update {
                nonce: *nonce,
                balance: balance@,
                code: code@,
                storage: storage@.map_values(|p: (Hash256, Hash256)| (p.0@, p.1@)),
            },
            AccountChange::Remove => ChangeV::Remove,
        }
    }
}

/// Well-formedness of a delta: the balance and every storage index and
/// word are 32 bytes.
pub open spec fn spec_change_wf(c: ChangeV) -> bool {
    match c {
        ChangeV::Update { nonce, balance, code, storage } => balance.len() == 32 && forall|i: int|
            0 <= i < storage.len() ==> (#[trigger] storage[i]).0.len() == 32 && storage[i].1.len()
                == 32,
        ChangeV::Remove => true,
    }
}

/// A commit batch: one delta per touched address.
pub struct ChangedState {
    pub updates: Vec<(Address, AccountChange)>,
}

impl View for ChangedState {
    type V = Seq<(Seq<u8>, ChangeV)>;

    open spec fn view(&self) -> Seq<(Seq<u8>, ChangeV)> {
        self.updates@.map_values(|p: (Address, AccountChange)| (p.0@, p.1@))
    }
}

impl ChangedState {
    /// Addresses are 20 bytes, deltas are well-formed, and no address
    /// occurs twice.
    pub open spec fn wf(&self) -> bool {
        &&& forall|i: int|
            0 <= i < self@.len() ==> (#[trigger] self@[i]).0.len() == 20 && spec_change_wf(
                self@[i].1,
            )
        &&& forall|i: int, j: int| 0 <= i < j < self@.len() ==> self@[i].0 != self@[j].0
    }

    /// An empty batch.
    pub fn new() -> (r: ChangedState)
        ensures
            r.wf(),
            r@ =~= Seq::<(Seq<u8>, ChangeV)>::empty(),
    {
        ChangedState { updates: Vec::new() }
    }
}

} // verus!
