//! Fixed-width byte values: 256-bit words (hashes, balances, storage words)
//! and 160-bit account addresses, with the integer codecs the tables use.

use vstd::prelude::*;

verus! {

/// A 256-bit word: a trie root, a content hash, a balance or a storage word.
/// Always exactly 32 bytes.
#[derive(Debug, PartialEq, Eq)]
pub struct Hash256 {
    pub bytes: Vec<u8>,
}

impl View for Hash256 {
    type V = Seq<u8>;

    open spec fn view(&self) -> Seq<u8> {
        self.bytes@
    }
}

impl Hash256 {
    /// Exactly 32 bytes.
    pub open spec fn wf(&self) -> bool {
        self.bytes@.len() == 32
    }

    /// The all-zero word.
    pub fn zero() -> (r: Hash256)
        ensures
            r.wf(),
            r@ == zeros(32),
    {
        let mut b: Vec<u8> = Vec::new();
        let mut i: usize = 0;
        while i < 32
            invariant
                i <= 32,
                b@.len() == i,
                b@ == zeros(i as nat),
            decreases 32 - i,
        {
            b.push(0u8);
            proof {
                assert(b@ =~= zeros((i + 1) as nat));
            }
            i = i + 1;
        }
        Hash256 { bytes: b }
    }

    /// Wraps 32 bytes as a word.
    pub fn from_bytes(bytes: Vec<u8>) -> (r: Hash256)
        requires
            bytes@.len() == 32,
        ensures
            r.wf(),
            r@ == bytes@,
    {
        Hash256 { bytes }
    }

    /// A copy of this word.
    pub fn dup(&self) -> (r: Hash256)
        ensures
            r@ == self@,
            r.wf() == self.wf(),
    {
        Hash256 { bytes: clone_bytes(&self.bytes) }
    }

    /// Byte-for-byte equality.
    pub fn same(&self, other: &Hash256) -> (r: bool)
        ensures
            r == (self@ == other@),
    {
        bytes_eq(&self.bytes, &other.bytes)
    }

    /// Whether every byte is zero.
    pub fn is_zero(&self) -> (r: bool)
        ensures
            r == (self@ == zeros(self@.len())),
    {
        let mut i: usize = 0;
        let n = self.bytes.len();
        while i < n
            invariant
                i <= n,
                n == self@.len(),
                forall|j: int| 0 <= j < i ==> self@[j] == 0u8,
            decreases n - i,
        {
            if self.bytes[i] != 0u8 {
                proof {
                    assert(self@[i as int] != 0u8);
                    assert(self@ != zeros(self@.len()));
                }
                return false;
            }
            i = i + 1;
        }
        proof {
            assert(self@ =~= zeros(self@.len()));
        }
        true
    }
}

/// A 160-bit account address. Always exactly 20 bytes.
#[derive(Debug, PartialEq, Eq)]
pub struct Address {
    pub bytes: Vec<u8>,
}

impl View for Address {
    type V = Seq<u8>;

    open spec fn view(&self) -> Seq<u8> {
        self.bytes@
    }
}

impl Address {
    /// Exactly 20 bytes.
    pub open spec fn wf(&self) -> bool {
        self.bytes@.len() == 20
    }

    /// Wraps 20 bytes as an address.
    pub fn from_bytes(bytes: Vec<u8>) -> (r: Address)
        requires
            bytes@.len() == 20,
        ensures
            r.wf(),
            r@ == bytes@,
    {
        Address { bytes }
    }
}

/// A sequence of `n` zero bytes.
pub open spec fn zeros(n: nat) -> Seq<u8> {
    Seq::new(n, |i: int| 0u8)
}

/// The trie key of an address: the 20 address bytes padded with 12 zero
/// bytes to the trie's fixed 32-byte key width. Injective on addresses.
pub open spec fn spec_addr_key(a: Seq<u8>) -> Seq<u8> {
    a + zeros(12)
}

/// Pads an address to its 32-byte trie key.
pub fn addr_key(a: &Address) -> (r: Vec<u8>)
    requires
        a.wf(),
    ensures
        r@ == spec_addr_key(a@),
        r@.len() == 32,
{
    let mut out = clone_bytes(&a.bytes);
    let mut i: usize = 0;
    while i < 12
        invariant
            i <= 12,
            out@ == a@ + zeros(i as nat),
        decreases 12 - i,
    {
        out.push(0u8);
        proof {
            assert(out@ =~= a@ + zeros((i + 1) as nat));
        }
        i = i + 1;
    }
    out
}

/// Byte-for-byte equality of two byte vectors.
pub fn bytes_eq(a: &Vec<u8>, b: &Vec<u8>) -> (r: bool)
    ensures
        r == (a@ == b@),
{
    if a.len() != b.len() {
        proof {
            assert(a@ != b@);
        }
        return false;
    }
    let n = a.len();
    let mut i: usize = 0;
    while i < n
        invariant
            i <= n,
            n == a@.len() == b@.len(),
            forall|j: int| 0 <= j < i ==> a@[j] == b@[j],
        decreases n - i,
    {
        if a[i] != b[i] {
            proof {
                assert(a@[i as int] != b@[i as int]);
            }
            return false;
        }
        i = i + 1;
    }
    proof {
        assert(a@ =~= b@);
    }
    true
}

/// A copy of a byte vector.
pub fn clone_bytes(a: &Vec<u8>) -> (r: Vec<u8>)
    ensures
        r@ == a@,
{
    let mut out: Vec<u8> = Vec::new();
    let mut i: usize = 0;
    let n = a.len();
    while i < n
        invariant
            i <= n,
            n == a@.len(),
            out@ == a@.take(i as int),
        decreases n - i,
    {
        out.push(a[i]);
        proof {
            assert(out@ =~= a@.take((i + 1) as int));
        }
        i = i + 1;
    }
    proof {
        assert(a@.take(n as int) =~= a@);
    }
    out
}

/// Copies the byte range `[from, to)` out of a vector.
pub fn sub_bytes(a: &Vec<u8>, from: usize, to: usize) -> (r: Vec<u8>)
    requires
        from <= to <= a@.len(),
    ensures
        r@ == a@.subrange(from as int, to as int),
{
    let mut out: Vec<u8> = Vec::new();
    let mut i: usize = from;
    while i < to
        invariant
            from <= i <= to <= a@.len(),
            out@ == a@.subrange(from as int, i as int),
        decreases to - i,
    {
        out.push(a[i]);
        proof {
            assert(out@ =~= a@.subrange(from as int, (i + 1) as int));
        }
        i = i + 1;
    }
    out
}

/// Appends all bytes of `a` to `out`.
pub fn push_bytes(out: &mut Vec<u8>, a: &Vec<u8>)
    ensures
        final(out)@ == old(out)@ + a@,
{
    let ghost pre = out@;
    let mut i: usize = 0;
    let n = a.len();
    while i < n
        invariant
            i <= n,
            n == a@.len(),
            out@ == pre + a@.take(i as int),
        decreases n - i,
    {
        out.push(a[i]);
        proof {
            assert(out@ =~= pre + a@.take((i + 1) as int));
        }
        i = i + 1;
    }
    proof {
        assert(pre + a@.take(n as int) =~= pre + a@);
    }
}

/// The eight big-endian bytes of a 64-bit integer.
pub open spec fn spec_u64_be(x: u64) -> Seq<u8> {
    seq![
        (x >> 56) as u8,
        (x >> 48) as u8,
        (x >> 40) as u8,
        (x >> 32) as u8,
        (x >> 24) as u8,
        (x >> 16) as u8,
        (x >> 8) as u8,
        x as u8,
    ]
}

/// The 64-bit integer read from eight big-endian bytes.
pub open spec fn spec_u64_of_be(b: Seq<u8>) -> u64 {
    (((b[0] as u64) << 56) | ((b[1] as u64) << 48) | ((b[2] as u64) << 40) | ((b[3] as u64) << 32)
        | ((b[4] as u64) << 24) | ((b[5] as u64) << 16) | ((b[6] as u64) << 8) | (b[7] as u64)) as u64
}

/// Reading back the eight big-endian bytes of `x` yields `x`.
pub proof fn lemma_u64_be_roundtrip(x: u64)
    ensures
        spec_u64_of_be(spec_u64_be(x)) == x,
{
    assert((((((x >> 56) as u8) as u64) << 56) | ((((x >> 48) as u8) as u64) << 48) | ((((x
        >> 40) as u8) as u64) << 40) | ((((x >> 32) as u8) as u64) << 32) | ((((x >> 24) as u8)
        as u64) << 24) | ((((x >> 16) as u8) as u64) << 16) | ((((x >> 8) as u8) as u64) << 8) | ((
    x as u8) as u64)) as u64 == x) by (bit_vector);
}

/// Encodes a 64-bit integer as eight big-endian bytes.
pub fn u64_to_be(x: u64) -> (r: Vec<u8>)
    ensures
        r@ == spec_u64_be(x),
        r@.len() == 8,
{
    let mut out: Vec<u8> = Vec::new();
    out.push((x >> 56) as u8);
    out.push((x >> 48) as u8);
    out.push((x >> 40) as u8);
    out.push((x >> 32) as u8);
    out.push((x >> 24) as u8);
    out.push((x >> 16) as u8);
    out.push((x >> 8) as u8);
    out.push(x as u8);
    proof {
        assert(out@ =~= spec_u64_be(x));
    }
    out
}

/// Decodes eight big-endian bytes into a 64-bit integer.
pub fn u64_from_be(b: &Vec<u8>) -> (r: u64)
    requires
        b@.len() == 8,
    ensures
        r == spec_u64_of_be(b@),
{
    ((b[0] as u64) << 56u64) | ((b[1] as u64) << 48u64) | ((b[2] as u64) << 40u64) | ((b[3] as u64)
        << 32u64) | ((b[4] as u64) << 24u64) | ((b[5] as u64) << 16u64) | ((b[6] as u64) << 8u64)
        | (b[7] as u64)
}

} // verus!
