use crate::vec_map::ViewEq;
use vstd::prelude::*;

verus! {

/// A 160-bit account address: 20 bytes, most significant first.
#[derive(Clone, Copy, Debug, PartialEq, Eq, Hash)]
pub struct Address(pub [u8; 20]);

/// A 256-bit word of storage: 32 bytes, most significant first.
#[derive(Clone, Copy, Debug, PartialEq, Eq, Hash)]
pub struct H256(pub [u8; 32]);

/// An unsigned 256-bit integer, held as its 32 big-endian bytes.
#[derive(Clone, Copy, Debug, PartialEq, Eq, Hash)]
pub struct U256 {
    be_bytes: [u8; 32],
}

/// The number that a run of bytes spells, most significant byte first.
pub open spec fn be_value(bytes: Seq<u8>) -> nat
    decreases bytes.len(),
{
    if bytes.len() == 0 {
        0
    } else {
        be_value(bytes.drop_last()) * 256 + bytes.last() as nat
    }
}

/// A run of `len` zero bytes.
pub open spec fn zero_bytes(len: nat) -> Seq<u8> {
    Seq::new(len, |i: int| 0u8)
}

/// An address widened to a 32-byte word: twelve zero bytes, then the address.
pub open spec fn left_padded(address: Seq<u8>) -> Seq<u8> {
    zero_bytes(12) + address
}

impl View for Address {
    type V = Seq<u8>;

    open spec fn view(&self) -> Seq<u8> {
        self.0@
    }
}

impl View for H256 {
    type V = Seq<u8>;

    open spec fn view(&self) -> Seq<u8> {
        self.0@
    }
}

impl View for U256 {
    type V = nat;

    closed spec fn view(&self) -> nat {
        be_value(self.be_bytes@)
    }
}

/// Whether two byte arrays of one length hold the same bytes.
pub fn same_bytes<const N: usize>(left: &[u8; N], right: &[u8; N]) -> (same: bool)
    ensures
        same == (left@ == right@),
{
    let mut i: usize = 0;
    while i < N
        invariant
            i <= N,
            forall|j: int| 0 <= j < i ==> left@[j] == right@[j],
        decreases N - i,
    {
        if left[i] != right[i] {
            return false;
        }
        i = i + 1;
    }
    assert(left@ =~= right@);
    true
}

/// Byte strings of one length that spell the same number are the same string.
pub proof fn lemma_be_value_injective(left: Seq<u8>, right: Seq<u8>)
    requires
        left.len() == right.len(),
        be_value(left) == be_value(right),
    ensures
        left == right,
    decreases left.len(),
{
    if left.len() > 0 {
        lemma_be_value_injective(left.drop_last(), right.drop_last());
        assert(left =~= left.drop_last().push(left.last()));
        assert(right =~= right.drop_last().push(right.last()));
    } else {
        assert(left =~= right);
    }
}

impl ViewEq for U256 {
    fn same(&self, other: &U256) -> (same: bool) {
        proof {
            if self@ == other@ {
                lemma_be_value_injective(self.be_bytes@, other.be_bytes@);
            }
        }
        same_bytes(&self.be_bytes, &other.be_bytes)
    }
}

impl ViewEq for Address {
    fn same(&self, other: &Address) -> (same: bool) {
        same_bytes(&self.0, &other.0)
    }
}

impl ViewEq for H256 {
    fn same(&self, other: &H256) -> (same: bool) {
        same_bytes(&self.0, &other.0)
    }
}

impl H256 {
    /// The word whose bytes are all zero: what a key that was never written reads as.
    pub fn zero() -> (word: H256)
        ensures
            word@ == zero_bytes(32),
    {
        let word = H256([0u8; 32]);
        assert(word@ =~= zero_bytes(32));
        word
    }
}

impl U256 {
    /// The integer that 32 big-endian bytes spell.
    pub fn from_big_endian(bytes: [u8; 32]) -> (number: U256)
        ensures
            number@ == be_value(bytes@),
    {
        U256 { be_bytes: bytes }
    }

    /// The 32 big-endian bytes of the integer.
    pub fn to_big_endian(&self) -> (bytes: [u8; 32])
        ensures
            be_value(bytes@) == self@,
    {
        self.be_bytes
    }
}

/// Widens an address to a 32-byte word by padding it with zero bytes on the left.
pub fn address_to_h256(address: &Address) -> (word: H256)
    ensures
        word@ == left_padded(address@),
{
    let mut bytes = [0u8; 32];
    let mut i: usize = 0;
    while i < 20
        invariant
            i <= 20,
            forall|j: int| 0 <= j < 12 ==> bytes@[j] == 0,
            forall|j: int| 0 <= j < i ==> bytes@[12 + j] == address@[j],
        decreases 20 - i,
    {
        bytes[12 + i] = address.0[i];
        i = i + 1;
    }
    assert(bytes@ =~= left_padded(address@));
    H256(bytes)
}

/// Reads a 32-byte word as an unsigned integer, most significant byte first.
pub fn h256_to_u256(word: H256) -> (number: U256)
    ensures
        number@ == be_value(word@),
{
    U256::from_big_endian(word.0)
}

} // verus!
