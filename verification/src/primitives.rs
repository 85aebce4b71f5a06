//! Account addresses and transaction hashes.
//!
//! Both are byte arrays that are only ever compared and copied. Two of them
//! are equal where they hold the same bytes.
use vstd::prelude::*;
use vstd::std_specs::cmp::PartialEqSpecImpl;

verus! {

/// A 20-byte account address.
#[derive(Debug, Clone, Copy, Eq)]
pub struct Address {
    pub bytes: [u8; 20],
}

impl Address {
    /// The address whose bytes are all zero. It stands in where a block names
    /// no fee-receiving account or a transaction names no destination.
    pub fn zero() -> (a: Address)
        ensures
            a == Address::spec_zero(),
    {
        Address { bytes: [0u8; 20] }
    }

    /// The all-zero address, for contracts.
    pub open spec fn spec_zero() -> Address {
        Address { bytes: vstd::array::spec_array_fill_for_copy_type::<u8, 20>(0u8) }
    }
}

impl PartialEq for Address {
    fn eq(&self, other: &Address) -> (r: bool) {
        let mut i: usize = 0;
        while i < 20
            invariant
                i <= 20,
                forall|j: int| 0 <= j < i ==> self.bytes@[j] == other.bytes@[j],
            decreases 20 - i,
        {
            if self.bytes[i] != other.bytes[i] {
                return false;
            }
            i = i + 1;
        }
        assert(self.bytes =~= other.bytes);
        true
    }
}

impl PartialEqSpecImpl for Address {
    open spec fn obeys_eq_spec() -> bool {
        true
    }

    open spec fn eq_spec(&self, other: &Address) -> bool {
        *self == *other
    }
}

/// A 32-byte transaction hash.
#[derive(Debug, Clone, Copy, Eq)]
pub struct TxHash {
    pub bytes: [u8; 32],
}

impl PartialEq for TxHash {
    fn eq(&self, other: &TxHash) -> (r: bool) {
        let mut i: usize = 0;
        while i < 32
            invariant
                i <= 32,
                forall|j: int| 0 <= j < i ==> self.bytes@[j] == other.bytes@[j],
            decreases 32 - i,
        {
            if self.bytes[i] != other.bytes[i] {
                return false;
            }
            i = i + 1;
        }
        assert(self.bytes =~= other.bytes);
        true
    }
}

impl PartialEqSpecImpl for TxHash {
    open spec fn obeys_eq_spec() -> bool {
        true
    }

    open spec fn eq_spec(&self, other: &TxHash) -> bool {
        *self == *other
    }
}

} // verus!
