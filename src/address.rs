use vstd::prelude::*;

verus! {

/// Number of bytes in an address.
pub const ADDRESS_LEN: usize = 32;

/// The opaque 32-byte name of a storage slot; it doubles as the value of a
/// node's `prev` and `next` links.
#[derive(Clone, Copy, Debug)]
pub struct Address {
    pub bytes: [u8; 32],
}

impl Address {
    /// The address made of the given bytes.
    pub fn new(bytes: [u8; 32]) -> (r: Address)
        ensures
            r.bytes == bytes,
    {
        Address { bytes }
    }

    /// The address whose bytes are all zero.
    pub fn zero() -> (r: Address)
        ensures
            r.bytes@ == Seq::new(32, |i: int| 0u8),
    {
        let r = Address { bytes: [0u8; 32] };
        proof {
            broadcast use vstd::array::group_array_axioms;
        }
        assert(r.bytes@ =~= Seq::new(32, |i: int| 0u8));
        r
    }

    /// Byte-for-byte comparison of two addresses.
    pub fn same_as(&self, other: &Address) -> (r: bool)
        ensures
            r == (*self == *other),
    {
        proof {
            broadcast use vstd::array::group_array_axioms;
        }
        let mut i: usize = 0;
        while i < ADDRESS_LEN
            invariant
                0 <= i <= 32,
                forall|j: int| 0 <= j < i ==> self.bytes[j] == other.bytes[j],
            decreases 32 - i,
        {
            if self.bytes[i] != other.bytes[i] {
                return false;
            }
            i = i + 1;
        }
        assert(self.bytes =~= other.bytes);
        true
    }
}

impl PartialEq for Address {
    fn eq(&self, other: &Address) -> (r: bool) {
        self.same_as(other)
    }
}

impl vstd::std_specs::cmp::PartialEqSpecImpl for Address {
    open spec fn obeys_eq_spec() -> bool {
        true
    }

    open spec fn eq_spec(&self, other: &Address) -> bool {
        *self == *other
    }
}

impl Eq for Address {
}

} // verus!
