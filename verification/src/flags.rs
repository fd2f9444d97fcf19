//! The set of terminal and structural conditions recorded for one slot.

use vstd::prelude::*;

verus! {

/// Bit of the condition "replay gave up on the slot".
pub const DEAD_BIT: u8 = 0b0000_0001;

/// Bit of the condition "every shred of the slot was received".
pub const FULL_BIT: u8 = 0b0000_0010;

/// Bit of the condition "the slot was rooted".
pub const ROOTED_BIT: u8 = 0b0000_0100;

/// All bits that carry a meaning.
pub const ALL_BITS: u8 = 0b0000_0111;

/// A set of slot conditions, one bit each.
///
/// The view of a flag set is its bit pattern; only the three low bits are
/// ever set.
#[derive(Copy, Clone, Debug)]
pub struct SlotFlags {
    bits: u8,
}

impl View for SlotFlags {
    type V = u8;

    closed spec fn view(&self) -> u8 {
        self.bits
    }
}

impl SlotFlags {
    /// Every flag set holds known bits only.
    #[verifier::type_invariant]
    spec fn known_bits_only(self) -> bool {
        self.bits & !ALL_BITS == 0
    }

    /// `self` holds every flag of `other`.
    pub open spec fn spec_contains(self, other: SlotFlags) -> bool {
        self@ & other@ == other@
    }

    pub open spec fn is_dead(self) -> bool {
        self@ & DEAD_BIT == DEAD_BIT
    }

    pub open spec fn is_full(self) -> bool {
        self@ & FULL_BIT == FULL_BIT
    }

    pub open spec fn is_rooted(self) -> bool {
        self@ & ROOTED_BIT == ROOTED_BIT
    }

    /// The set without any flag.
    pub fn empty() -> (flags: SlotFlags)
        ensures
            flags@ == 0,
    {
        assert(0u8 & !ALL_BITS == 0) by (bit_vector);
        SlotFlags { bits: 0 }
    }

    /// The set that holds the dead flag alone.
    pub fn dead() -> (flags: SlotFlags)
        ensures
            flags@ == DEAD_BIT,
    {
        assert(DEAD_BIT & !ALL_BITS == 0) by (bit_vector);
        SlotFlags { bits: DEAD_BIT }
    }

    /// The set that holds the full flag alone.
    pub fn full() -> (flags: SlotFlags)
        ensures
            flags@ == FULL_BIT,
    {
        assert(FULL_BIT & !ALL_BITS == 0) by (bit_vector);
        SlotFlags { bits: FULL_BIT }
    }

    /// The set that holds the rooted flag alone.
    pub fn rooted() -> (flags: SlotFlags)
        ensures
            flags@ == ROOTED_BIT,
    {
        assert(ROOTED_BIT & !ALL_BITS == 0) by (bit_vector);
        SlotFlags { bits: ROOTED_BIT }
    }

    /// The bit pattern of the set.
    pub fn bits(&self) -> (bits: u8)
        ensures
            bits == self@,
            bits & !ALL_BITS == 0,
    {
        proof {
            use_type_invariant(self);
        }
        self.bits
    }

    /// The set with exactly the known bits of `bits`.
    pub fn from_bits_truncate(bits: u8) -> (flags: SlotFlags)
        ensures
            flags@ == bits & ALL_BITS,
    {
        assert((bits & ALL_BITS) & !ALL_BITS == 0) by (bit_vector);
        SlotFlags { bits: bits & ALL_BITS }
    }

    /// Whether every flag of `other` is set in `self`.
    pub fn contains(&self, other: SlotFlags) -> (held: bool)
        ensures
            held == self.spec_contains(other),
    {
        self.bits & other.bits == other.bits
    }

    /// Sets every flag of `other` in `self`; flags already set stay set.
    pub fn insert(&mut self, other: SlotFlags)
        ensures
            final(self)@ == old(self)@ | other@,
            final(self).spec_contains(other),
            final(self).spec_contains(*old(self)),
    {
        proof {
            use_type_invariant(&*self);
            use_type_invariant(&other);
            let a = self.bits;
            let b = other.bits;
            assert(a & !ALL_BITS == 0 && b & !ALL_BITS == 0 ==> (a | b) & !ALL_BITS == 0)
                by (bit_vector);
            lemma_union_holds_both(a, b);
        }
        self.bits = self.bits | other.bits;
    }
}

/// A union of two bit patterns holds every bit of either, and taking the
/// union with the same pattern again changes nothing.
pub proof fn lemma_union_holds_both(a: u8, b: u8)
    ensures
        (a | b) & a == a,
        (a | b) & b == b,
        (a | b) | b == a | b,
        a | b == b | a,
        a | 0 == a,
{
    assert((a | b) & a == a) by (bit_vector);
    assert((a | b) & b == b) by (bit_vector);
    assert((a | b) | b == a | b) by (bit_vector);
    assert(a | b == b | a) by (bit_vector);
    assert(a | 0 == a) by (bit_vector);
}

/// A flag that is set stays set, whatever flags are set after it.
pub proof fn lemma_flags_stay_set(bits: u8, flag: u8, later: u8)
    requires
        bits & flag == flag,
    ensures
        (bits | later) & flag == flag,
{
    assert(bits & flag == flag ==> (bits | later) & flag == flag) by (bit_vector);
}

impl Default for SlotFlags {
    fn default() -> (flags: SlotFlags)
        ensures
            flags@ == 0,
    {
        SlotFlags::empty()
    }
}

} // verus!
