//! A set of letter codes held as the bits of a `u32`.
use vstd::prelude::*;

verus! {

/// Whether bit `c` of `bits` is set, for a code below 32.
pub open spec fn bit_set(bits: u32, c: u8) -> bool {
    c < 32 && (bits >> (c as u32)) & 1u32 == 1u32
}

/// The codes whose bits are set in `bits`.
pub open spec fn codes_of_bits(bits: u32) -> Set<u8> {
    Set::new(|c: u8| bit_set(bits, c))
}

#[derive(Debug, Clone, Copy, PartialEq, Eq, Structural)]
pub struct CharSet {
    pub internal: u32,
}

impl View for CharSet {
    type V = Set<u8>;

    open spec fn view(&self) -> Set<u8> {
        codes_of_bits(self.internal)
    }
}

impl CharSet {
    pub fn new(internal: u32) -> (r: CharSet)
        ensures
            r.internal == internal,
            r@ == codes_of_bits(internal),
    {
        CharSet { internal }
    }

    /// Adds the code `val` to the set.
    pub fn add(&mut self, val: u8)
        requires
            val < 32,
        ensures
            final(self)@ == old(self)@.insert(val),
    {
        let old_bits = self.internal;
        let new_bits = old_bits | (1u32 << (val as u32));
        assert(forall|j: u32|
            j < 32 ==> (((new_bits >> j) & 1u32 == 1u32) <==> ((old_bits >> j) & 1u32 == 1u32
                || j == val as u32))) by (bit_vector)
            requires
                new_bits == old_bits | (1u32 << (val as u32)),
                val < 32,
        ;
        self.internal = new_bits;
        assert(codes_of_bits(new_bits) =~= codes_of_bits(old_bits).insert(val)) by {
            assert forall|c: u8| bit_set(new_bits, c) <==> (bit_set(old_bits, c) || c == val) by {
                if c < 32 {
                    let j = c as u32;
                    assert(j < 32);
                }
            }
        }
    }

    /// The codes that are in both sets.
    pub fn and(&self, other: &Self) -> (r: Self)
        ensures
            r@ == self@.intersect(other@),
    {
        let a = self.internal;
        let b = other.internal;
        let r = a & b;
        assert(forall|j: u32|
            j < 32 ==> (((r >> j) & 1u32 == 1u32) <==> ((a >> j) & 1u32 == 1u32 && (b >> j) & 1u32
                == 1u32))) by (bit_vector)
            requires
                r == a & b,
        ;
        assert(codes_of_bits(r) =~= codes_of_bits(a).intersect(codes_of_bits(b))) by {
            assert forall|c: u8| bit_set(r, c) <==> (bit_set(a, c) && bit_set(b, c)) by {
                if c < 32 {
                    let j = c as u32;
                    assert(j < 32);
                }
            }
        }
        CharSet { internal: r }
    }

    /// Whether the code `val` is in the set.
    pub fn has(&self, val: u8) -> (r: bool)
        requires
            val < 32,
        ensures
            r == self@.contains(val),
    {
        let bits = self.internal;
        let r = (bits & (1u32 << (val as u32))) > 0;
        assert(r == ((bits >> (val as u32)) & 1u32 == 1u32)) by (bit_vector)
            requires
                r == ((bits & (1u32 << (val as u32))) > 0),
                val < 32,
        ;
        r
    }
}

impl Default for CharSet {
    fn default() -> (r: Self)
        ensures
            r@ == Set::<u8>::empty(),
    {
        let r = CharSet::new(0);
        assert(forall|j: u32| j < 32 ==> (0u32 >> j) & 1u32 != 1u32) by (bit_vector);
        assert(r@ =~= Set::<u8>::empty()) by {
            assert forall|c: u8| !bit_set(0u32, c) by {
                if c < 32 {
                    let j = c as u32;
                    assert(j < 32);
                }
            }
        }
        r
    }
}

} // verus!
