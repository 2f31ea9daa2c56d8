use vstd::prelude::*;
use vstd::set_lib::lemma_len_subset;

verus! {

/// The set of bit positions (0 to 31) that are set in `bits`.
pub open spec fn set_of_bits(bits: u32) -> Set<u8> {
    Set::new(|p: u8| p < 32 && bits & (1u32 << p) != 0)
}

/// The set of all bit positions a `BitSet32` can hold.
pub open spec fn all_positions() -> Set<u8> {
    Set::new(|p: u8| p < 32)
}

/// A set over the integers 0 to 31, stored as the bits of one `u32`.
#[derive(Debug, Clone, Copy, PartialEq, Eq, Structural)]
pub struct BitSet32(pub u32);

impl View for BitSet32 {
    type V = Set<u8>;

    open spec fn view(&self) -> Set<u8> {
        set_of_bits(self.0)
    }
}

pub proof fn lemma_all_positions_finite()
    ensures
        all_positions().finite(),
        all_positions().len() == 32,
{
    broadcast use vstd::set_lib::range_set_properties;

    assert(all_positions() =~= Set::<u8>::range(0, 32));
}

pub broadcast proof fn lemma_set_of_bits_finite(bits: u32)
    ensures
        #[trigger] set_of_bits(bits).finite(),
        set_of_bits(bits).len() <= 32,
{
    lemma_all_positions_finite();
    assert(set_of_bits(bits).subset_of(all_positions()));
    vstd::set_lib::lemma_set_subset_finite(all_positions(), set_of_bits(bits));
    lemma_len_subset(set_of_bits(bits), all_positions());
}

/// Two bit patterns that hold the same set are the same pattern.
pub proof fn lemma_set_of_bits_injective(a: u32, b: u32)
    requires
        set_of_bits(a) == set_of_bits(b),
    ensures
        a == b,
{
    if a != b {
        broadcast use vstd::std_specs::bits::axiom_u32_trailing_zeros;

        let d = a ^ b;
        assert(d != 0) by (bit_vector)
            requires
                a != b && d == a ^ b,
        ;
        let tz = vstd::std_specs::bits::u32_trailing_zeros(d);
        let p = tz as u8;
        assert((a & (1u32 << p) != 0) != (b & (1u32 << p) != 0)) by (bit_vector)
            requires
                tz < 32 && p == tz as u8 && d == a ^ b && (d >> tz) & 1u32 == 1u32,
        ;
        assert(p < 32);
        assert(set_of_bits(a).contains(p) == (a & (1u32 << p) != 0));
        assert(set_of_bits(b).contains(p) == (b & (1u32 << p) != 0));
        assert(false);
    }
}

impl BitSet32 {
    /// Creates an empty set.
    pub fn new() -> (r: Self)
        ensures
            r@ == Set::<u8>::empty(),
            r.0 == 0u32,
    {
        proof {
            assert(forall|p: u8| p < 32 ==> 0u32 & (1u32 << p) == 0) by (bit_vector);
            assert(set_of_bits(0) =~= Set::empty());
        }
        BitSet32(0)
    }

    /// Adds `pos` to the set.
    pub fn insert(&mut self, pos: u8)
        requires
            pos < 32,
        ensures
            final(self)@ == old(self)@.insert(pos),
            final(self).0 == old(self).0 | (1u32 << pos),
    {
        let prev = self.0;
        self.0 = self.0 | (1u32 << pos);
        proof {
            assert forall|p: u8| p < 32 implies ((prev | (1u32 << pos)) & (1u32 << p) != 0) == (
            prev & (1u32 << p) != 0 || p == pos) by {
                assert(((prev | (1u32 << pos)) & (1u32 << p) != 0) == (prev & (1u32 << p) != 0 || p
                    == pos)) by (bit_vector)
                    requires
                        p < 32 && pos < 32,
                ;
            }
            assert(self@ =~= old(self)@.insert(pos));
        }
    }

    /// Removes `pos` from the set.
    pub fn remove(&mut self, pos: u8)
        requires
            pos < 32,
        ensures
            final(self)@ == old(self)@.remove(pos),
            final(self).0 == old(self).0 & !(1u32 << pos),
    {
        let prev = self.0;
        self.0 = self.0 & !(1u32 << pos);
        proof {
            assert forall|p: u8| p < 32 implies ((prev & !(1u32 << pos)) & (1u32 << p) != 0) == (
            prev & (1u32 << p) != 0 && p != pos) by {
                assert(((prev & !(1u32 << pos)) & (1u32 << p) != 0) == (prev & (1u32 << p) != 0 && p
                    != pos)) by (bit_vector)
                    requires
                        p < 32 && pos < 32,
                ;
            }
            assert(self@ =~= old(self)@.remove(pos));
        }
    }

    /// Tests whether `pos` is in the set.
    pub fn contains(&self, pos: u8) -> (r: bool)
        requires
            pos < 32,
        ensures
            r == self@.contains(pos),
    {
        self.0 & (1u32 << pos) != 0
    }

    /// Empties the set.
    pub fn clear(&mut self)
        ensures
            final(self)@ == Set::<u8>::empty(),
            final(self).0 == 0u32,
    {
        self.0 = 0;
        proof {
            assert(forall|p: u8| p < 32 ==> 0u32 & (1u32 << p) == 0) by (bit_vector);
            assert(self@ =~= Set::empty());
        }
    }

    /// Tests whether the set has no elements.
    pub fn is_empty(&self) -> (r: bool)
        ensures
            r == (self@ == Set::<u8>::empty()),
    {
        proof {
            if self.0 != 0 {
                broadcast use vstd::std_specs::bits::axiom_u32_trailing_zeros;

                let bits = self.0;
                let tz = vstd::std_specs::bits::u32_trailing_zeros(bits);
                let p = tz as u8;
                assert(p < 32 && bits & (1u32 << p) != 0) by (bit_vector)
                    requires
                        tz < 32 && p == tz as u8 && (bits >> tz) & 1u32 == 1u32,
                ;
                assert(self@.contains(p));
            } else {
                assert(forall|p: u8| p < 32 ==> 0u32 & (1u32 << p) == 0) by (bit_vector);
                assert(self@ =~= Set::empty());
            }
        }
        self.0 == 0
    }

    /// Keeps only the elements that are also in `other`.
    pub fn intersect_with(&mut self, other: &BitSet32)
        ensures
            final(self)@ == old(self)@.intersect(other@),
            final(self).0 == old(self).0 & other.0,
    {
        let prev = self.0;
        let ob = other.0;
        self.0 = self.0 & other.0;
        proof {
            assert forall|p: u8| p < 32 implies ((prev & ob) & (1u32 << p) != 0) == (prev & (1u32
                << p) != 0 && ob & (1u32 << p) != 0) by {
                assert(((prev & ob) & (1u32 << p) != 0) == (prev & (1u32 << p) != 0 && ob & (1u32
                    << p) != 0)) by (bit_vector)
                    requires
                        p < 32,
                ;
            }
            assert(self@ =~= old(self)@.intersect(other@));
        }
    }

    /// The number of elements in the set.
    pub fn len(&self) -> (r: u32)
        ensures
            r == self@.len(),
            r <= 32,
    {
        proof {
            lemma_set_of_bits_finite(self.0);
        }
        let ghost full = self@;
        let mut count: u32 = 0;
        let mut p: u8 = 0;
        proof {
            assert(Set::new(|q: u8| q < 0 && full.contains(q)) =~= Set::empty());
        }
        while p < 32
            invariant
                p <= 32,
                full == self@,
                full.finite(),
                count == Set::new(|q: u8| q < p && full.contains(q)).len(),
                count <= p,
                Set::new(|q: u8| q < p && full.contains(q)).finite(),
            decreases 32 - p,
        {
            let ghost before = Set::new(|q: u8| q < p && full.contains(q));
            if self.contains(p) {
                count = count + 1;
                proof {
                    assert(Set::new(|q: u8| q < p + 1 && full.contains(q)) =~= before.insert(p));
                    assert(!before.contains(p));
                }
            } else {
                proof {
                    assert(Set::new(|q: u8| q < p + 1 && full.contains(q)) =~= before);
                }
            }
            p = p + 1;
        }
        proof {
            assert(Set::new(|q: u8| q < 32 && full.contains(q)) =~= full);
        }
        count
    }

    /// An iterator that hands out the elements in ascending order.
    pub fn iter(&self) -> (r: Iter)
        ensures
            r@ == self@,
    {
        Iter(self.0)
    }
}

/// Walks the elements of a [`BitSet32`] in ascending order; each call of
/// [`Iter::next`] removes and returns the smallest element that is left.
pub struct Iter(pub u32);

impl View for Iter {
    type V = Set<u8>;

    open spec fn view(&self) -> Set<u8> {
        set_of_bits(self.0)
    }
}

impl Iter {
    /// Removes and returns the smallest element left, or `None` when the
    /// iterator is exhausted.
    pub fn next(&mut self) -> (r: Option<u8>)
        ensures
            match r {
                None => old(self)@ == Set::<u8>::empty() && final(self)@ == old(self)@,
                Some(p) => old(self)@.contains(p) && (forall|q: u8|
                    old(self)@.contains(q) ==> p <= q) && final(self)@ == old(self)@.remove(p),
            },
    {
        let mut p: u8 = 0;
        while p < 32
            invariant
                p <= 32,
                self == old(self),
                forall|q: u8| self@.contains(q) ==> q >= p,
            decreases 32 - p,
        {
            if self.0 & (1u32 << p) != 0 {
                let prev = self.0;
                self.0 = self.0 & !(1u32 << p);
                proof {
                    assert forall|q: u8| q < 32 implies ((prev & !(1u32 << p)) & (1u32 << q) != 0)
                        == (prev & (1u32 << q) != 0 && q != p) by {
                        assert(((prev & !(1u32 << p)) & (1u32 << q) != 0) == (prev & (1u32 << q)
                            != 0 && q != p)) by (bit_vector)
                            requires
                                q < 32 && p < 32,
                        ;
                    }
                    assert(self@ =~= old(self)@.remove(p));
                }
                return Some(p);
            }
            p = p + 1;
        }
        proof {
            assert(self@ =~= Set::empty());
        }
        None
    }
}

} // verus!
