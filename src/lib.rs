use vstd::prelude::*;

pub mod board;
pub mod density;
pub mod laws;
pub mod monte_carlo;
pub mod simulation;

use crate::density::CELLS;

verus! {

/// Whether bit `i` of `v` is set.
pub open spec fn bit_set(v: u128, i: u128) -> bool {
    (v >> i) & 1 == 1
}

/// A set of cell indices, one bit per cell of a `u128`.
#[derive(Copy, Clone, PartialEq, Eq, Structural)]
pub struct Bitboard(u128);

impl View for Bitboard {
    type V = Set<int>;

    closed spec fn view(&self) -> Set<int> {
        Set::new(|i: int| 0 <= i < 128 && bit_set(self.0, i as u128))
    }
}

proof fn lemma_bit_and(a: u128, b: u128, i: u128)
    by (bit_vector)
    requires
        i < 128,
    ensures
        bit_set(a & b, i) == (bit_set(a, i) && bit_set(b, i)),
{
}

proof fn lemma_bit_or(a: u128, b: u128, i: u128)
    by (bit_vector)
    requires
        i < 128,
    ensures
        bit_set(a | b, i) == (bit_set(a, i) || bit_set(b, i)),
{
}

proof fn lemma_bit_xor(a: u128, b: u128, i: u128)
    by (bit_vector)
    requires
        i < 128,
    ensures
        bit_set(a ^ b, i) == (bit_set(a, i) != bit_set(b, i)),
{
}

proof fn lemma_bit_zero(i: u128)
    by (bit_vector)
    ensures
        !bit_set(0, i),
{
}

proof fn lemma_bit_low_half(x: u128, t: u64)
    by (bit_vector)
    requires
        t < 64,
        ((x as u64) >> t) & 1 == 1,
    ensures
        bit_set(x, t as u128),
{
}

proof fn lemma_bit_high_half(x: u128, t: u64)
    by (bit_vector)
    requires
        t < 64,
        (((x >> 64) as u64) >> t) & 1 == 1,
    ensures
        bit_set(x, (t + 64) as u128),
{
}

/// Clearing the lowest bit when it lies in the low half.
proof fn lemma_clear_low_half(x: u128, t: u64, j: u128)
    by (bit_vector)
    requires
        t < 64,
        j < 128,
        ((x as u64) >> t) & 1 == 1,
        (x as u64) << vstd::prelude::sub(64, t) == 0,
    ensures
        x != 0,
        bit_set(x & vstd::prelude::sub(x, 1), j) == (bit_set(x, j) && j != t as u128),
        j < t as u128 ==> !bit_set(x, j),
{
}

/// Clearing the lowest bit when the low half is empty.
proof fn lemma_clear_high_half(x: u128, t: u64, j: u128)
    by (bit_vector)
    requires
        t < 64,
        j < 128,
        x as u64 == 0,
        (((x >> 64) as u64) >> t) & 1 == 1,
        ((x >> 64) as u64) << vstd::prelude::sub(64, t) == 0,
    ensures
        x != 0,
        bit_set(x & vstd::prelude::sub(x, 1), j) == (bit_set(x, j) && j != (t + 64) as u128),
        j < (t + 64) as u128 ==> !bit_set(x, j),
{
}

proof fn lemma_halves_zero(x: u128)
    by (bit_vector)
    requires
        x as u64 == 0,
        (x >> 64) as u64 == 0,
    ensures
        x == 0,
{
}

proof fn lemma_single_bit(i: u128, j: u128)
    by (bit_vector)
    requires
        i < 128,
        j < 128,
    ensures
        bit_set(1u128 << i, j) == (i == j),
{
}

proof fn lemma_clear_bit(x: u128, i: u128, j: u128)
    by (bit_vector)
    requires
        i < 128,
        j < 128,
    ensures
        bit_set(x & !(1u128 << i), j) == (bit_set(x, j) && i != j),
{
}

proof fn lemma_bit_shr(x: u128, k: u128, j: u128)
    by (bit_vector)
    requires
        k < 128,
        j < 128,
    ensures
        bit_set(x >> k, j) == (j + k < 128 && bit_set(x, (j + k) as u128)),
{
}

impl Bitboard {
    /// The set with no cells.
    pub fn empty() -> (r: Bitboard)
        ensures
            r@ == Set::<int>::empty(),
            r == Bitboard::empty_spec(),
    {
        proof {
            Bitboard::lemma_empty();
        }
        Bitboard(0)
    }

    /// The set with no cells, in specifications.
    pub closed spec fn empty_spec() -> Bitboard {
        Bitboard(0)
    }

    /// Every member is a cell index below 128.
    pub proof fn lemma_view_bounded(self)
        ensures
            forall|i: int| #[trigger] self@.contains(i) ==> 0 <= i < 128,
            self@.subset_of(Set::new(|i: int| 0 <= i < 128)),
            self@.finite(),
            self@.len() <= 128,
    {
        let range = Set::new(|i: int| 0 <= i < 128);
        assert(range =~= vstd::set_lib::set_int_range(0, 128));
        vstd::set_lib::lemma_int_range(0, 128);
        vstd::set_lib::lemma_len_subset(self@, range);
    }

    /// The empty constant holds no cell.
    pub proof fn lemma_empty()
        ensures
            Bitboard::empty_spec()@ == Set::<int>::empty(),
    {
        assert forall|i: int| !(#[trigger] Bitboard::empty_spec()@.contains(i)) by {
            if 0 <= i < 128 {
                lemma_bit_zero(i as u128);
            }
        }
        assert(Bitboard::empty_spec()@ =~= Set::<int>::empty());
    }

    /// Two bitboards are equal exactly when they hold the same cells.
    pub proof fn lemma_view_injective(a: Bitboard, b: Bitboard)
        ensures
            (a@ == b@) == (a == b),
    {
        if a != b {
            let (u, v) = (a.0, b.0);
            let x = u ^ v;
            assert(x != 0) by (bit_vector)
                requires
                    u != v,
                    x == u ^ v,
            ;
            let lo = x as u64;
            let hi = (x >> 64) as u64;
            vstd::std_specs::bits::axiom_u64_trailing_zeros(lo);
            vstd::std_specs::bits::axiom_u64_trailing_zeros(hi);
            let i: u128 = if lo != 0 {
                let t = lo.trailing_zeros() as u64;
                lemma_bit_low_half(x, t);
                t as u128
            } else {
                if hi == 0 {
                    lemma_halves_zero(x);
                }
                let t = hi.trailing_zeros() as u64;
                lemma_bit_high_half(x, t);
                (t + 64) as u128
            };
            lemma_bit_xor(a.0, b.0, i);
            assert(a@.contains(i as int) != b@.contains(i as int));
        }
    }

    /// Removes the lowest cell of the set and returns it, or returns `None`
    /// when the set is empty.
    pub fn pop_lsb(&mut self) -> (r: Option<usize>)
        ensures
            r is None <==> old(self)@.is_empty(),
            r is None ==> *final(self) == *old(self),
            r matches Some(i) ==> {
                &&& i < 128
                &&& old(self)@.contains(i as int)
                &&& forall|j: int| #[trigger] old(self)@.contains(j) ==> i <= j
                &&& final(self)@ == old(self)@.remove(i as int)
            },
    {
        let x = self.0;
        let lo = #[verifier::truncate] (x as u64);
        proof {
            vstd::std_specs::bits::axiom_u64_trailing_zeros(lo);
        }
        if lo != 0 {
            let t = lo.trailing_zeros() as u64;
            proof {
                lemma_clear_low_half(x, t, 0);
            }
            self.0 = x & (x - 1);
            proof {
                assert forall|j: int| 0 <= j < 128 implies #[trigger] bit_set(self.0, j as u128) == (
                bit_set(x, j as u128) && j != t) && (j < t ==> !bit_set(x, j as u128)) by {
                    lemma_clear_low_half(x, t, j as u128);
                }
                lemma_bit_low_half(x, t);
                assert(final(self)@ =~= old(self)@.remove(t as int));
            }
            return Some(t as usize);
        }
        let hi = #[verifier::truncate] ((x >> 64) as u64);
        proof {
            vstd::std_specs::bits::axiom_u64_trailing_zeros(hi);
        }
        if hi != 0 {
            let t = hi.trailing_zeros() as u64;
            proof {
                lemma_clear_high_half(x, t, 0);
            }
            self.0 = x & (x - 1);
            proof {
                assert forall|j: int| 0 <= j < 128 implies #[trigger] bit_set(self.0, j as u128) == (
                bit_set(x, j as u128) && j != t + 64) && (j < t + 64 ==> !bit_set(x, j as u128)) by {
                    lemma_clear_high_half(x, t, j as u128);
                }
                lemma_bit_high_half(x, t);
                assert(final(self)@ =~= old(self)@.remove(t + 64));
            }
            return Some((t + 64) as usize);
        }
        proof {
            lemma_halves_zero(x);
            Bitboard::lemma_empty();
        }
        None
    }

    /// Whether cell `index` is in the set.
    pub fn get(&self, index: usize) -> (r: bool)
        requires
            index < 128,
        ensures
            r == self@.contains(index as int),
    {
        let i = index as u128;
        (self.0 >> i) & 1 == 1
    }

    /// Puts cell `index` into the set when `value` holds, and takes it out otherwise.
    pub fn set(&mut self, index: usize, value: bool)
        requires
            index < 128,
        ensures
            final(self)@ == if value {
                old(self)@.insert(index as int)
            } else {
                old(self)@.remove(index as int)
            },
    {
        let x = self.0;
        let one: u128 = 1;
        if value {
            self.0 = x | (one << index);
            proof {
                assert forall|j: int| 0 <= j < 128 implies #[trigger] bit_set(self.0, j as u128) == (
                bit_set(x, j as u128) || j == index) by {
                    lemma_bit_or(x, 1u128 << index, j as u128);
                    lemma_single_bit(index as u128, j as u128);
                }
                assert(final(self)@ =~= old(self)@.insert(index as int));
            }
        } else {
            self.0 = x & !(one << index);
            proof {
                assert forall|j: int| 0 <= j < 128 implies #[trigger] bit_set(self.0, j as u128) == (
                bit_set(x, j as u128) && j != index) by {
                    lemma_clear_bit(x, index as u128, j as u128);
                }
                assert(final(self)@ =~= old(self)@.remove(index as int));
            }
        }
    }

    /// Number of cells in the set.
    pub fn count_ones(&self) -> (r: u32)
        ensures
            r == self@.len(),
    {
        let mut rest = *self;
        let mut n: u32 = 0;
        proof {
            self.lemma_view_bounded();
        }
        while rest.0 != 0
            invariant
                rest@.subset_of(self@),
                n + rest@.len() == self@.len(),
                n <= 128,
                self@.finite(),
                self@.len() <= 128,
            decreases rest@.len(),
        {
            proof {
                rest.lemma_view_bounded();
                Bitboard::lemma_empty();
                Bitboard::lemma_view_injective(rest, Bitboard::empty_spec());
            }
            let popped = rest.pop_lsb();
            assert(popped is Some);
            n = n + 1;
        }
        proof {
            Bitboard::lemma_empty();
            Bitboard::lemma_view_injective(rest, Bitboard::empty_spec());
        }
        n
    }
}

/// Walks the cells of a board in index order, telling for each whether it is
/// in a set.
pub struct BitboardIterator {
    pub bitboard: Bitboard,
    pub index: usize,
}

impl Bitboard {
    /// A walk over the cells of the board, from the first.
    pub fn iter(&self) -> (r: BitboardIterator)
        ensures
            r.bitboard == *self,
            r.index == 0,
    {
        BitboardIterator { bitboard: *self, index: 0 }
    }
}

impl BitboardIterator {
    /// Whether the next cell is in the set, or `None` past the last cell.
    pub fn next(&mut self) -> (r: Option<bool>)
        ensures
            old(self).index >= CELLS ==> r is None && *final(self) == *old(self),
            old(self).index < CELLS ==> {
                &&& r == Some(old(self).bitboard@.contains(old(self).index as int))
                &&& final(self).index == old(self).index + 1
                &&& final(self).bitboard == old(self).bitboard
            },
    {
        if self.index >= CELLS {
            return None;
        }
        let result = self.bitboard.get(self.index);
        self.index = self.index + 1;
        Some(result)
    }
}

impl vstd::std_specs::ops::BitAndSpecImpl<Bitboard> for Bitboard {
    open spec fn obeys_bitand_spec() -> bool {
        true
    }

    open spec fn bitand_req(self, rhs: Bitboard) -> bool {
        true
    }

    closed spec fn bitand_spec(self, rhs: Bitboard) -> Bitboard {
        Bitboard(self.0 & rhs.0)
    }
}

impl core::ops::BitAnd<Bitboard> for Bitboard {
    type Output = Bitboard;

    fn bitand(self, rhs: Bitboard) -> (r: Bitboard)
        ensures
            r@ == self@.intersect(rhs@),
    {
        let r = Bitboard(self.0 & rhs.0);
        proof {
            assert forall|j: int| 0 <= j < 128 implies #[trigger] bit_set(r.0, j as u128) == (
            bit_set(self.0, j as u128) && bit_set(rhs.0, j as u128)) by {
                lemma_bit_and(self.0, rhs.0, j as u128);
            }
            assert(r@ =~= self@.intersect(rhs@));
        }
        r
    }
}

impl vstd::std_specs::ops::BitOrSpecImpl<Bitboard> for Bitboard {
    open spec fn obeys_bitor_spec() -> bool {
        true
    }

    open spec fn bitor_req(self, rhs: Bitboard) -> bool {
        true
    }

    closed spec fn bitor_spec(self, rhs: Bitboard) -> Bitboard {
        Bitboard(self.0 | rhs.0)
    }
}

impl core::ops::BitOr<Bitboard> for Bitboard {
    type Output = Bitboard;

    fn bitor(self, rhs: Bitboard) -> (r: Bitboard)
        ensures
            r@ == self@.union(rhs@),
    {
        let r = Bitboard(self.0 | rhs.0);
        proof {
            assert forall|j: int| 0 <= j < 128 implies #[trigger] bit_set(r.0, j as u128) == (
            bit_set(self.0, j as u128) || bit_set(rhs.0, j as u128)) by {
                lemma_bit_or(self.0, rhs.0, j as u128);
            }
            assert(r@ =~= self@.union(rhs@));
        }
        r
    }
}

impl vstd::std_specs::ops::BitXorSpecImpl<Bitboard> for Bitboard {
    open spec fn obeys_bitxor_spec() -> bool {
        true
    }

    open spec fn bitxor_req(self, rhs: Bitboard) -> bool {
        true
    }

    closed spec fn bitxor_spec(self, rhs: Bitboard) -> Bitboard {
        Bitboard(self.0 ^ rhs.0)
    }
}

impl core::ops::BitXor<Bitboard> for Bitboard {
    type Output = Bitboard;

    fn bitxor(self, rhs: Bitboard) -> (r: Bitboard)
        ensures
            r@ == self@.difference(rhs@).union(rhs@.difference(self@)),
    {
        let r = Bitboard(self.0 ^ rhs.0);
        proof {
            assert forall|j: int| 0 <= j < 128 implies #[trigger] bit_set(r.0, j as u128) == (
            bit_set(self.0, j as u128) != bit_set(rhs.0, j as u128)) by {
                lemma_bit_xor(self.0, rhs.0, j as u128);
            }
            assert(r@ =~= self@.difference(rhs@).union(rhs@.difference(self@)));
        }
        r
    }
}

impl vstd::std_specs::ops::ShrSpecImpl<usize> for Bitboard {
    open spec fn obeys_shr_spec() -> bool {
        true
    }

    open spec fn shr_req(self, rhs: usize) -> bool {
        rhs < 128
    }

    closed spec fn shr_spec(self, rhs: usize) -> Bitboard {
        Bitboard(self.0 >> rhs as u128)
    }
}

impl core::ops::Shr<usize> for Bitboard {
    type Output = Bitboard;

    /// Moves every cell `rhs` places down; cells below `rhs` drop out.
    fn shr(self, rhs: usize) -> (r: Bitboard)
        ensures
            r@ == Set::new(|i: int| 0 <= i < 128 && self@.contains(i + rhs)),
    {
        let k = rhs as u128;
        let r = Bitboard(self.0 >> k);
        proof {
            assert forall|j: int| 0 <= j < 128 implies #[trigger] bit_set(r.0, j as u128) == (j + k
                < 128 && bit_set(self.0, (j + k) as u128)) by {
                lemma_bit_shr(self.0, k, j as u128);
            }
            assert(r@ =~= Set::new(|i: int| 0 <= i < 128 && self@.contains(i + rhs)));
        }
        r
    }
}

impl core::ops::BitAndAssign<Bitboard> for Bitboard {
    fn bitand_assign(&mut self, rhs: Bitboard)
        ensures
            final(self)@ == old(self)@.intersect(rhs@),
    {
        *self = *self & rhs;
    }
}

impl core::ops::BitOrAssign<Bitboard> for Bitboard {
    fn bitor_assign(&mut self, rhs: Bitboard)
        ensures
            final(self)@ == old(self)@.union(rhs@),
    {
        *self = *self | rhs;
    }
}

impl core::ops::BitXorAssign<Bitboard> for Bitboard {
    fn bitxor_assign(&mut self, rhs: Bitboard)
        ensures
            final(self)@ == old(self)@.difference(rhs@).union(rhs@.difference(old(self)@)),
    {
        *self = *self ^ rhs;
    }
}

} // verus!
