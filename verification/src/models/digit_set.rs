use vstd::prelude::*;

verus! {

/// Whether bit `d` of `bits` is set.
spec fn bit_is_set(bits: u16, d: u8) -> bool {
    (bits >> d) & 1 == 1
}

/// The nine digits of a sudoku.
pub open spec fn all_digits() -> Set<u8> {
    Set::new(|d: u8| 1 <= d <= 9)
}

/// The smallest member of a non-empty set of digits.
pub open spec fn least_digit(s: Set<u8>) -> u8 {
    choose|d: u8| s.contains(d) && forall|e: u8| s.contains(e) ==> d <= e
}

/// The members of `s` that are greater than `d`.
pub open spec fn digits_above(s: Set<u8>, d: u8) -> Set<u8> {
    s.filter(|e: u8| e > d)
}

proof fn lemma_bit_cleared(bits: u16, d: u8, e: u8)
    requires
        d < 16,
        e < 16,
    ensures
        bit_is_set(bits & !(1u16 << d), e) == (bit_is_set(bits, e) && e != d),
{
    assert(((bits & !(1u16 << d)) >> e) & 1 == 1 <==> ((bits >> e) & 1 == 1 && e != d))
        by (bit_vector)
        requires
            d < 16,
            e < 16,
    ;
}

proof fn lemma_bit_added(bits: u16, d: u8, e: u8)
    requires
        d < 16,
        e < 16,
    ensures
        bit_is_set(bits | (1u16 << d), e) == (bit_is_set(bits, e) || e == d),
{
    assert(((bits | (1u16 << d)) >> e) & 1 == 1 <==> ((bits >> e) & 1 == 1 || e == d))
        by (bit_vector)
        requires
            d < 16,
            e < 16,
    ;
}

proof fn lemma_bits_cleared(bits: u16, other: u16, e: u8)
    requires
        e < 16,
    ensures
        bit_is_set(bits & !other, e) == (bit_is_set(bits, e) && !bit_is_set(other, e)),
        bits & 0xfc01 == 0 ==> (bits & !other) & 0xfc01 == 0,
{
    assert(((bits & !other) >> e) & 1 == 1 <==> ((bits >> e) & 1 == 1 && !((other >> e) & 1 == 1)))
        by (bit_vector)
        requires
            e < 16,
    ;
    assert(bits & 0xfc01 == 0 ==> (bits & !other) & 0xfc01 == 0) by (bit_vector);
}

proof fn lemma_mask_kept(bits: u16, d: u8)
    requires
        bits & 0xfc01 == 0,
        d < 16,
    ensures
        (bits & !(1u16 << d)) & 0xfc01 == 0,
        1 <= d <= 9 ==> (bits | (1u16 << d)) & 0xfc01 == 0,
{
    assert((bits & !(1u16 << d)) & 0xfc01 == 0) by (bit_vector)
        requires
            bits & 0xfc01 == 0,
            d < 16,
    ;
    assert(1 <= d <= 9 ==> (bits | (1u16 << d)) & 0xfc01 == 0) by (bit_vector)
        requires
            bits & 0xfc01 == 0,
            d < 16,
    ;
}

proof fn lemma_same_bits(a: u16, b: u16)
    requires
        a & 0xfc01 == 0,
        b & 0xfc01 == 0,
        forall|d: u8| 1 <= d <= 9 ==> bit_is_set(a, d) == bit_is_set(b, d),
    ensures
        a == b,
{
    assert(bit_is_set(a, 1) == bit_is_set(b, 1));
    assert(bit_is_set(a, 2) == bit_is_set(b, 2));
    assert(bit_is_set(a, 3) == bit_is_set(b, 3));
    assert(bit_is_set(a, 4) == bit_is_set(b, 4));
    assert(bit_is_set(a, 5) == bit_is_set(b, 5));
    assert(bit_is_set(a, 6) == bit_is_set(b, 6));
    assert(bit_is_set(a, 7) == bit_is_set(b, 7));
    assert(bit_is_set(a, 8) == bit_is_set(b, 8));
    assert(bit_is_set(a, 9) == bit_is_set(b, 9));
    assert(a == b) by (bit_vector)
        requires
            a & 0xfc01 == 0,
            b & 0xfc01 == 0,
            ((a >> 1u8) & 1 == 1) == ((b >> 1u8) & 1 == 1),
            ((a >> 2u8) & 1 == 1) == ((b >> 2u8) & 1 == 1),
            ((a >> 3u8) & 1 == 1) == ((b >> 3u8) & 1 == 1),
            ((a >> 4u8) & 1 == 1) == ((b >> 4u8) & 1 == 1),
            ((a >> 5u8) & 1 == 1) == ((b >> 5u8) & 1 == 1),
            ((a >> 6u8) & 1 == 1) == ((b >> 6u8) & 1 == 1),
            ((a >> 7u8) & 1 == 1) == ((b >> 7u8) & 1 == 1),
            ((a >> 8u8) & 1 == 1) == ((b >> 8u8) & 1 == 1),
            ((a >> 9u8) & 1 == 1) == ((b >> 9u8) & 1 == 1),
    ;
}

/// A set of sudoku digits (1 to 9), held as a bit mask: bit `d` stands for digit `d`.
///
/// Its view is the set of its digits. No other bit is ever set, so two values are
/// equal exactly when they hold the same digits.
///
/// The candidates of a cell are copied into every snapshot of a board and
/// compared in the memory of guesses. A value of this type is copied and
/// compared by its bits, both of which the verifier follows; of a hashed set
/// it takes neither the copy nor the comparison.
#[derive(Clone, Copy, Debug, PartialEq, Eq, Hash, Structural)]
pub struct DigitSet {
    bits: u16,
}

impl View for DigitSet {
    type V = Set<u8>;

    closed spec fn view(&self) -> Set<u8> {
        Set::new(|d: u8| 1 <= d <= 9 && bit_is_set(self.bits, d))
    }
}

impl DigitSet {
    #[verifier::type_invariant]
    spec fn only_digit_bits(self) -> bool {
        self.bits & 0xfc01 == 0
    }

    /// The digits of the set that are smaller than `n`.
    spec fn below(self, n: u8) -> Set<u8> {
        Set::new(|d: u8| 1 <= d < n && bit_is_set(self.bits, d))
    }

    /// Every value, whatever its bits, views as a finite set of digits between 1 and 9.
    pub proof fn lemma_view_is_digits(self)
        ensures
            self@.finite(),
            self@.subset_of(all_digits()),
            self@.len() <= 9,
    {
        self.lemma_below(10);
        assert(self.below(10) =~= self@);
    }

    proof fn lemma_below(self, n: u8)
        requires
            1 <= n <= 10,
        ensures
            self.below(n).finite(),
            self.below(n).len() <= n - 1,
        decreases n,
    {
        if n == 1 {
            assert(self.below(1) =~= Set::<u8>::empty());
        } else {
            let m = (n - 1) as u8;
            self.lemma_below(m);
            if bit_is_set(self.bits, m) {
                assert(self.below(n) =~= self.below(m).insert(m));
            } else {
                assert(self.below(n) =~= self.below(m));
            }
        }
    }

    /// The empty set.
    pub fn new() -> (set: DigitSet)
        ensures
            set@ == Set::<u8>::empty(),
    {
        proof {
            assert(0u16 & 0xfc01 == 0) by (bit_vector);
            assert forall|d: u8| !bit_is_set(0u16, d) by {
                assert(!((0u16 >> d) & 1 == 1)) by (bit_vector);
            }
        }
        let set = DigitSet { bits: 0 };
        assert(set@ =~= Set::<u8>::empty());
        set
    }

    /// The set of all nine digits.
    pub fn full() -> (set: DigitSet)
        ensures
            set@ == all_digits(),
    {
        proof {
            assert(0x03feu16 & 0xfc01 == 0) by (bit_vector);
            assert forall|d: u8| 1 <= d <= 9 implies bit_is_set(0x03feu16, d) by {
                assert(1 <= d <= 9 ==> (0x03feu16 >> d) & 1 == 1) by (bit_vector);
            }
        }
        let set = DigitSet { bits: 0x03fe };
        assert(set@ =~= all_digits());
        set
    }

    /// The set that holds `digit` alone.
    pub fn singleton(digit: u8) -> (set: DigitSet)
        requires
            1 <= digit <= 9,
        ensures
            set@ == Set::<u8>::empty().insert(digit),
    {
        let mut set = DigitSet::new();
        set.insert(digit);
        set
    }

    /// The digits of `digits` that lie between 1 and 9; what lies outside is passed over.
    pub fn from_digits(digits: &[u8]) -> (set: DigitSet)
        ensures
            forall|d: u8| set@.contains(d) <==> (1 <= d <= 9 && digits@.contains(d)),
    {
        let mut set = DigitSet::new();
        let mut i: usize = 0;
        while i < digits.len()
            invariant
                i <= digits.len(),
                forall|d: u8|
                    set@.contains(d) <==> (1 <= d <= 9 && digits@.subrange(0, i as int).contains(
                        d,
                    )),
            decreases digits.len() - i,
        {
            let digit = digits[i];
            let ghost before = digits@.subrange(0, i as int);
            let ghost after = digits@.subrange(0, i + 1);
            proof {
                assert(after =~= before.push(digit));
                assert forall|d: u8| after.contains(d) <==> (before.contains(d) || d == digit) by {
                    if before.contains(d) {
                        let k = choose|k: int| 0 <= k < before.len() && before[k] == d;
                        assert(after[k] == d);
                    }
                    if d == digit {
                        assert(after[i as int] == d);
                    }
                }
            }
            if 1 <= digit && digit <= 9 {
                set.insert(digit);
            }
            i += 1;
        }
        assert(digits@.subrange(0, i as int) =~= digits@);
        set
    }

    /// Whether `digit` is in the set.
    pub fn contains(&self, digit: u8) -> (found: bool)
        ensures
            found == self@.contains(digit),
    {
        1 <= digit && digit <= 9 && (self.bits >> digit) & 1 == 1
    }

    /// Puts `digit` into the set and says whether it was missing before.
    pub fn insert(&mut self, digit: u8) -> (added: bool)
        requires
            1 <= digit <= 9,
        ensures
            final(self)@ == old(self)@.insert(digit),
            added == !old(self)@.contains(digit),
    {
        let added = !self.contains(digit);
        let bits = self.bits | (1u16 << digit);
        proof {
            use_type_invariant(&*self);
            lemma_mask_kept(self.bits, digit);
            assert forall|e: u8| 1 <= e <= 9 implies bit_is_set(bits, e) == (bit_is_set(
                self.bits,
                e,
            ) || e == digit) by {
                lemma_bit_added(self.bits, digit, e);
            }
        }
        *self = DigitSet { bits };
        assert(self@ =~= old(self)@.insert(digit));
        added
    }

    /// Takes `digit` out of the set and says whether it was there.
    pub fn remove(&mut self, digit: u8) -> (removed: bool)
        ensures
            final(self)@ == old(self)@.remove(digit),
            removed == old(self)@.contains(digit),
    {
        if digit >= 16 {
            assert(self@ =~= old(self)@.remove(digit));
            return false;
        }
        let removed = self.contains(digit);
        let bits = self.bits & !(1u16 << digit);
        proof {
            use_type_invariant(&*self);
            lemma_mask_kept(self.bits, digit);
            assert forall|e: u8| 1 <= e <= 9 implies bit_is_set(bits, e) == (bit_is_set(
                self.bits,
                e,
            ) && e != digit) by {
                lemma_bit_cleared(self.bits, digit, e);
            }
        }
        *self = DigitSet { bits };
        assert(self@ =~= old(self)@.remove(digit));
        removed
    }

    /// Takes every digit of `other` out of the set and says whether any was
    /// there.
    pub fn remove_all(&mut self, other: &DigitSet) -> (removed: bool)
        ensures
            final(self)@ == old(self)@.difference(other@),
            removed == (final(self)@ != old(self)@),
    {
        let bits = self.bits & !other.bits;
        let removed = bits != self.bits;
        proof {
            use_type_invariant(&*self);
            lemma_bits_cleared(self.bits, other.bits, 0);
            assert forall|e: u8| 1 <= e <= 9 implies bit_is_set(bits, e) == (bit_is_set(
                self.bits,
                e,
            ) && !bit_is_set(other.bits, e)) by {
                lemma_bits_cleared(self.bits, other.bits, e);
            }
        }
        let ghost before = *self;
        *self = DigitSet { bits };
        proof {
            assert(self@ =~= before@.difference(other@));
            if self@ == before@ {
                assert forall|d: u8| 1 <= d <= 9 implies bit_is_set(self.bits, d) == bit_is_set(
                    before.bits,
                    d,
                ) by {
                    assert(self@.contains(d) == before@.contains(d));
                }
                lemma_same_bits(self.bits, before.bits);
            }
        }
        removed
    }

    /// The number of digits in the set.
    pub fn len(&self) -> (count: usize)
        ensures
            count == self@.len(),
            count <= 9,
    {
        let mut count: usize = 0;
        let mut d: u8 = 1;
        proof {
            self.lemma_below(1);
            assert(self.below(1) =~= Set::<u8>::empty());
        }
        while d <= 9
            invariant
                1 <= d <= 10,
                self.below(d).finite(),
                count == self.below(d).len(),
                count <= d - 1,
            decreases 10 - d,
        {
            proof {
                self.lemma_below((d + 1) as u8);
            }
            if (self.bits >> d) & 1 == 1 {
                assert(self.below((d + 1) as u8) =~= self.below(d).insert(d));
                count += 1;
            } else {
                assert(self.below((d + 1) as u8) =~= self.below(d));
            }
            d += 1;
        }
        assert(self.below(10) =~= self@);
        count
    }

    /// Whether the set holds no digit.
    pub fn is_empty(&self) -> (empty: bool)
        ensures
            empty == (self@ == Set::<u8>::empty()),
            empty == (self@.len() == 0),
    {
        proof {
            self.lemma_view_is_digits();
            if self@.len() == 0 {
                assert(self@ =~= Set::<u8>::empty());
            }
        }
        self.len() == 0
    }

    /// The smallest digit of the set, if it has any.
    pub fn first(&self) -> (digit: Option<u8>)
        ensures
            digit == (if self@.len() == 0 {
                None
            } else {
                Some(least_digit(self@))
            }),
            digit matches Some(d) ==> self@.contains(d),
    {
        let mut d: u8 = 1;
        while d <= 9
            invariant
                1 <= d <= 10,
                forall|e: u8| e < d ==> !self@.contains(e),
            decreases 10 - d,
        {
            if self.contains(d) {
                proof {
                    self.lemma_view_is_digits();
                    lemma_least_digit(self@, d);
                }
                return Some(d);
            }
            d += 1;
        }
        proof {
            self.lemma_view_is_digits();
            assert(self@ =~= Set::<u8>::empty());
        }
        None
    }

    /// Whether both sets hold the same digits.
    pub fn same_as(&self, other: &DigitSet) -> (same: bool)
        ensures
            same == (self@ == other@),
    {
        proof {
            use_type_invariant(self);
            use_type_invariant(other);
            if self@ == other@ {
                assert forall|d: u8| 1 <= d <= 9 implies bit_is_set(self.bits, d) == bit_is_set(
                    other.bits,
                    d,
                ) by {
                    assert(self@.contains(d) == other@.contains(d));
                }
                lemma_same_bits(self.bits, other.bits);
            }
            if self.bits == other.bits {
                assert(self@ =~= other@);
            }
        }
        self.bits == other.bits
    }
}

/// There are nine digits.
pub proof fn lemma_all_digits()
    ensures
        all_digits().finite(),
        all_digits().len() == 9,
{
    let three = Set::<u8>::empty().insert(1).insert(2).insert(3);
    let six = three.insert(4).insert(5).insert(6);
    let nine = six.insert(7).insert(8).insert(9);
    assert(all_digits() =~= nine);
}

/// A set of digits that has nine members holds every digit.
pub proof fn lemma_nine_digits_are_all(s: Set<u8>)
    requires
        s.finite(),
        s.subset_of(all_digits()),
    ensures
        s.len() == 9 <==> s == all_digits(),
{
    lemma_all_digits();
    if s.len() == 9 {
        vstd::set_lib::lemma_subset_equality(s, all_digits());
    }
}

/// A set with a member has a least digit: a member that no member is smaller than.
pub proof fn lemma_least_digit_exists(s: Set<u8>, d: u8)
    requires
        s.contains(d),
    ensures
        s.contains(least_digit(s)),
        forall|e: u8| s.contains(e) ==> least_digit(s) <= e,
    decreases d,
{
    if exists|e: u8| s.contains(e) && e < d {
        let e = choose|e: u8| s.contains(e) && e < d;
        lemma_least_digit_exists(s, e);
    } else {
        assert(s.contains(d) && forall|e: u8| s.contains(e) ==> d <= e);
    }
}

/// Without its least digit a set is what it holds above that digit.
pub proof fn lemma_above_least(s: Set<u8>)
    requires
        exists|d: u8| s.contains(d),
    ensures
        s.remove(least_digit(s)) == digits_above(s, least_digit(s)),
{
    let d = choose|d: u8| s.contains(d);
    lemma_least_digit_exists(s, d);
    assert(s.remove(least_digit(s)) =~= digits_above(s, least_digit(s)));
}

/// The digits above `d`, without the least of them, are the digits above that one.
pub proof fn lemma_above_next(s: Set<u8>, d: u8)
    requires
        exists|e: u8| digits_above(s, d).contains(e),
    ensures
        ({
            let next = least_digit(digits_above(s, d));
            &&& s.contains(next)
            &&& next > d
            &&& digits_above(s, d).remove(next) == digits_above(s, next)
        }),
{
    let above = digits_above(s, d);
    let e = choose|e: u8| above.contains(e);
    lemma_least_digit_exists(above, e);
    let next = least_digit(above);
    assert(above.remove(next) =~= digits_above(s, next));
}

/// A member of `s` that no member is smaller than is its least digit.
pub proof fn lemma_least_digit(s: Set<u8>, d: u8)
    requires
        s.contains(d),
        forall|e: u8| s.contains(e) ==> d <= e,
    ensures
        least_digit(s) == d,
        s.len() != 0 || !s.finite(),
{
    let m = least_digit(s);
    assert(s.contains(m) && forall|e: u8| s.contains(e) ==> m <= e);
    if s.finite() && s.len() == 0 {
        assert(s =~= Set::<u8>::empty());
    }
}

} // verus!
