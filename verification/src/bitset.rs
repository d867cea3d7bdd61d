use rand::seq::IndexedRandom;
use vstd::prelude::*;

verus! {

/// A sudoku digit, one through nine.
#[derive(Debug, Clone, Copy, PartialEq, Eq, Structural)]
pub enum Number {
    N1,
    N2,
    N3,
    N4,
    N5,
    N6,
    N7,
    N8,
    N9,
}

impl View for Number {
    type V = int;

    /// The digit's numeric value.
    open spec fn view(&self) -> int {
        match *self {
            Number::N1 => 1,
            Number::N2 => 2,
            Number::N3 => 3,
            Number::N4 => 4,
            Number::N5 => 5,
            Number::N6 => 6,
            Number::N7 => 7,
            Number::N8 => 8,
            Number::N9 => 9,
        }
    }
}

/// The bit that stands for digit `n` in a `BitSet` word.
pub open spec fn bit_of(n: Number) -> u16 {
    1u16 << (n@ as u16)
}

/// Every digit lies in 1..=9, and the value determines the digit.
pub proof fn lemma_number_value(n: Number, m: Number)
    ensures
        1 <= n@ <= 9,
        n@ == m@ ==> n == m,
{
}

/// The set of all nine digits.
pub open spec fn all_digits() -> Set<Number> {
    set![
        Number::N1,
        Number::N2,
        Number::N3,
        Number::N4,
        Number::N5,
        Number::N6,
        Number::N7,
        Number::N8,
        Number::N9,
    ]
}

/// Every set of digits is finite and has at most nine members; it has nine
/// exactly when it holds every digit.
pub proof fn lemma_digit_set_size(s: Set<Number>)
    ensures
        s.finite(),
        s.len() <= 9,
        (forall|n: Number| s.contains(n)) ==> s.len() == 9,
{
    let full = all_digits();
    assert(full.len() == 9);
    assert forall|n: Number| #[trigger] full.contains(n) by {
        match n {
            Number::N1 => {},
            Number::N2 => {},
            Number::N3 => {},
            Number::N4 => {},
            Number::N5 => {},
            Number::N6 => {},
            Number::N7 => {},
            Number::N8 => {},
            Number::N9 => {},
        }
    }
    assert(s.subset_of(full));
    vstd::set_lib::lemma_len_subset(s, full);
    if forall|n: Number| s.contains(n) {
        assert(s =~= full);
    }
}

/// Distinct digits own distinct bits, and no two digits share a bit.
pub proof fn lemma_bits_distinct(n: Number, m: Number)
    ensures
        n != m ==> bit_of(n) & bit_of(m) == 0,
        bit_of(n) & 0xfc01u16 == 0,
        bit_of(n) != 0,
{
    lemma_number_value(n, m);
    let s = n@ as u16;
    let t = m@ as u16;
    assert(1 <= s <= 9 && 1 <= t <= 9);
    assert(s != t ==> (1u16 << s) & (1u16 << t) == 0) by (bit_vector)
        requires
            1 <= s <= 9,
            1 <= t <= 9,
    ;
    assert((1u16 << s) & 0xfc01u16 == 0 && (1u16 << s) != 0) by (bit_vector)
        requires
            1 <= s <= 9,
    ;
}

impl From<Number> for u8 {
    /// The digit's value.
    fn from(value: Number) -> (r: u8) {
        match value {
            Number::N1 => 1,
            Number::N2 => 2,
            Number::N3 => 3,
            Number::N4 => 4,
            Number::N5 => 5,
            Number::N6 => 6,
            Number::N7 => 7,
            Number::N8 => 8,
            Number::N9 => 9,
        }
    }
}

impl vstd::std_specs::convert::FromSpecImpl<Number> for u8 {
    open spec fn obeys_from_spec() -> bool {
        true
    }

    open spec fn from_spec(v: Number) -> u8 {
        v@ as u8
    }
}

impl Number {
    /// The digit's bit: `1 << n`.
    pub fn to_bits(self) -> (b: u16)
        ensures
            b == bit_of(self),
    {
        1u16 << u8::from(self)
    }
}


/// A set of digits, one bit per digit (bit `n` for digit `n`).
#[derive(Debug, Clone, Copy)]
pub struct BitSet(u16);

/// The bits that no digit occupies: bit 0 and bits 10 to 15.
pub open spec fn unused_bits() -> u16 {
    0xfc01u16
}

proof fn lemma_set_bit(x: u16, s: u16, t: u16)
    by (bit_vector)
    requires
        1 <= s <= 9,
        1 <= t <= 9,
        x & 0xfc01u16 == 0,
    ensures
        (x | (1u16 << s)) & 0xfc01u16 == 0,
        ((x | (1u16 << s)) & (1u16 << t) != 0) <==> ((x & (1u16 << t) != 0) || s == t),
        (x & !(1u16 << s)) & 0xfc01u16 == 0,
        ((x & !(1u16 << s)) & (1u16 << t) != 0) <==> ((x & (1u16 << t) != 0) && s != t),
{
}

impl BitSet {
    #[verifier::type_invariant]
    spec fn only_digit_bits(self) -> bool {
        self.0 & unused_bits() == 0
    }

    /// Whether the word holds digit `n`'s bit.
    closed spec fn holds(self, n: Number) -> bool {
        self.0 & bit_of(n) != 0
    }
}

impl View for BitSet {
    type V = Set<Number>;

    closed spec fn view(&self) -> Set<Number> {
        Set::new(|n: Number| self.holds(n))
    }
}

impl BitSet {
    /// The empty set.
    pub fn new() -> (r: Self)
        ensures
            r@ == Set::<Number>::empty(),
    {
        assert forall|n: Number| !(0u16 & bit_of(n) != 0) by {
            let b = bit_of(n);
            assert(0u16 & b == 0) by (bit_vector);
        }
        assert(0u16 & 0xfc01u16 == 0) by (bit_vector);
        let r = Self(0);
        assert(r@ =~= Set::<Number>::empty());
        r
    }

    /// Empties the set.
    pub fn clear(&mut self)
        ensures
            final(self)@ == Set::<Number>::empty(),
    {
        *self = Self::new();
    }

    /// Whether `n` is in the set.
    pub fn get(&self, n: Number) -> (r: bool)
        ensures
            r == self@.contains(n),
    {
        self.0 & n.to_bits() > 0
    }

    /// Adds `n` to the set.
    pub fn set(&mut self, n: Number)
        ensures
            final(self)@ == old(self)@.insert(n),
    {
        proof {
            use_type_invariant(&*self);
        }
        let ghost x = self.0;
        let b = n.to_bits();
        proof {
            assert forall|m: Number| ((x | b) & bit_of(m) != 0) <==> ((x & bit_of(m) != 0) || m == n) by {
                lemma_number_value(m, n);
                lemma_set_bit(x, n@ as u16, m@ as u16);
            }
            lemma_set_bit(x, n@ as u16, n@ as u16);
        }
        self.0 = self.0 | b;
        assert(self@ =~= old(self)@.insert(n));
    }

    /// Removes `n` from the set.
    pub fn unset(&mut self, n: Number)
        ensures
            final(self)@ == old(self)@.remove(n),
    {
        proof {
            use_type_invariant(&*self);
        }
        let ghost x = self.0;
        let b = n.to_bits();
        proof {
            assert forall|m: Number| ((x & !b) & bit_of(m) != 0) <==> ((x & bit_of(m) != 0) && m != n) by {
                lemma_number_value(m, n);
                lemma_set_bit(x, n@ as u16, m@ as u16);
            }
            lemma_set_bit(x, n@ as u16, n@ as u16);
        }
        self.0 = self.0 & !b;
        assert(self@ =~= old(self)@.remove(n));
    }
}

proof fn lemma_combine(x: u16, y: u16, t: u16)
    by (bit_vector)
    requires
        x & 0xfc01u16 == 0,
        y & 0xfc01u16 == 0,
    ensures
        (x | y) & 0xfc01u16 == 0,
        (x & y) & 0xfc01u16 == 0,
        ((x | y) & (1u16 << t) != 0) <==> ((x & (1u16 << t) != 0) || (y & (1u16 << t) != 0)),
        ((x & y) & (1u16 << t) != 0) <==> ((x & (1u16 << t) != 0) && (y & (1u16 << t) != 0)),
{
}

proof fn lemma_full_word(x: u16, full: u16)
    by (bit_vector)
    requires
        x & 0xfc01u16 == 0,
        full == (1u16 << 1u16) | (1u16 << 2u16) | (1u16 << 3u16) | (1u16 << 4u16) | (1u16 << 5u16)
            | (1u16 << 6u16) | (1u16 << 7u16) | (1u16 << 8u16) | (1u16 << 9u16),
    ensures
        (x == full) <==> (x & (1u16 << 1u16) != 0 && x & (1u16 << 2u16) != 0 && x & (1u16
            << 3u16) != 0 && x & (1u16 << 4u16) != 0 && x & (1u16 << 5u16) != 0 && x & (1u16
            << 6u16) != 0 && x & (1u16 << 7u16) != 0 && x & (1u16 << 8u16) != 0 && x & (1u16
            << 9u16) != 0),
{
}

proof fn lemma_low_bit(x: u16)
    by (bit_vector)
    ensures
        (x << 1u16) & 1u16 == 0,
        x & 0xfc01u16 == 0 ==> x & 1u16 == 0,
        x & 1u16 <= 1,
{
}

/// The nine digits in increasing order.
fn all_numbers() -> (a: [Number; 9])
    ensures
        forall|i: int| 0 <= i < 9 ==> (#[trigger] a@[i])@ == i + 1,
{
    [
        Number::N1,
        Number::N2,
        Number::N3,
        Number::N4,
        Number::N5,
        Number::N6,
        Number::N7,
        Number::N8,
        Number::N9,
    ]
}

/// Calls `rand`'s `IndexedRandom::choose` on the slice and copies out the
/// digit. Claimed, as `rand`'s source shows: `None` exactly when `items` is
/// empty, and otherwise one of `items`; which one is left to chance.
#[verifier::external_body]
fn choose_from<R>(items: &[Number], rng: &mut R) -> (r: Option<Number>)
    where
        R: rand::Rng + ?Sized,
    ensures
        r is None <==> items@.len() == 0,
        r matches Some(n) ==> items@.contains(n),
{
    items.choose(rng).cloned()
}

impl BitSet {
    /// Counts the set's digits by adding up bit 0 of the word while the word
    /// is shifted left nine times. Only the first addition can see a set bit,
    /// and bit 0 stands for no digit, so the count is 0 for every set.
    pub fn get_count(&self) -> (c: u8)
        ensures
            c == 0,
    {
        proof {
            use_type_invariant(self);
            lemma_low_bit(self.0);
        }
        let mut n: u16 = self.0;
        let mut sum: u16 = 0;
        for i in 0..9
            invariant
                n & 1u16 == 0,
                sum == 0,
        {
            proof {
                lemma_low_bit(n);
            }
            sum += n & 0x1;
            n <<= 0x1;
        }
        sum as u8
    }

    /// Whether all nine digits are in the set.
    pub fn all_seen(&self) -> (r: bool)
        ensures
            r == (forall|n: Number| self@.contains(n)),
    {
        proof {
            use_type_invariant(self);
        }
        let full = Number::N1.to_bits() | Number::N2.to_bits() | Number::N3.to_bits()
            | Number::N4.to_bits() | Number::N5.to_bits() | Number::N6.to_bits()
            | Number::N7.to_bits() | Number::N8.to_bits() | Number::N9.to_bits();
        proof {
            lemma_full_word(self.0, full);
            if self.0 == full {
                assert forall|n: Number| self@.contains(n) by {
                    match n {
                        Number::N1 => {},
                        Number::N2 => {},
                        Number::N3 => {},
                        Number::N4 => {},
                        Number::N5 => {},
                        Number::N6 => {},
                        Number::N7 => {},
                        Number::N8 => {},
                        Number::N9 => {},
                    }
                }
            } else {
                if forall|n: Number| self@.contains(n) {
                    assert(self@.contains(Number::N1));
                    assert(self@.contains(Number::N2));
                    assert(self@.contains(Number::N3));
                    assert(self@.contains(Number::N4));
                    assert(self@.contains(Number::N5));
                    assert(self@.contains(Number::N6));
                    assert(self@.contains(Number::N7));
                    assert(self@.contains(Number::N8));
                    assert(self@.contains(Number::N9));
                }
            }
        }
        self.0 == full
    }

    /// Picks, at random, a digit that is not in the set; `None` when the set
    /// holds all nine.
    pub fn choose_new<R>(&self, rng: &mut R) -> (r: Option<Number>)
        where
            R: rand::Rng + ?Sized,
        ensures
            r is None <==> (forall|n: Number| self@.contains(n)),
            r matches Some(n) ==> !self@.contains(n),
    {
        let all = all_numbers();
        let mut unseen: Vec<Number> = Vec::new();
        let mut i: usize = 0;
        while i < 9
            invariant
                i <= 9,
                forall|j: int| 0 <= j < 9 ==> (#[trigger] all@[j])@ == j + 1,
                forall|m: Number| #[trigger]
                    unseen@.contains(m) <==> (m@ <= i && !self@.contains(m)),
            decreases 9 - i,
        {
            let n = all[i];
            proof {
                assert(all@[i as int]@ == i + 1);
            }
            let ghost before = unseen@;
            if !self.get(n) {
                unseen.push(n);
                proof {
                    assert forall|m: Number| #[trigger]
                        unseen@.contains(m) <==> (before.contains(m) || m == n) by {
                        assert(unseen@ == before.push(n));
                        if m == n {
                            assert(unseen@[before.len() as int] == n);
                        }
                        if before.contains(m) {
                            let k = choose|k: int| 0 <= k < before.len() && before[k] == m;
                            assert(unseen@[k] == m);
                        }
                        if unseen@.contains(m) && m != n {
                            let k = choose|k: int| 0 <= k < unseen@.len() && unseen@[k] == m;
                            assert(before[k] == m);
                        }
                    }
                }
            }
            proof {
                assert forall|m: Number| #[trigger]
                    unseen@.contains(m) <==> (m@ <= i + 1 && !self@.contains(m)) by {
                    lemma_number_value(m, n);
                }
            }
            i += 1;
        }
        proof {
            if unseen@.len() > 0 {
                assert(unseen@.contains(unseen@[0]));
            }
            assert forall|m: Number| !unseen@.contains(m) implies self@.contains(m) by {
                lemma_number_value(m, m);
            }
        }
        choose_from(unseen.as_slice(), rng)
    }

    /// The smallest digit that is not in the set; `None` when the set holds
    /// all nine.
    pub fn get_next(&self) -> (r: Option<Number>)
        ensures
            match r {
                Some(n) => !self@.contains(n) && forall|m: Number| m@ < n@ ==> self@.contains(m),
                None => forall|m: Number| self@.contains(m),
            },
    {
        let all = all_numbers();
        let mut i: usize = 0;
        while i < 9
            invariant
                i <= 9,
                forall|j: int| 0 <= j < 9 ==> (#[trigger] all@[j])@ == j + 1,
                forall|m: Number| m@ <= i ==> self@.contains(m),
            decreases 9 - i,
        {
            let n = all[i];
            proof {
                assert(all@[i as int]@ == i + 1);
            }
            if !self.get(n) {
                return Some(n);
            }
            proof {
                assert forall|m: Number| m@ <= i + 1 implies self@.contains(m) by {
                    lemma_number_value(m, n);
                }
            }
            i += 1;
        }
        proof {
            assert forall|m: Number| self@.contains(m) by {
                lemma_number_value(m, m);
            }
        }
        None
    }
}

impl Default for BitSet {
    fn default() -> (r: Self)
        ensures
            r@ == Set::<Number>::empty(),
    {
        Self::new()
    }
}

impl core::ops::BitAnd for BitSet {
    type Output = Self;

    /// The digits in both sets.
    fn bitand(self, rhs: Self) -> (r: Self)
        ensures
            r@ == self@.intersect(rhs@),
    {
        proof {
            use_type_invariant(&self);
            use_type_invariant(&rhs);
            assert forall|m: Number| ((self.0 & rhs.0) & bit_of(m) != 0) <==> (self.0 & bit_of(m) != 0 && rhs.0 & bit_of(m) != 0) by {
                lemma_combine(self.0, rhs.0, m@ as u16);
            }
            lemma_combine(self.0, rhs.0, 1);
        }
        let r = Self(self.0 & rhs.0);
        assert(r@ =~= self@.intersect(rhs@));
        r
    }
}

impl vstd::std_specs::ops::BitAndSpecImpl for BitSet {
    open spec fn obeys_bitand_spec() -> bool {
        true
    }

    open spec fn bitand_req(self, rhs: Self) -> bool {
        true
    }

    closed spec fn bitand_spec(self, rhs: Self) -> Self {
        BitSet(self.0 & rhs.0)
    }
}

impl core::ops::BitOr for BitSet {
    type Output = Self;

    /// The digits in either set.
    fn bitor(self, rhs: Self) -> (r: Self)
        ensures
            r@ == self@.union(rhs@),
    {
        proof {
            use_type_invariant(&self);
            use_type_invariant(&rhs);
            assert forall|m: Number| ((self.0 | rhs.0) & bit_of(m) != 0) <==> (self.0 & bit_of(m) != 0 || rhs.0 & bit_of(m) != 0) by {
                lemma_combine(self.0, rhs.0, m@ as u16);
            }
            lemma_combine(self.0, rhs.0, 1);
        }
        let r = Self(self.0 | rhs.0);
        assert(r@ =~= self@.union(rhs@));
        r
    }
}

impl vstd::std_specs::ops::BitOrSpecImpl for BitSet {
    open spec fn obeys_bitor_spec() -> bool {
        true
    }

    open spec fn bitor_req(self, rhs: Self) -> bool {
        true
    }

    closed spec fn bitor_spec(self, rhs: Self) -> Self {
        BitSet(self.0 | rhs.0)
    }
}

} // verus!
