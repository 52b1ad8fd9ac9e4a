use vstd::prelude::*;

verus! {

/// Largest digit that a candidate set can hold.
pub const MAX_DIGIT: u8 = 32;

/// Whether bit `i` of `mask` is set.
pub open spec fn bit(mask: u32, i: u32) -> bool {
    (mask >> i) & 1 == 1
}

/// The mask whose lowest `n` bits are set.
pub open spec fn low_bits(n: u32) -> u32 {
    if n >= 32 {
        0xffff_ffffu32
    } else {
        ((1u32 << n) - 1) as u32
    }
}

proof fn lemma_bit_none(i: u32)
    by (bit_vector)
    requires
        i < 32,
    ensures
        !bit(0u32, i),
{
}

proof fn lemma_bit_with(mask: u32, k: u32, i: u32)
    by (bit_vector)
    requires
        k < 32,
        i < 32,
    ensures
        bit(mask | (1u32 << k), i) == (bit(mask, i) || i == k),
{
}

proof fn lemma_bit_union(a: u32, b: u32, i: u32)
    by (bit_vector)
    requires
        i < 32,
    ensures
        bit(a | b, i) == (bit(a, i) || bit(b, i)),
{
}

proof fn lemma_bit_inverse(mask: u32, n: u32, i: u32)
    by (bit_vector)
    requires
        i < 32,
    ensures
        bit(!mask & low_bits(n), i) == (!bit(mask, i) && i < n),
{
}

proof fn lemma_low_bits_exec(n: u32)
    by (bit_vector)
    requires
        n < 32,
    ensures
        (1u32 << n) >= 1,
{
}

/// The members of `s` among `1..=k`, in ascending order.
pub open spec fn ascending(s: Set<int>, k: int) -> Seq<int>
    decreases k,
{
    if k <= 0 {
        Seq::empty()
    } else if s.contains(k) {
        ascending(s, k - 1).push(k)
    } else {
        ascending(s, k - 1)
    }
}

/// The members of `s` among `1..=k`.
pub open spec fn upto(s: Set<int>, k: int) -> Set<int> {
    Set::new(|d: int| 1 <= d <= k && s.contains(d))
}

/// A list of digits as a sequence of mathematical integers.
pub open spec fn digits_of(v: Seq<u8>) -> Seq<int> {
    v.map_values(|d: u8| d as int)
}

/// `upto(s, k)` is finite, and grows by at most the one digit `k`.
pub proof fn lemma_upto(s: Set<int>, k: int)
    requires
        0 <= k,
    ensures
        upto(s, k).finite(),
        upto(s, k).len() <= k,
        k > 0 && s.contains(k) ==> upto(s, k) == upto(s, k - 1).insert(k) && upto(s, k).len()
            == upto(s, k - 1).len() + 1,
        k > 0 && !s.contains(k) ==> upto(s, k) == upto(s, k - 1),
        k == 0 ==> upto(s, k) == Set::<int>::empty(),
    decreases k,
{
    if k == 0 {
        assert(upto(s, k) =~= Set::<int>::empty());
    } else {
        lemma_upto(s, k - 1);
        if s.contains(k) {
            assert(upto(s, k) =~= upto(s, k - 1).insert(k));
        } else {
            assert(upto(s, k) =~= upto(s, k - 1));
        }
    }
}

/// `ascending(s, k)` lists exactly `upto(s, k)`, each member once and in
/// strictly increasing order.
pub proof fn lemma_ascending(s: Set<int>, k: int)
    requires
        0 <= k,
    ensures
        ascending(s, k).len() == upto(s, k).len(),
        forall|i: int|
            0 <= i < ascending(s, k).len() ==> 1 <= #[trigger] ascending(s, k)[i] <= k
                && s.contains(ascending(s, k)[i]),
        forall|d: int| 1 <= d <= k && s.contains(d) ==> ascending(s, k).contains(d),
        forall|i: int, j: int|
            0 <= i < j < ascending(s, k).len() ==> ascending(s, k)[i] < ascending(s, k)[j],
    decreases k,
{
    lemma_upto(s, k);
    if k > 0 {
        lemma_ascending(s, k - 1);
        let prev = ascending(s, k - 1);
        let cur = ascending(s, k);
        assert forall|d: int| 1 <= d <= k && s.contains(d) implies cur.contains(d) by {
            if d < k {
                let i = choose|i: int| 0 <= i < prev.len() && prev[i] == d;
                assert(cur[i] == d);
            } else {
                assert(cur[cur.len() - 1] == d);
            }
        }
    }
}

/// Dropping members from the ascending list of a set gives the ascending
/// list of the members that are kept.
pub proof fn lemma_ascending_filter(s: Set<int>, k: int, keep: spec_fn(int) -> bool)
    ensures
        ascending(s, k).filter(keep) == ascending(Set::new(|d: int| s.contains(d) && keep(d)), k),
    decreases k,
{
    reveal(Seq::filter);
    if k > 0 {
        lemma_ascending_filter(s, k - 1, keep);
        if s.contains(k) {
            assert(ascending(s, k).drop_last() =~= ascending(s, k - 1));
        }
    }
}

/// The ascending list of a set of digits among `1..=k` has as many entries
/// as the set has members.
pub proof fn lemma_ascending_len(s: Set<int>, k: int)
    requires
        0 <= k,
        forall|d: int| s.contains(d) ==> 1 <= d <= k,
    ensures
        s.finite(),
        ascending(s, k).len() == s.len(),
{
    lemma_ascending(s, k);
    lemma_upto(s, k);
    assert(s =~= upto(s, k));
}

/// A set of candidate digits among `1..=32`, held as a bit mask.
#[derive(Clone, Copy, Debug, PartialEq, Eq)]
pub struct Flags {
    mask: u32,
}

impl View for Flags {
    type V = Set<int>;

    closed spec fn view(&self) -> Set<int> {
        Set::new(|d: int| 1 <= d <= 32 && bit(self.mask, (d - 1) as u32))
    }
}

impl Flags {
    /// The digits of the set in ascending order.
    pub open spec fn digits(&self) -> Seq<int> {
        ascending(self@, 32)
    }

    /// Every member is a digit among `1..=32`, so the set is finite.
    pub proof fn lemma_bounded(&self)
        ensures
            self@.finite(),
            self@.len() <= 32,
            self@ == upto(self@, 32),
            forall|d: int| self@.contains(d) ==> 1 <= d <= 32,
    {
        lemma_upto(self@, 32);
        assert(self@ =~= upto(self@, 32));
    }

    /// The set without any digit.
    pub fn empty() -> (r: Flags)
        ensures
            r@ == Set::<int>::empty(),
    {
        let r = Flags { mask: 0 };
        proof {
            assert forall|d: int| !r@.contains(d) by {
                if 1 <= d <= 32 {
                    lemma_bit_none((d - 1) as u32);
                }
            }
            assert(r@ =~= Set::<int>::empty());
        }
        r
    }

    /// Whether `digit` is in the set.
    pub fn contains(&self, digit: u8) -> (r: bool)
        ensures
            r == self@.contains(digit as int),
    {
        digit >= 1 && digit <= MAX_DIGIT && (self.mask >> ((digit - 1) as u32)) & 1 == 1
    }

    /// The set with `digit` added; a digit outside `1..=32` is not added.
    pub fn with(&self, digit: u8) -> (r: Flags)
        ensures
            r@ == (if 1 <= digit <= 32 {
                self@.insert(digit as int)
            } else {
                self@
            }),
    {
        if digit >= 1 && digit <= MAX_DIGIT {
            let k: u32 = (digit - 1) as u32;
            let r = Flags { mask: self.mask | (1u32 << k) };
            proof {
                assert forall|d: int| r@.contains(d) == self@.insert(digit as int).contains(d) by {
                    if 1 <= d <= 32 {
                        lemma_bit_with(self.mask, k, (d - 1) as u32);
                    }
                }
                assert(r@ =~= self@.insert(digit as int));
            }
            r
        } else {
            *self
        }
    }

    /// The digits that are in this set or in `other`.
    pub fn union(&self, other: &Flags) -> (r: Flags)
        ensures
            r@ == self@.union(other@),
    {
        let r = Flags { mask: self.mask | other.mask };
        proof {
            assert forall|d: int| r@.contains(d) == self@.union(other@).contains(d) by {
                if 1 <= d <= 32 {
                    lemma_bit_union(self.mask, other.mask, (d - 1) as u32);
                }
            }
            assert(r@ =~= self@.union(other@));
        }
        r
    }

    /// The digits among `1..=board_size` that are not in this set.
    pub fn inverse(&self, board_size: u8) -> (r: Flags)
        ensures
            r@ == Set::new(|d: int| 1 <= d <= board_size && d <= 32 && !self@.contains(d)),
    {
        let n: u32 = board_size as u32;
        let low: u32 = if n >= 32 {
            0xffff_ffffu32
        } else {
            proof {
                lemma_low_bits_exec(n);
            }
            (1u32 << n) - 1
        };
        let r = Flags { mask: !self.mask & low };
        proof {
            assert(low == low_bits(n));
            let want = Set::new(|d: int| 1 <= d <= board_size && d <= 32 && !self@.contains(d));
            assert forall|d: int| r@.contains(d) == want.contains(d) by {
                if 1 <= d <= 32 {
                    lemma_bit_inverse(self.mask, n, (d - 1) as u32);
                }
            }
            assert(r@ =~= want);
        }
        r
    }

    /// The number of digits in the set.
    pub fn size(&self) -> (n: usize)
        ensures
            n == self@.len(),
            n <= 32,
    {
        let mut n: usize = 0;
        let mut i: u32 = 0;
        proof {
            lemma_upto(self@, 0);
        }
        while i < 32
            invariant
                i <= 32,
                n == upto(self@, i as int).len(),
                n <= i,
            decreases 32 - i,
        {
            proof {
                lemma_upto(self@, i + 1);
            }
            if (self.mask >> i) & 1 == 1 {
                n += 1;
            }
            i += 1;
        }
        proof {
            self.lemma_bounded();
        }
        n
    }

    /// Whether the set holds no digit.
    pub fn is_empty(&self) -> (r: bool)
        ensures
            r == (self@.len() == 0),
            r == (self@ == Set::<int>::empty()),
    {
        proof {
            self.lemma_bounded();
            if self@.len() == 0 {
                self@.lemma_len0_is_empty();
            }
        }
        self.size() == 0
    }

    /// The digits of the set, in ascending order.
    pub fn to_vec(&self) -> (r: Vec<u8>)
        ensures
            digits_of(r@) == self.digits(),
            r@.len() == self@.len(),
    {
        let mut r: Vec<u8> = Vec::new();
        let mut i: u8 = 0;
        while i < 32
            invariant
                i <= 32,
                digits_of(r@) =~= ascending(self@, i as int),
            decreases 32 - i,
        {
            i += 1;
            if (self.mask >> ((i - 1) as u32)) & 1 == 1 {
                r.push(i);
            }
            assert(digits_of(r@) =~= ascending(self@, i as int));
        }
        proof {
            self.lemma_bounded();
            lemma_ascending(self@, 32);
        }
        r
    }

    /// The set of the digits of `digits` that lie in `1..=32`.
    pub fn from_vec(digits: Vec<u8>) -> (r: Flags)
        ensures
            r@ == Set::new(|d: int| 1 <= d <= 32 && digits_of(digits@).contains(d)),
    {
        let mut r = Flags::empty();
        let mut i: usize = 0;
        while i < digits.len()
            invariant
                i <= digits.len(),
                r@ == Set::new(
                    |d: int| 1 <= d <= 32 && digits_of(digits@.take(i as int)).contains(d),
                ),
            decreases digits.len() - i,
        {
            let ghost before = r@;
            r = r.with(digits[i]);
            proof {
                let a = digits_of(digits@.take(i as int));
                let b = digits_of(digits@.take(i + 1));
                let want = Set::new(|d: int| 1 <= d <= 32 && b.contains(d));
                assert(b =~= a.push(digits[i as int] as int));
                assert forall|d: int| r@.contains(d) == want.contains(d) by {
                    if a.contains(d) {
                        let j = choose|j: int| 0 <= j < a.len() && a[j] == d;
                        assert(b[j] == d);
                    }
                    if d == digits[i as int] {
                        assert(b[i as int] == d);
                    }
                }
                assert(r@ =~= want);
            }
            i += 1;
        }
        proof {
            assert(digits@.take(i as int) =~= digits@);
        }
        r
    }
}

} // verus!
