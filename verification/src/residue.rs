//! The residue algebra: values known to lie in `[0, modulus)`.
//!
//! A [`ModulusInformation`] carries one bounded unit of information.  Two
//! residues can be merged into a single mixed-radix digit string (`combine`),
//! the merge can be undone digit by digit (`split`), the declared range can be
//! widened without touching the value (`cast_up`), and same-range residues can
//! be aggregated pointwise (`add` / `subtract`).

use vstd::prelude::*;

verus! {

use vstd::arithmetic::div_mod::{
    lemma_fundamental_div_mod,
    lemma_mod_division_less_than_divisor,
    lemma_mod_add_multiples_vanish,
    lemma_div_is_ordered,
    lemma_div_multiples_vanish,
    lemma_fundamental_div_mod_converse_div,
    lemma_sub_mod_noop,
    lemma_small_mod,
    lemma_mod_twice,
};
use vstd::arithmetic::mul::{
    lemma_mul_inequality,
    lemma_mul_is_distributive_add,
    lemma_mul_is_commutative,
};

/// A number known to lie in `[0, modulus)`: the number of distinguishable
/// states is `modulus`, the actual state is `value`.
#[derive(Clone, Copy, Debug, PartialEq, Eq, Structural)]
pub struct ModulusInformation {
    pub modulus: u32,
    pub value: u32,
}

impl ModulusInformation {
    /// Validity: the value fits the declared state space.
    pub open spec fn wf(self) -> bool {
        self.value < self.modulus
    }

    /// The largest modulus that `combine` with cap `max_modulus` still
    /// accepts on top of `self`: the remaining capacity of the mixed-radix
    /// number before it would overflow `max_modulus`.
    pub open spec fn spec_info_remaining(self, max_modulus: int) -> int {
        (max_modulus - self.value - 1) / (self.modulus as int) + 1
    }

    /// The modulus `combine` produces under cap `max_modulus`.
    pub open spec fn spec_combined_modulus(self, other: Self, max_modulus: int) -> int {
        if self.modulus * other.modulus <= max_modulus {
            self.modulus * other.modulus
        } else {
            max_modulus
        }
    }

    pub fn new(modulus: u32, value: u32) -> (r: Self)
        requires
            value < modulus,
        ensures
            r.modulus == modulus,
            r.value == value,
            r.wf(),
    {
        ModulusInformation { modulus, value }
    }

    /// The no-information residue `(1, 0)`, the absorbing element of
    /// `combine`.
    pub fn none() -> (r: Self)
        ensures
            r.modulus == 1,
            r.value == 0,
            r.wf(),
    {
        Self::new(1, 0)
    }

    /// Merges `other` into `self` as a more-significant digit, with the
    /// resulting state space capped at `max_modulus`.
    pub fn combine(&mut self, other: Self, max_modulus: u32)
        requires
            old(self).wf(),
            other.wf(),
            old(self).value < max_modulus,
            other.modulus <= old(self).spec_info_remaining(max_modulus as int),
        ensures
            final(self).value == old(self).value + old(self).modulus * other.value,
            final(self).modulus == old(self).spec_combined_modulus(other, max_modulus as int),
            final(self).wf(),
    {
        proof {
            lemma_combine_value_bound(*self, other, max_modulus as int);
        }
        let new_value: u64 = self.value as u64 + self.modulus as u64 * other.value as u64;
        let product: u64 = self.modulus as u64 * other.modulus as u64;
        self.value = new_value as u32;
        self.modulus = if product <= max_modulus as u64 {
            product as u32
        } else {
            max_modulus
        };
    }

    /// The largest `r` such that combining a residue of modulus `r` into
    /// `self` with cap `max_modulus` stays valid.
    pub fn info_remaining(&self, max_modulus: u32) -> (r: u32)
        requires
            self.wf(),
            self.value < max_modulus,
        ensures
            r == self.spec_info_remaining(max_modulus as int),
            1 <= r,
    {
        (max_modulus - self.value - 1) / self.modulus + 1
    }

    /// Inverse of `combine` for the least-significant digit: extracts
    /// `value % modulus` as a new low-order residue and keeps the high-order
    /// remainder, with the tightest modulus consistent with the original one.
    pub fn split(&mut self, modulus: u32) -> (r: Self)
        requires
            old(self).wf(),
            1 <= modulus <= old(self).modulus,
        ensures
            r.modulus == modulus,
            r.value == old(self).value as int % modulus as int,
            final(self).value == old(self).value as int / modulus as int,
            final(self).modulus == (old(self).modulus - r.value - 1) / (modulus as int) + 1,
            old(self).value == r.value + modulus * final(self).value,
            r.wf(),
            final(self).wf(),
    {
        let original_modulus = self.modulus;
        let value = self.value % modulus;
        self.value = self.value / modulus;
        self.modulus = (original_modulus - value - 1) / modulus + 1;
        proof {
            lemma_split_remainder_fits(
                old(self).value as int,
                original_modulus as int,
                modulus as int,
            );
            lemma_fundamental_div_mod(old(self).value as int, modulus as int);
        }
        Self::new(modulus, value)
    }

    /// Widens the declared modulus without changing the value.
    pub fn cast_up(&mut self, modulus: u32)
        requires
            old(self).wf(),
            old(self).modulus <= modulus,
        ensures
            final(self).value == old(self).value,
            final(self).modulus == modulus,
            final(self).wf(),
    {
        self.modulus = modulus;
    }

    /// Pointwise modular addition of two same-range residues.
    pub fn add(&mut self, other: &Self)
        requires
            old(self).wf(),
            other.wf(),
            old(self).modulus == other.modulus,
        ensures
            final(self).modulus == old(self).modulus,
            final(self).value == (old(self).value + other.value) % (old(self).modulus as int),
            final(self).wf(),
    {
        let m = self.modulus as u64;
        let sum = (self.value as u64 + other.value as u64) % m;
        self.value = sum as u32;
    }

    /// Pointwise modular subtraction: the inverse of `add`.
    pub fn subtract(&mut self, other: &Self)
        requires
            old(self).wf(),
            other.wf(),
            old(self).modulus == other.modulus,
        ensures
            final(self).modulus == old(self).modulus,
            final(self).value == (old(self).value - other.value) % (old(self).modulus as int),
            final(self).wf(),
    {
        let m = self.modulus as u64;
        let diff = (m + self.value as u64 - other.value as u64) % m;
        proof {
            lemma_mod_add_multiples_vanish(
                old(self).value - other.value,
                old(self).modulus as int,
            );
            lemma_mod_division_less_than_divisor(
                old(self).value - other.value,
                old(self).modulus as int,
            );
        }
        self.value = diff as u32;
    }
}

/// `info_remaining` is tight: a residue of modulus `info_remaining(c)` can
/// always be combined into `a` under cap `c` (even with its largest value),
/// while one of modulus `info_remaining(c) + 1` can carry a value that would
/// push the combination to `c` or beyond.
pub proof fn lemma_info_remaining_tight(a: ModulusInformation, c: int)
    requires
        a.wf(),
        a.value < c,
    ensures
        a.value + a.modulus * (a.spec_info_remaining(c) - 1) < c,
        a.value + a.modulus * a.spec_info_remaining(c) >= c,
{
    let m = a.modulus as int;
    let v = a.value as int;
    let ir = a.spec_info_remaining(c);
    lemma_fundamental_div_mod(c - v - 1, m);
    lemma_mod_division_less_than_divisor(c - v - 1, m);
    assert(m * ir == m * (ir - 1) + m) by {
        lemma_mul_is_distributive_add(m, ir - 1, 1);
    }
}

/// Round-trip law: splitting a residue at any point `s <= modulus` and
/// combining the two halves back under the original modulus restores the
/// original value exactly.  The combine precondition holds with equality,
/// the combined modulus never exceeds the original one and still bounds the
/// value (so casting up restores the residue exactly), and when `s` divides
/// the original modulus the modulus itself is also restored exactly.
///
/// The hypotheses relating `low` and `high` to `orig` are precisely what
/// `split` ensures of its result and its updated receiver.
pub proof fn lemma_split_combine_round_trip(
    orig: ModulusInformation,
    low: ModulusInformation,
    high: ModulusInformation,
)
    requires
        orig.wf(),
        1 <= low.modulus <= orig.modulus,
        low.value == orig.value as int % low.modulus as int,
        high.value == orig.value as int / low.modulus as int,
        high.modulus == (orig.modulus - low.value - 1) / (low.modulus as int) + 1,
    ensures
        low.wf(),
        high.wf(),
        high.modulus == low.spec_info_remaining(orig.modulus as int),
        low.value + low.modulus * high.value == orig.value,
        orig.value < low.spec_combined_modulus(high, orig.modulus as int),
        low.spec_combined_modulus(high, orig.modulus as int) <= orig.modulus,
        orig.modulus as int % low.modulus as int == 0
            ==> low.spec_combined_modulus(high, orig.modulus as int) == orig.modulus,
{
    let s = low.modulus as int;
    let big = orig.modulus as int;
    let v = orig.value as int;
    lemma_fundamental_div_mod(v, s);
    lemma_mod_division_less_than_divisor(v, s);
    lemma_split_remainder_fits(v, big, s);
    let hm = high.modulus as int;
    assert(v < s * hm) by {
        lemma_mul_inequality(high.value as int, hm - 1, s);
        lemma_mul_is_commutative(s, high.value as int);
        lemma_mul_is_commutative(s, hm - 1);
        lemma_mul_is_distributive_add(s, hm - 1, 1);
    }
    if big % s == 0 {
        let k = big / s;
        lemma_fundamental_div_mod(big, s);
        assert(big == s * k);
        assert(k >= 1) by {
            lemma_div_is_ordered(s, big, s);
            lemma_div_multiples_vanish(1, s);
        }
        assert((big - low.value - 1) / s == k - 1) by {
            assert(big - low.value - 1 == s * (k - 1) + (s - low.value - 1)) by {
                lemma_mul_is_distributive_add(s, k - 1, 1);
            }
            lemma_fundamental_div_mod_converse_div(
                big - low.value - 1,
                s,
                k - 1,
                s - low.value - 1,
            );
        }
        assert(s * hm == big) by {
            lemma_mul_is_commutative(s, k);
        }
    }
}

/// Adding a residue and then subtracting the same residue restores the
/// original value: `((v + o) % m - o) % m == v` whenever both values lie in
/// `[0, m)`.  The two mod expressions are exactly what `add` and `subtract`
/// ensure of the updated value.
pub proof fn lemma_add_subtract_inverse(v: int, o: int, m: int)
    requires
        0 <= v < m,
        0 <= o < m,
    ensures
        ((v + o) % m - o) % m == v,
{
    lemma_sub_mod_noop(v + o, o, m);
    lemma_small_mod(o as nat, m as nat);
    lemma_small_mod(v as nat, m as nat);
    lemma_mod_twice(v + o, m);
    assert(((v + o) % m - o % m) % m == (v + o - o) % m);
}

/// The combined value stays below the cap and below the combined modulus.
pub proof fn lemma_combine_value_bound(a: ModulusInformation, b: ModulusInformation, c: int)
    requires
        a.wf(),
        b.wf(),
        a.value < c,
        b.modulus <= a.spec_info_remaining(c),
    ensures
        a.value + a.modulus * b.value < c,
        a.value + a.modulus * b.value < a.spec_combined_modulus(b, c),
        a.modulus * b.modulus <= c + a.modulus,
{
    let m = a.modulus as int;
    let v = a.value as int;
    let ir = (c - v - 1) / m + 1;
    lemma_fundamental_div_mod(c - v - 1, m);
    lemma_mod_division_less_than_divisor(c - v - 1, m);
    assert(m * (ir - 1) <= c - v - 1);
    assert(m * b.modulus <= m * ir) by {
        lemma_mul_inequality(b.modulus as int, ir, m);
        lemma_mul_is_commutative(m, b.modulus as int);
        lemma_mul_is_commutative(m, ir);
    }
    assert(m * ir == m * (ir - 1) + m) by {
        lemma_mul_is_distributive_add(m, ir - 1, 1);
    }
    assert(b.value <= ir - 1);
    lemma_mul_inequality(b.value as int, ir - 1, m);
    lemma_mul_is_commutative(m, b.value as int);
    lemma_mul_is_commutative(m, ir - 1);
    assert(v + m * b.value < c);
    if m * b.modulus <= c {
        lemma_mul_inequality(b.value as int, b.modulus - 1, m);
        lemma_mul_is_commutative(m, b.modulus - 1);
        assert(m + m * (b.modulus - 1) == m * b.modulus) by {
            lemma_mul_is_distributive_add(m, b.modulus - 1, 1);
        }
        assert(v + m * b.value < m + m * (b.modulus - 1));
    }
}

/// After splitting off a low digit, the high-order quotient fits the
/// recomputed modulus.
pub proof fn lemma_split_remainder_fits(v: int, big: int, s: int)
    requires
        0 <= v < big,
        1 <= s <= big,
    ensures
        v / s < (big - v % s - 1) / s + 1,
{
    let q = v / s;
    let r = v % s;
    lemma_fundamental_div_mod(v, s);
    lemma_mod_division_less_than_divisor(v, s);
    assert(s * q <= big - r - 1);
    lemma_div_is_ordered(s * q, big - r - 1, s);
    lemma_div_multiples_vanish(q, s);
    assert(q <= (big - r - 1) / s);
}

} // verus!
