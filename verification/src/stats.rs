//! Running minimum, maximum, sum and count of the readings of one station.

use vstd::prelude::*;
use vstd::arithmetic::div_mod::{lemma_fundamental_div_mod, lemma_fundamental_div_mod_converse};
use crate::decimal::{push_tenths, tenths_text};

verus! {

/// The byte `/`.
pub const SLASH: u8 = 47;

/// What an accumulator stands for: the least and the greatest reading seen,
/// their sum and their number, as unbounded integers. Readings are counted in
/// tenths.
pub struct Summary {
    pub min: int,
    pub max: int,
    pub sum: int,
    pub count: nat,
}

impl Summary {
    /// The summary of no readings: its minimum above and its maximum below
    /// every reading that can be held.
    pub open spec fn empty() -> Summary {
        Summary { min: i64::MAX as int, max: i64::MIN as int, sum: 0, count: 0 }
    }

    /// The summary after one more reading.
    pub open spec fn update(self, reading: int) -> Summary {
        Summary {
            min: if reading < self.min { reading } else { self.min },
            max: if reading > self.max { reading } else { self.max },
            sum: self.sum + reading,
            count: self.count + 1,
        }
    }

    /// The summary of the readings of both.
    pub open spec fn merge(self, other: Summary) -> Summary {
        Summary {
            min: if other.min < self.min { other.min } else { self.min },
            max: if other.max > self.max { other.max } else { self.max },
            sum: self.sum + other.sum,
            count: self.count + other.count,
        }
    }

    /// The mean reading, rounded to the nearest whole tenth, a half away from
    /// zero.
    pub open spec fn mean(self) -> int
        recommends
            self.count > 0,
    {
        if self.sum >= 0 {
            (2 * self.sum + self.count) / (2 * self.count as int)
        } else {
            -((2 * (-self.sum) + self.count) / (2 * self.count as int))
        }
    }

    /// The summary as text: minimum, mean and maximum with one digit behind
    /// the point each, with a slash between them.
    pub open spec fn text(self) -> Seq<u8>
        recommends
            self.count > 0,
    {
        tenths_text(self.min) + seq![SLASH] + tenths_text(self.mean()) + seq![SLASH] + tenths_text(
            self.max,
        )
    }

    /// The summary can be that of `count` readings that an `i64` holds: without
    /// readings it is `empty()`, with readings the minimum is not above the
    /// maximum and the sum lies between `count` times each.
    pub open spec fn sound(self) -> bool {
        if self.count == 0 {
            self == Summary::empty()
        } else {
            &&& i64::MIN <= self.min <= self.max <= i64::MAX
            &&& self.count <= u64::MAX
            &&& self.count * self.min <= self.sum <= self.count * self.max
        }
    }
}

/// The running statistics of one station.
#[derive(Clone, Copy, Debug)]
pub struct Stats {
    min: i64,
    max: i64,
    sum: i128,
    count: u64,
}

impl View for Stats {
    type V = Summary;

    closed spec fn view(&self) -> Summary {
        Summary { min: self.min as int, max: self.max as int, sum: self.sum as int, count: self.count as nat }
    }
}

impl Default for Stats {
    /// The accumulator that has seen no reading.
    fn default() -> (s: Stats)
        ensures
            s@ == Summary::empty(),
            s@.sound(),
    {
        Stats { min: i64::MAX, max: i64::MIN, sum: 0, count: 0 }
    }
}

impl Stats {
    #[verifier::type_invariant]
    spec fn inv(self) -> bool {
        self@.sound()
    }

    /// What an accumulator stands for lies within what its fields can hold.
    pub proof fn view_in_range(self)
        ensures
            i64::MIN <= self@.min <= i64::MAX,
            i64::MIN <= self@.max <= i64::MAX,
            self@.count <= u64::MAX,
    {
    }

    /// Takes in one reading.
    pub fn update(&mut self, reading: i64)
        requires
            old(self)@.count < u64::MAX,
        ensures
            final(self)@ == old(self)@.update(reading as int),
            final(self)@.sound(),
    {
        proof {
            use_type_invariant(&*self);
            lemma_sum_bounds(self@);
        }
        let min = if reading < self.min { reading } else { self.min };
        let max = if reading > self.max { reading } else { self.max };
        let ghost before = self@;
        proof {
            lemma_update_sound(before, reading as int);
        }
        *self = Stats { min, max, sum: self.sum + reading as i128, count: self.count + 1 };
    }

    /// Takes in all that `other` has seen.
    pub fn merge(&mut self, other: &Stats)
        requires
            old(self)@.count + other@.count <= u64::MAX,
        ensures
            final(self)@ == old(self)@.merge(other@),
            final(self)@.sound(),
    {
        proof {
            use_type_invariant(&*self);
            use_type_invariant(other);
            lemma_sum_bounds(self@);
            lemma_sum_bounds(other@);
            lemma_merge_sound(self@, other@);
        }
        let min = if other.min < self.min { other.min } else { self.min };
        let max = if other.max > self.max { other.max } else { self.max };
        *self = Stats { min, max, sum: self.sum + other.sum, count: self.count + other.count };
    }

    /// The least reading seen, `i64::MAX` before the first.
    pub fn min(&self) -> (min: i64)
        ensures
            min == self@.min,
    {
        self.min
    }

    /// The greatest reading seen, `i64::MIN` before the first.
    pub fn max(&self) -> (max: i64)
        ensures
            max == self@.max,
    {
        self.max
    }

    /// The sum of the readings seen.
    pub fn sum(&self) -> (sum: i128)
        ensures
            sum == self@.sum,
    {
        self.sum
    }

    /// The number of readings seen.
    pub fn count(&self) -> (count: u64)
        ensures
            count == self@.count,
    {
        self.count
    }

    /// The mean of the readings seen, rounded to the nearest whole tenth, a
    /// half away from zero. It lies between the least and the greatest.
    pub fn mean(&self) -> (mean: i64)
        requires
            self@.count > 0,
        ensures
            mean == self@.mean(),
            self@.min <= mean <= self@.max,
    {
        proof {
            use_type_invariant(self);
            lemma_sum_bounds(self@);
            lemma_mean_bounds(self@);
        }
        let count = self.count as u128;
        if self.sum >= 0 {
            rounded_quotient(self.sum as u128, count) as i64
        } else {
            (-(rounded_quotient((-self.sum) as u128, count) as i128)) as i64
        }
    }

    /// Appends minimum, mean and maximum as text.
    pub fn render_into(&self, out: &mut Vec<u8>)
        requires
            self@.count > 0,
        ensures
            final(out)@ == old(out)@ + self@.text(),
    {
        push_tenths(out, self.min);
        out.push(SLASH);
        push_tenths(out, self.mean());
        out.push(SLASH);
        push_tenths(out, self.max);
    }

    /// Minimum, mean and maximum as text, such as `-1.5/0.3/12.0`.
    pub fn render(&self) -> (text: Vec<u8>)
        requires
            self@.count > 0,
        ensures
            text@ == self@.text(),
    {
        let mut text: Vec<u8> = Vec::new();
        self.render_into(&mut text);
        text
    }
}

/// `total / count`, rounded to the nearest integer, a half upwards.
fn rounded_quotient(total: u128, count: u128) -> (nearest: u128)
    requires
        count > 0,
        total <= 0x8000_0000_0000_0000_0000_0000_0000_0000,
    ensures
        nearest == (2 * total + count) / (2 * count as int),
        nearest <= total + 1,
{
    proof {
        lemma_rounded(total as int, count as int);
    }
    let whole = total / count;
    let left = total % count;
    if left >= count - left {
        whole + 1
    } else {
        whole
    }
}

/// Merging does not depend on how the accumulators are grouped: minimum,
/// maximum, sum and count come out the same.
pub proof fn merge_associative(a: Summary, b: Summary, c: Summary)
    ensures
        a.merge(b).merge(c) == a.merge(b.merge(c)),
{
}

/// Merging does not depend on the order of the two.
pub proof fn merge_commutative(a: Summary, b: Summary)
    ensures
        a.merge(b) == b.merge(a),
{
}

/// Merging with an accumulator that has seen no reading, which is what
/// `Stats::default` makes, changes nothing, whichever side it is on.
pub proof fn merge_identity(a: Stats)
    ensures
        a@.merge(Summary::empty()) == a@,
        Summary::empty().merge(a@) == a@,
{
}

/// Taking in one reading is merging with the summary of that reading alone.
pub proof fn update_is_merge(a: Summary, reading: int)
    requires
        i64::MIN <= reading <= i64::MAX,
    ensures
        a.update(reading) == a.merge(Summary::empty().update(reading)),
{
}

/// Rounding a quotient to the nearest integer, a half upwards, takes the whole
/// quotient and one more where twice the remainder reaches the divisor.
pub proof fn lemma_rounded(total: int, count: int)
    requires
        total >= 0,
        count > 0,
    ensures
        (2 * total + count) / (2 * count) == total / count + if 2 * (total % count) >= count {
            1int
        } else {
            0int
        },
        0 <= total % count < count,
        0 <= total / count <= total,
{
    lemma_fundamental_div_mod(total, count);
    let q = total / count;
    let r = total % count;
    assert(q >= 0 && q <= total) by (nonlinear_arith)
        requires
            total == count * q + r,
            0 <= r < count,
            total >= 0,
            count > 0,
    ;
    if 2 * r >= count {
        assert(2 * total + count == (q + 1) * (2 * count) + (2 * r - count)) by (nonlinear_arith)
            requires
                total == count * q + r,
        ;
        lemma_fundamental_div_mod_converse(2 * total + count, 2 * count, q + 1, 2 * r - count);
    } else {
        assert(2 * total + count == q * (2 * count) + (2 * r + count)) by (nonlinear_arith)
            requires
                total == count * q + r,
        ;
        lemma_fundamental_div_mod_converse(2 * total + count, 2 * count, q, 2 * r + count);
    }
}

/// The rounded mean of a sound summary lies between its minimum and its
/// maximum.
pub proof fn lemma_mean_bounds(s: Summary)
    requires
        s.sound(),
        s.count > 0,
    ensures
        s.min <= s.mean() <= s.max,
{
    let c = s.count as int;
    let t = if s.sum >= 0 { s.sum } else { -s.sum };
    let m = (2 * t + c) / (2 * c);
    lemma_fundamental_div_mod(2 * t + c, 2 * c);
    let rem = (2 * t + c) % (2 * c);
    assert(m >= 0) by (nonlinear_arith)
        requires
            2 * t + c == (2 * c) * m + rem,
            0 <= rem < 2 * c,
            t >= 0,
            c > 0,
    ;
    if s.sum >= 0 {
        assert(m <= s.max) by (nonlinear_arith)
            requires
                2 * t + c == (2 * c) * m + rem,
                0 <= rem < 2 * c,
                t <= c * s.max,
                c > 0,
        ;
        if s.min > 0 {
            assert(m >= s.min) by (nonlinear_arith)
                requires
                    2 * t + c == (2 * c) * m + rem,
                    0 <= rem < 2 * c,
                    t >= c * s.min,
                    c > 0,
            ;
        }
    } else {
        assert(m <= -s.min) by (nonlinear_arith)
            requires
                2 * t + c == (2 * c) * m + rem,
                0 <= rem < 2 * c,
                -t >= c * s.min,
                c > 0,
        ;
        if s.max < 0 {
            assert(m >= -s.max) by (nonlinear_arith)
                requires
                    2 * t + c == (2 * c) * m + rem,
                    0 <= rem < 2 * c,
                    -t <= c * s.max,
                    c > 0,
            ;
        }
    }
}

/// The sum of a sound summary is at most `count` times the widest reading away
/// from zero.
pub proof fn lemma_sum_bounds(s: Summary)
    requires
        s.sound(),
    ensures
        -(s.count * 0x8000_0000_0000_0000) <= s.sum <= s.count * 0x7fff_ffff_ffff_ffff,
        s.count * 0x8000_0000_0000_0000 <= 0xffff_ffff_ffff_ffff * 0x8000_0000_0000_0000,
{
    if s.count > 0 {
        let c = s.count as int;
        assert(c * s.min >= c * (-0x8000_0000_0000_0000)) by (nonlinear_arith)
            requires
                c >= 0,
                s.min >= -0x8000_0000_0000_0000,
        ;
        assert(c * s.max <= c * 0x7fff_ffff_ffff_ffff) by (nonlinear_arith)
            requires
                c >= 0,
                s.max <= 0x7fff_ffff_ffff_ffff,
        ;
    }
    assert(s.count * 0x8000_0000_0000_0000 <= 0xffff_ffff_ffff_ffff * 0x8000_0000_0000_0000)
        by (nonlinear_arith)
        requires
            s.count <= 0xffff_ffff_ffff_ffff,
    ;
}

/// One more reading keeps a summary sound.
pub proof fn lemma_update_sound(s: Summary, reading: int)
    requires
        s.sound(),
        s.count < u64::MAX,
        i64::MIN <= reading <= i64::MAX,
    ensures
        s.update(reading).sound(),
{
    let u = s.update(reading);
    let c = s.count as int;
    if s.count > 0 {
        assert((c + 1) * u.min <= s.sum + reading) by (nonlinear_arith)
            requires
                c >= 0,
                u.min <= s.min,
                u.min <= reading,
                c * s.min <= s.sum,
        ;
        assert((c + 1) * u.max >= s.sum + reading) by (nonlinear_arith)
            requires
                c >= 0,
                u.max >= s.max,
                u.max >= reading,
                c * s.max >= s.sum,
        ;
    } else {
        assert(1 * u.min == u.min && 1 * u.max == u.max) by (nonlinear_arith);
    }
}

/// Merging keeps summaries sound.
pub proof fn lemma_merge_sound(a: Summary, b: Summary)
    requires
        a.sound(),
        b.sound(),
        a.count + b.count <= u64::MAX,
    ensures
        a.merge(b).sound(),
{
    let m = a.merge(b);
    let ca = a.count as int;
    let cb = b.count as int;
    if a.count > 0 && b.count > 0 {
        assert((ca + cb) * m.min <= a.sum + b.sum) by (nonlinear_arith)
            requires
                ca >= 0,
                cb >= 0,
                m.min <= a.min,
                m.min <= b.min,
                ca * a.min <= a.sum,
                cb * b.min <= b.sum,
        ;
        assert((ca + cb) * m.max >= a.sum + b.sum) by (nonlinear_arith)
            requires
                ca >= 0,
                cb >= 0,
                m.max >= a.max,
                m.max >= b.max,
                ca * a.max >= a.sum,
                cb * b.max >= b.sum,
        ;
    }
}

} // verus!
