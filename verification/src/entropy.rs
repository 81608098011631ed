//! Entropy and gain ratio in fixed point.
//!
//! Entropies are counted in bits and held as unsigned fixed-point numbers
//! with 32 fractional bits: `ONE_BIT` stands for one bit of entropy. A gain
//! ratio is kept as the exact fraction of two such numbers and ordered by
//! cross-multiplication, so no division rounds a ratio.

use vstd::arithmetic::power2::{
    lemma2_to64, lemma2_to64_rest, lemma_pow2_pos, lemma_pow2_strictly_increases,
    lemma_pow2_unfold, pow2,
};
use vstd::prelude::*;
use crate::tabulate::{grand_total, rows_of, total};

verus! {

/// One bit of entropy in fixed point.
pub const ONE_BIT: u64 = 0x1_0000_0000;

/// Upper bound of every logarithm and entropy computed here: 64 bits.
pub const LOG_LIMIT: u64 = 0x40_0000_0000;

/// The fractional digits of the binary logarithm of a mantissa, most
/// significant first. `x` is the mantissa scaled by 2^63, so it stands for a
/// number in [1, 2); `weight` is the value of the next digit. Each step
/// squares the mantissa, keeps its upper 64 bits, and emits a one when the
/// square reached 2.
pub open spec fn fraction_digits(x: nat, weight: nat) -> nat
    decreases weight,
{
    if weight == 0 {
        0
    } else {
        let y = x * x;
        if y >= 0x8000_0000_0000_0000_0000_0000_0000_0000 {
            weight + fraction_digits(y / 0x1_0000_0000_0000_0000, weight / 2)
        } else {
            fraction_digits(y / 0x8000_0000_0000_0000, weight / 2)
        }
    }
}

/// The logarithm of `x / 2^(63 - e)`: `x` is doubled until its top bit is
/// set, `e` counting down, and the fraction digits follow the integer part.
pub open spec fn log2_from(x: nat, e: nat) -> nat
    decreases e,
{
    if e == 0 || x >= 0x8000_0000_0000_0000 {
        e * 0x1_0000_0000 + fraction_digits(x, 0x8000_0000)
    } else {
        log2_from(2 * x, (e - 1) as nat)
    }
}

/// Binary logarithm of `n` in fixed point, rounded down digit by digit; the
/// logarithm of zero is taken as zero.
pub open spec fn log2_fixed(n: u64) -> nat {
    if n == 0 {
        0
    } else {
        log2_from(n as nat, 63)
    }
}

/// `a - b`, or zero where `b` is above `a`.
pub open spec fn monus(a: nat, b: nat) -> nat {
    if a >= b {
        (a - b) as nat
    } else {
        0
    }
}

/// Sum over the cells of `c * (log_n - log2(c))`: the entropy of the
/// distribution times its total, when `log_n` is the logarithm of the total.
/// The logarithm never decreases (`lemma_log2_monotone`), so with that
/// `log_n` no difference is cut off.
pub open spec fn surprisal_sum(counts: Seq<u64>, log_n: nat) -> nat
    decreases counts.len(),
{
    if counts.len() == 0 {
        0
    } else {
        surprisal_sum(counts.drop_last(), log_n) + (counts.last() as nat) * monus(
            log_n,
            log2_fixed(counts.last()),
        )
    }
}

/// Number of cells with a nonzero count.
pub open spec fn nonzero_cells(counts: Seq<u64>) -> nat
    decreases counts.len(),
{
    if counts.len() == 0 {
        0
    } else {
        nonzero_cells(counts.drop_last()) + if counts.last() != 0 {
            1nat
        } else {
            0nat
        }
    }
}

/// Shannon entropy of a distribution given as raw counts, in fixed point.
/// A distribution with at most one nonzero cell has entropy zero; any other
/// has a positive entropy, which rounding never takes down to zero.
pub open spec fn entropy_of(counts: Seq<u64>) -> nat {
    if nonzero_cells(counts) <= 1 {
        0
    } else {
        let n = total(counts);
        let h = surprisal_sum(counts, log2_fixed(n as u64)) / n;
        if h == 0 {
            1
        } else {
            h
        }
    }
}

/// The row sums of a table: the feature's own distribution.
pub open spec fn row_sums(rows: Seq<Seq<u64>>) -> Seq<u64> {
    Seq::new(rows.len(), |v: int| total(rows[v]) as u64)
}

/// Sum over the rows of the row's total times the row's entropy.
pub open spec fn weighted_entropy_sum(rows: Seq<Seq<u64>>) -> nat
    decreases rows.len(),
{
    if rows.len() == 0 {
        0
    } else {
        weighted_entropy_sum(rows.drop_last()) + total(rows.last()) * entropy_of(rows.last())
    }
}

/// Average of the row entropies, each weighted by the row's share of the
/// grand total; zero for an all-zero table.
pub open spec fn conditional_entropy_of(rows: Seq<Seq<u64>>) -> nat {
    if grand_total(rows) == 0 {
        0
    } else {
        weighted_entropy_sum(rows) / grand_total(rows)
    }
}

/// Entropy of the feature's own distribution, the row sums.
pub open spec fn split_info_of(rows: Seq<Seq<u64>>) -> nat {
    entropy_of(row_sums(rows))
}

/// The cells of a prefix add up to no more than all cells.
pub proof fn lemma_total_prefix(counts: Seq<u64>, i: int)
    requires
        0 <= i <= counts.len(),
    ensures
        total(counts.take(i)) <= total(counts),
    decreases counts.len(),
{
    if i == counts.len() {
        assert(counts.take(i) =~= counts);
    } else {
        lemma_total_prefix(counts.drop_last(), i);
        assert(counts.drop_last().take(i) =~= counts.take(i));
    }
}

/// The rows of a prefix add up to no more than all rows.
pub proof fn lemma_grand_total_prefix(rows: Seq<Seq<u64>>, i: int)
    requires
        0 <= i <= rows.len(),
    ensures
        grand_total(rows.take(i)) <= grand_total(rows),
    decreases rows.len(),
{
    if i == rows.len() {
        assert(rows.take(i) =~= rows);
    } else {
        lemma_grand_total_prefix(rows.drop_last(), i);
        assert(rows.drop_last().take(i) =~= rows.take(i));
    }
}

/// Binary logarithm of `n` in fixed point.
pub fn log2(n: u64) -> (r: u64)
    ensures
        r == log2_fixed(n),
        r < LOG_LIMIT,
{
    if n == 0 {
        return 0;
    }
    let mut x: u64 = n;
    let mut e: u64 = 63;
    while e > 0 && x < 0x8000_0000_0000_0000
        invariant
            e <= 63,
            log2_from(x as nat, e as nat) == log2_from(n as nat, 63),
        decreases e,
    {
        x = x * 2;
        e = e - 1;
    }
    let mut acc: u64 = 0;
    let mut weight: u64 = 0x8000_0000;
    let ghost start: nat = x as nat;
    while weight > 0
        invariant
            acc + 2 * weight <= 0x1_0000_0000,
            acc < 0x1_0000_0000,
            acc + fraction_digits(x as nat, weight as nat) == fraction_digits(start, 0x8000_0000),
        decreases weight,
    {
        assert((x as int) * (x as int) <= 0xFFFF_FFFF_FFFF_FFFF * 0xFFFF_FFFF_FFFF_FFFF)
            by (nonlinear_arith)
            requires
                0 <= x <= 0xFFFF_FFFF_FFFF_FFFF,
        ;
        let y: u128 = (x as u128) * (x as u128);
        if y >= 0x8000_0000_0000_0000_0000_0000_0000_0000 {
            x = (y / 0x1_0000_0000_0000_0000) as u64;
            acc = acc + weight;
        } else {
            x = (y / 0x8000_0000_0000_0000) as u64;
        }
        weight = weight / 2;
    }
    e * 0x1_0000_0000 + acc
}

/// Sum of the cells of a distribution.
pub fn sum(counts: &Vec<u64>) -> (n: u64)
    requires
        total(counts@) <= u64::MAX,
    ensures
        n == total(counts@),
{
    let mut n: u64 = 0;
    let mut i: usize = 0;
    while i < counts.len()
        invariant
            i <= counts@.len(),
            n == total(counts@.take(i as int)),
            total(counts@) <= u64::MAX,
        decreases counts@.len() - i,
    {
        proof {
            assert(counts@.take(i + 1).drop_last() =~= counts@.take(i as int));
            lemma_total_prefix(counts@, i + 1);
        }
        n = n + counts[i];
        i += 1;
    }
    proof {
        assert(counts@.take(counts@.len() as int) =~= counts@);
    }
    n
}

/// Shannon entropy, in fixed-point bits, of a distribution given as raw
/// counts. Zero exactly when at most one cell is nonzero, which covers the
/// all-zero distribution.
pub fn info_entropy(counts: &Vec<u64>) -> (h: u64)
    requires
        total(counts@) <= u64::MAX,
    ensures
        h == entropy_of(counts@),
        h < LOG_LIMIT,
        h == 0 <==> nonzero_cells(counts@) <= 1,
{
    let n: u64 = sum(counts);
    let log_n: u64 = log2(n);
    let mut weighted: u128 = 0;
    let mut present: usize = 0;
    let mut i: usize = 0;
    while i < counts.len()
        invariant
            i <= counts@.len(),
            n == total(counts@),
            log_n == log2_fixed(n),
            log_n < LOG_LIMIT,
            weighted == surprisal_sum(counts@.take(i as int), log_n as nat),
            weighted <= total(counts@.take(i as int)) * log_n,
            present == nonzero_cells(counts@.take(i as int)),
            present <= i,
        decreases counts@.len() - i,
    {
        let c: u64 = counts[i];
        let log_c: u64 = log2(c);
        proof {
            lemma_cell_within_total(counts@, i as int);
            lemma_log2_monotone(c, n);
        }
        let d: u64 = log_n - log_c;
        proof {
            assert(counts@.take(i + 1).drop_last() =~= counts@.take(i as int));
            lemma_total_prefix(counts@, i + 1);
            let t = total(counts@.take(i as int));
            assert(c * d <= c * log_n) by (nonlinear_arith)
                requires
                    0 <= d <= log_n,
                    0 <= c,
            ;
            assert((t + c) * log_n == t * log_n + c * log_n) by (nonlinear_arith);
            assert((t + c) * log_n <= 0xFFFF_FFFF_FFFF_FFFF * 0x40_0000_0000) by (nonlinear_arith)
                requires
                    0 <= t + c <= 0xFFFF_FFFF_FFFF_FFFF,
                    0 <= log_n <= 0x40_0000_0000,
            ;
        }
        weighted = weighted + (c as u128) * (d as u128);
        if c != 0 {
            present = present + 1;
        }
        i += 1;
    }
    proof {
        assert(counts@.take(counts@.len() as int) =~= counts@);
    }
    if present <= 1 {
        0
    } else {
        proof {
            lemma_present_total(counts@);
            assert(weighted / (n as u128) <= log_n) by (nonlinear_arith)
                requires
                    0 <= weighted <= n * log_n,
                    n > 0,
            ;
        }
        let h: u64 = (weighted / (n as u128)) as u64;
        if h == 0 {
            1
        } else {
            h
        }
    }
}

/// No cell is above the total.
pub proof fn lemma_cell_within_total(counts: Seq<u64>, i: int)
    requires
        0 <= i < counts.len(),
    ensures
        counts[i] <= total(counts),
    decreases counts.len(),
{
    if i < counts.len() - 1 {
        lemma_cell_within_total(counts.drop_last(), i);
    }
}

/// A distribution with a nonzero cell has a positive total.
pub proof fn lemma_present_total(counts: Seq<u64>)
    requires
        nonzero_cells(counts) >= 1,
    ensures
        total(counts) >= 1,
    decreases counts.len(),
{
    if counts.len() > 0 && counts.last() == 0 {
        lemma_present_total(counts.drop_last());
    }
}

/// Conditional entropy and split information of a contingency table: the
/// average of the row entropies weighted by the row sums, and the entropy of
/// the row sums.
pub fn attribute_entropy(table: &Vec<Vec<u64>>) -> (r: (u64, u64))
    requires
        grand_total(rows_of(table@)) <= u64::MAX,
    ensures
        r.0 == conditional_entropy_of(rows_of(table@)),
        r.1 == split_info_of(rows_of(table@)),
        r.0 < LOG_LIMIT,
        r.1 < LOG_LIMIT,
{
    let ghost rows = rows_of(table@);
    let mut sums: Vec<u64> = Vec::new();
    let mut all: u64 = 0;
    let mut weighted: u128 = 0;
    let mut i: usize = 0;
    while i < table.len()
        invariant
            i <= table@.len(),
            rows == rows_of(table@),
            grand_total(rows) <= u64::MAX,
            sums@ == row_sums(rows.take(i as int)),
            all == grand_total(rows.take(i as int)),
            all == total(sums@),
            weighted == weighted_entropy_sum(rows.take(i as int)),
            weighted <= all * (LOG_LIMIT - 1),
        decreases table@.len() - i,
    {
        proof {
            assert(rows.take(i + 1).drop_last() =~= rows.take(i as int));
            assert(rows.take(i + 1).last() == table@[i as int]@);
            lemma_grand_total_prefix(rows, i + 1);
        }
        let row_sum: u64 = sum(&table[i]);
        let h: u64 = info_entropy(&table[i]);
        proof {
            assert(row_sum * h <= row_sum * (LOG_LIMIT - 1)) by (nonlinear_arith)
                requires
                    0 <= h <= LOG_LIMIT - 1,
                    0 <= row_sum,
            ;
            assert((all + row_sum) * (LOG_LIMIT - 1) == all * (LOG_LIMIT - 1) + row_sum * (
            LOG_LIMIT - 1)) by (nonlinear_arith);
            assert((all + row_sum) * (LOG_LIMIT - 1) <= 0xFFFF_FFFF_FFFF_FFFF * 0x40_0000_0000)
                by (nonlinear_arith)
                requires
                    0 <= all + row_sum <= 0xFFFF_FFFF_FFFF_FFFF,
                    LOG_LIMIT == 0x40_0000_0000,
            ;
            let grown = sums@.push(row_sum);
            assert(grown.drop_last() =~= sums@);
            assert(grown =~= row_sums(rows.take(i + 1)));
        }
        weighted = weighted + (row_sum as u128) * (h as u128);
        all = all + row_sum;
        sums.push(row_sum);
        i += 1;
    }
    proof {
        assert(rows.take(table@.len() as int) =~= rows);
    }
    let split: u64 = info_entropy(&sums);
    if all == 0 {
        (0, split)
    } else {
        proof {
            assert(weighted / (all as u128) <= LOG_LIMIT - 1) by (nonlinear_arith)
                requires
                    0 <= weighted <= all * (LOG_LIMIT - 1),
                    all > 0,
            ;
        }
        ((weighted / (all as u128)) as u64, split)
    }
}

/// An information-gain ratio: the gain over the split information, kept as
/// the exact fraction, or the mark of a feature that cannot be split on.
#[derive(Debug, Clone, Copy, PartialEq, Eq, Structural)]
pub enum GainRatio {
    /// The split information is zero: the feature has at most one observed
    /// value, and the ratio is undefined. Ranks below every defined ratio.
    Ineligible,
    /// `gain / split` with `split > 0`, both in fixed-point bits.
    Ratio { gain: u64, split: u64 },
}

impl GainRatio {
    pub open spec fn well_formed(self) -> bool {
        match self {
            GainRatio::Ineligible => true,
            GainRatio::Ratio { gain, split } => split > 0,
        }
    }

    /// `self` is strictly greater than `other`: a defined ratio exceeds an
    /// undefined one, and two defined ratios are ordered as fractions.
    pub open spec fn exceeds(self, other: GainRatio) -> bool {
        match (self, other) {
            (GainRatio::Ineligible, _) => false,
            (GainRatio::Ratio { .. }, GainRatio::Ineligible) => true,
            (
                GainRatio::Ratio { gain: g1, split: s1 },
                GainRatio::Ratio { gain: g2, split: s2 },
            ) => g1 * s2 > g2 * s1,
        }
    }

    pub fn is_greater(&self, other: &GainRatio) -> (r: bool)
        ensures
            r == self.exceeds(*other),
    {
        match (self, other) {
            (GainRatio::Ineligible, _) => false,
            (GainRatio::Ratio { .. }, GainRatio::Ineligible) => true,
            (
                GainRatio::Ratio { gain: g1, split: s1 },
                GainRatio::Ratio { gain: g2, split: s2 },
            ) => {
                proof {
                    assert(*g1 * *s2 <= 0xFFFF_FFFF_FFFF_FFFF * 0xFFFF_FFFF_FFFF_FFFF)
                        by (nonlinear_arith)
                        requires
                            0 <= *g1 <= 0xFFFF_FFFF_FFFF_FFFF,
                            0 <= *s2 <= 0xFFFF_FFFF_FFFF_FFFF,
                    ;
                    assert(*g2 * *s1 <= 0xFFFF_FFFF_FFFF_FFFF * 0xFFFF_FFFF_FFFF_FFFF)
                        by (nonlinear_arith)
                        requires
                            0 <= *g2 <= 0xFFFF_FFFF_FFFF_FFFF,
                            0 <= *s1 <= 0xFFFF_FFFF_FFFF_FFFF,
                    ;
                }
                (*g1 as u128) * (*s2 as u128) > (*g2 as u128) * (*s1 as u128)
            },
        }
    }
}

/// The gain ratio of a split: `(parent - conditional) / split`, undefined
/// when the split information is zero. A gain that rounding has put below
/// zero counts as zero.
pub open spec fn gain_ratio_of(parent: u64, conditional: u64, split: u64) -> GainRatio {
    if split == 0 {
        GainRatio::Ineligible
    } else {
        GainRatio::Ratio { gain: monus(parent as nat, conditional as nat) as u64, split }
    }
}

/// The gain ratio of a split from its three entropies: see `gain_ratio_of`.
pub fn gain_ratio(parent_entropy: u64, conditional_entropy: u64, split_info: u64) -> (r: GainRatio)
    ensures
        r == gain_ratio_of(parent_entropy, conditional_entropy, split_info),
        r.well_formed(),
        r is Ineligible <==> split_info == 0,
{
    if split_info == 0 {
        GainRatio::Ineligible
    } else if parent_entropy >= conditional_entropy {
        GainRatio::Ratio { gain: parent_entropy - conditional_entropy, split: split_info }
    } else {
        GainRatio::Ratio { gain: 0, split: split_info }
    }
}

/// The order on gain ratios is transitive in the form the selection needs:
/// what exceeds `b` exceeds everything that does not exceed `b`.
pub proof fn lemma_exceeds_transitive(a: GainRatio, b: GainRatio, c: GainRatio)
    requires
        a.well_formed(),
        b.well_formed(),
        c.well_formed(),
        a.exceeds(b),
        !c.exceeds(b),
    ensures
        a.exceeds(c),
        !c.exceeds(a),
{
    match (a, b, c) {
        (
            GainRatio::Ratio { gain: ga, split: sa },
            GainRatio::Ratio { gain: gb, split: sb },
            GainRatio::Ratio { gain: gc, split: sc },
        ) => {
            assert(ga * sc > gc * sa) by (nonlinear_arith)
                requires
                    ga * sb > gb * sa,
                    gc * sb <= gb * sc,
                    sa > 0,
                    sb > 0,
                    sc > 0,
                    ga >= 0,
                    gb >= 0,
                    gc >= 0,
            ;
        },
        _ => {},
    }
}

/// A defined gain ratio is never negative: zero does not exceed it.
pub proof fn lemma_gain_ratio_nonnegative(parent: u64, conditional: u64, split: u64)
    requires
        split > 0,
    ensures
        !(GainRatio::Ratio { gain: 0, split: 1 }).exceeds(
            gain_ratio_of(parent, conditional, split),
        ),
{
    let r = gain_ratio_of(parent, conditional, split);
    match r {
        GainRatio::Ratio { gain, split: s } => {
            assert(0 * s == 0) by (nonlinear_arith);
            assert(gain * 1 >= 0) by (nonlinear_arith)
                requires
                    gain >= 0,
            ;
        },
        _ => {},
    }
}

/// The entropy of a distribution with a positive total is zero exactly when
/// one single cell is nonzero; an entropy is never negative.
pub proof fn lemma_entropy_zero_iff_pure(counts: Seq<u64>)
    requires
        total(counts) > 0,
    ensures
        entropy_of(counts) >= 0,
        entropy_of(counts) == 0 <==> nonzero_cells(counts) == 1,
{
    if nonzero_cells(counts) == 0 {
        lemma_absent_total(counts);
    }
}

/// A distribution without a nonzero cell has total zero.
pub proof fn lemma_absent_total(counts: Seq<u64>)
    requires
        nonzero_cells(counts) == 0,
    ensures
        total(counts) == 0,
    decreases counts.len(),
{
    if counts.len() > 0 {
        lemma_absent_total(counts.drop_last());
    }
}

/// The fraction digits stay below twice the weight of the first digit.
pub proof fn lemma_fraction_bound(x: nat, weight: nat)
    ensures
        fraction_digits(x, weight) <= 2 * weight,
        weight > 0 ==> fraction_digits(x, weight) < 2 * weight,
    decreases weight,
{
    if weight > 0 {
        let y = x * x;
        lemma_fraction_bound(y / 0x1_0000_0000_0000_0000, weight / 2);
        lemma_fraction_bound(y / 0x8000_0000_0000_0000, weight / 2);
    }
}

/// A larger mantissa never has smaller fraction digits.
pub proof fn lemma_fraction_monotone(x: nat, y: nat, weight: nat)
    requires
        x <= y,
    ensures
        fraction_digits(x, weight) <= fraction_digits(y, weight),
    decreases weight,
{
    if weight > 0 {
        let xx = x * x;
        let yy = y * y;
        assert(xx <= yy) by (nonlinear_arith)
            requires
                x <= y,
                xx == x * x,
                yy == y * y,
        ;
        lemma_fraction_monotone(
            xx / 0x1_0000_0000_0000_0000,
            yy / 0x1_0000_0000_0000_0000,
            weight / 2,
        );
        lemma_fraction_monotone(xx / 0x8000_0000_0000_0000, yy / 0x8000_0000_0000_0000, weight / 2);
        lemma_fraction_bound(xx / 0x8000_0000_0000_0000, weight / 2);
    }
}

/// A logarithm with integer part `e` lies in `[e, e + 1)`.
pub proof fn lemma_log2_from_bounds(x: nat, e: nat)
    ensures
        log2_from(x, e) < (e + 1) * 0x1_0000_0000,
        x >= 0x8000_0000_0000_0000 ==> log2_from(x, e) >= e * 0x1_0000_0000,
    decreases e,
{
    lemma_fraction_bound(x, 0x8000_0000);
    if !(e == 0 || x >= 0x8000_0000_0000_0000) {
        lemma_log2_from_bounds(2 * x, (e - 1) as nat);
    }
}

/// With the same exponent, a larger number never has a smaller logarithm.
proof fn lemma_log2_from_monotone(x: nat, y: nat, e: nat)
    requires
        x <= y,
    ensures
        log2_from(x, e) <= log2_from(y, e),
    decreases e,
{
    lemma_fraction_monotone(x, y, 0x8000_0000);
    if e > 0 && x < 0x8000_0000_0000_0000 {
        if y < 0x8000_0000_0000_0000 {
            lemma_log2_from_monotone(2 * x, 2 * y, (e - 1) as nat);
        } else {
            lemma_log2_from_bounds(2 * x, (e - 1) as nat);
            lemma_log2_from_bounds(y, e);
        }
    }
}

/// The fixed-point logarithm never decreases: within an entropy, where no
/// cell is above the total, no difference of logarithms is cut off.
pub proof fn lemma_log2_monotone(a: u64, b: u64)
    requires
        a <= b,
    ensures
        log2_fixed(a) <= log2_fixed(b),
{
    if a > 0 {
        lemma_log2_from_monotone(a as nat, b as nat, 63);
    }
}

/// The mantissa one has no fraction digits.
proof fn lemma_fraction_of_one(weight: nat)
    ensures
        fraction_digits(0x8000_0000_0000_0000, weight) == 0,
    decreases weight,
{
    if weight > 0 {
        assert(0x8000_0000_0000_0000nat * 0x8000_0000_0000_0000nat
            == 0x4000_0000_0000_0000_0000_0000_0000_0000nat) by (nonlinear_arith);
        lemma_fraction_of_one(weight / 2);
    }
}

/// Normalising `2^j` ends at the mantissa one with the exponent lowered by
/// the doublings made.
proof fn lemma_log2_from_power(j: nat, e: nat)
    requires
        j <= 63,
        e + j >= 63,
    ensures
        log2_from(pow2(j), e) == (e + j - 63) * 0x1_0000_0000,
    decreases 63 - j,
{
    lemma2_to64();
    lemma2_to64_rest();
    if j == 63 {
        lemma_fraction_of_one(0x8000_0000);
    } else {
        lemma_pow2_strictly_increases(j, 63);
        lemma_pow2_unfold(j + 1);
        lemma_log2_from_power(j + 1, (e - 1) as nat);
    }
}

/// The logarithm is exact on powers of two: the logarithm of `2^k` is `k`
/// bits.
pub proof fn lemma_log2_of_power(n: u64, k: nat)
    requires
        k <= 63,
        n == pow2(k),
    ensures
        log2_fixed(n) == k * ONE_BIT,
{
    lemma_pow2_pos(k);
    lemma_log2_from_power(k, 63);
}

/// The logarithm of a number between two powers of two lies between their
/// exponents: its integer part is right.
pub proof fn lemma_log2_between_exponents(n: u64, k: nat)
    requires
        k <= 63,
        pow2(k) <= n,
        n < pow2(k + 1),
    ensures
        k * ONE_BIT <= log2_fixed(n) <= (k + 1) * ONE_BIT,
{
    lemma_pow2_pos(k);
    lemma2_to64();
    lemma2_to64_rest();
    lemma_pow2_strictly_increases(k, 64);
    let low = pow2(k) as u64;
    lemma_log2_of_power(low, k);
    lemma_log2_monotone(low, n);
    if k < 63 {
        lemma_pow2_strictly_increases(k + 1, 64);
        let high = pow2(k + 1) as u64;
        lemma_log2_of_power(high, k + 1);
        lemma_log2_monotone(n, high);
    } else {
        lemma_log2_from_bounds(n as nat, 63);
    }
}

} // verus!
