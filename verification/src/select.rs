//! Attribute selection: which feature a record set is split on, or which
//! leaf it becomes.

use vstd::prelude::*;
use crate::entropy::{
    attribute_entropy, conditional_entropy_of, entropy_of, gain_ratio, gain_ratio_of,
    info_entropy, lemma_exceeds_transitive, split_info_of, GainRatio,
};
use crate::record::{Feature, PriceRange, RoomInfo, BRACKETS, FEATURES};
use crate::tabulate::{contingency_table, distribution, distribution_of, table_of};

verus! {

/// What a tree node stands for.
#[derive(Debug, Clone, Copy, PartialEq, Eq, Structural)]
pub enum Attribute {
    /// An internal node that branches on a feature.
    Split(Feature),
    /// A leaf that predicts a bracket.
    Leaf(PriceRange),
    /// The leaf of an empty partition: no data, no prediction.
    Null,
}

/// Position of the first largest cell among the first `k` cells.
pub open spec fn mode_upto(counts: Seq<u64>, k: int) -> int
    decreases k,
{
    if k <= 1 {
        0
    } else {
        let m = mode_upto(counts, k - 1);
        if counts[k - 1] > counts[m] {
            k - 1
        } else {
            m
        }
    }
}

/// Position of the first greatest ratio among the first `k` ratios.
pub open spec fn best_upto(ratios: Seq<GainRatio>, k: int) -> int
    decreases k,
{
    if k <= 1 {
        0
    } else {
        let b = best_upto(ratios, k - 1);
        if ratios[k - 1].exceeds(ratios[b]) {
            k - 1
        } else {
            b
        }
    }
}

/// The gain ratio of a feature over a record set.
pub open spec fn ratio_of(records: Seq<RoomInfo>, f: Feature) -> GainRatio {
    let rows = table_of(records, f);
    gain_ratio_of(
        entropy_of(distribution_of(records)) as u64,
        conditional_entropy_of(rows) as u64,
        split_info_of(rows) as u64,
    )
}

/// The gain ratios of the four features, in priority order.
pub open spec fn ratios_of(records: Seq<RoomInfo>) -> Seq<GainRatio> {
    Seq::new(FEATURES as nat, |i: int| ratio_of(records, Feature::at(i)))
}

/// The most frequent bracket of a record set, the earliest on a tie.
pub open spec fn majority_of(records: Seq<RoomInfo>) -> PriceRange {
    PriceRange::at(mode_upto(distribution_of(records), BRACKETS as int))
}

/// The selection rule. An empty set is the no-data leaf. A pure set is the
/// leaf of its only bracket. Otherwise the feature with the greatest gain
/// ratio is split on, the earliest in priority order on a tie; where no
/// feature can be split on, the set becomes the leaf of its most frequent
/// bracket.
pub open spec fn choice_of(records: Seq<RoomInfo>) -> Attribute {
    if records.len() == 0 {
        Attribute::Null
    } else if entropy_of(distribution_of(records)) == 0 {
        Attribute::Leaf(majority_of(records))
    } else {
        let best = best_upto(ratios_of(records), FEATURES as int);
        if ratios_of(records)[best] is Ineligible {
            Attribute::Leaf(majority_of(records))
        } else {
            Attribute::Split(Feature::at(best))
        }
    }
}

/// The mode of the first `k` cells is one of them.
pub proof fn lemma_mode_in_range(counts: Seq<u64>, k: int)
    requires
        1 <= k,
    ensures
        0 <= mode_upto(counts, k) < k,
    decreases k,
{
    if k > 1 {
        lemma_mode_in_range(counts, k - 1);
    }
}

/// The mode is a largest cell, and the first such: no cell is above it,
/// and every earlier cell is below it.
pub proof fn lemma_mode_is_first_largest(counts: Seq<u64>, k: int)
    requires
        1 <= k <= counts.len(),
    ensures
        forall|i: int| 0 <= i < k ==> #[trigger] counts[i] <= counts[mode_upto(counts, k)],
        forall|i: int|
            0 <= i < mode_upto(counts, k) ==> #[trigger] counts[i] < counts[mode_upto(counts, k)],
    decreases k,
{
    lemma_mode_in_range(counts, k);
    if k > 1 {
        lemma_mode_is_first_largest(counts, k - 1);
        lemma_mode_in_range(counts, k - 1);
    }
}

/// The best of the first `k` ratios is one of them.
pub proof fn lemma_best_in_range(ratios: Seq<GainRatio>, k: int)
    requires
        1 <= k,
    ensures
        0 <= best_upto(ratios, k) < k,
    decreases k,
{
    if k > 1 {
        lemma_best_in_range(ratios, k - 1);
    }
}

/// The selected position holds a greatest ratio, and it is the first such
/// position: no ratio exceeds it, and it exceeds every earlier one.
pub proof fn lemma_best_is_first_greatest(ratios: Seq<GainRatio>, k: int)
    requires
        1 <= k <= ratios.len(),
        forall|i: int| 0 <= i < ratios.len() ==> (#[trigger] ratios[i]).well_formed(),
    ensures
        forall|i: int| 0 <= i < k ==> !(#[trigger] ratios[i]).exceeds(ratios[best_upto(ratios, k)]),
        forall|i: int|
            0 <= i < best_upto(ratios, k) ==> ratios[best_upto(ratios, k)].exceeds(
                #[trigger] ratios[i],
            ),
    decreases k,
{
    lemma_best_in_range(ratios, k);
    if k > 1 {
        lemma_best_is_first_greatest(ratios, k - 1);
        lemma_best_in_range(ratios, k - 1);
        let before = best_upto(ratios, k - 1);
        let last = ratios[k - 1];
        if last.exceeds(ratios[before]) {
            assert forall|i: int| 0 <= i < k - 1 implies last.exceeds(#[trigger] ratios[i])
                && !ratios[i].exceeds(last) by {
                lemma_exceeds_transitive(last, ratios[before], ratios[i]);
            }
            lemma_irreflexive(last);
        }
    } else {
        lemma_irreflexive(ratios[0]);
    }
}

/// No ratio exceeds itself.
pub proof fn lemma_irreflexive(a: GainRatio)
    ensures
        !a.exceeds(a),
{
}

/// Position of the first largest cell of a distribution.
pub fn mode(counts: &Vec<u64>) -> (m: usize)
    requires
        counts@.len() >= 1,
    ensures
        m == mode_upto(counts@, counts@.len() as int),
        m < counts@.len(),
{
    let mut m: usize = 0;
    let mut k: usize = 1;
    while k < counts.len()
        invariant
            1 <= k <= counts@.len(),
            m == mode_upto(counts@, k as int),
            m < k,
        decreases counts@.len() - k,
    {
        if counts[k] > counts[m] {
            m = k;
        }
        k += 1;
    }
    m
}

/// Position of the first greatest of a list of gain ratios.
pub fn select_best(ratios: &Vec<GainRatio>) -> (b: usize)
    requires
        ratios@.len() >= 1,
    ensures
        b == best_upto(ratios@, ratios@.len() as int),
        b < ratios@.len(),
{
    let mut b: usize = 0;
    let mut k: usize = 1;
    while k < ratios.len()
        invariant
            1 <= k <= ratios@.len(),
            b == best_upto(ratios@, k as int),
            b < k,
        decreases ratios@.len() - k,
    {
        if ratios[k].is_greater(&ratios[b]) {
            b = k;
        }
        k += 1;
    }
    b
}

/// Decides what a record set becomes in the tree: see `choice_of`.
pub fn chose_attribute(node_vec: &Vec<RoomInfo>) -> (choice: Attribute)
    ensures
        choice == choice_of(node_vec@),
{
    if node_vec.len() == 0 {
        return Attribute::Null;
    }
    let price_dist = distribution(node_vec);
    let parent: u64 = info_entropy(&price_dist);
    let majority = PriceRange::from_ordinal(mode(&price_dist));
    if parent == 0 {
        return Attribute::Leaf(majority);
    }
    let mut ratios: Vec<GainRatio> = Vec::new();
    let mut i: usize = 0;
    while i < FEATURES
        invariant
            i <= FEATURES,
            ratios@.len() == i,
            node_vec@.len() <= usize::MAX,
            parent == entropy_of(distribution_of(node_vec@)),
            forall|j: int| 0 <= j < i ==> ratios@[j] == ratio_of(node_vec@, Feature::at(j)),
        decreases FEATURES - i,
    {
        let f = Feature::from_ordinal(i);
        let table = contingency_table(node_vec, f);
        let (conditional, split) = attribute_entropy(&table);
        ratios.push(gain_ratio(parent, conditional, split));
        i += 1;
    }
    assert(ratios@ =~= ratios_of(node_vec@));
    let best: usize = select_best(&ratios);
    match ratios[best] {
        GainRatio::Ineligible => Attribute::Leaf(majority),
        GainRatio::Ratio { .. } => Attribute::Split(Feature::from_ordinal(best)),
    }
}

} // verus!
