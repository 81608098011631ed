//! Tabulation: the price-bracket distribution of a record set, its
//! partition by a feature, and the contingency table of a feature.

use vstd::prelude::*;
use crate::record::{Feature, PriceRange, RoomInfo, BRACKETS};

verus! {

/// Sum of the cells of a distribution.
pub open spec fn total(counts: Seq<u64>) -> nat
    decreases counts.len(),
{
    if counts.len() == 0 {
        0
    } else {
        total(counts.drop_last()) + counts.last() as nat
    }
}

/// Number of records in `records` whose price bracket is `b`.
pub open spec fn count_price(records: Seq<RoomInfo>, b: PriceRange) -> nat
    decreases records.len(),
{
    if records.len() == 0 {
        0
    } else {
        count_price(records.drop_last(), b) + if records.last().price == b {
            1nat
        } else {
            0nat
        }
    }
}

/// The records whose value for `f` sits at position `v`, in their order.
pub open spec fn bucket(records: Seq<RoomInfo>, f: Feature, v: int) -> Seq<RoomInfo>
    decreases records.len(),
{
    if records.len() == 0 {
        Seq::empty()
    } else {
        let rest = bucket(records.drop_last(), f, v);
        if records.last().value(f) == v {
            rest.push(records.last())
        } else {
            rest
        }
    }
}

/// The six bracket counts of a record set, in bracket order.
pub open spec fn distribution_of(records: Seq<RoomInfo>) -> Seq<u64> {
    Seq::new(BRACKETS as nat, |k: int| count_price(records, PriceRange::at(k)) as u64)
}

/// The contingency table of `f`: one row per value of the feature, each the
/// bracket distribution of that value's bucket.
pub open spec fn table_of(records: Seq<RoomInfo>, f: Feature) -> Seq<Seq<u64>> {
    Seq::new(f.arity() as nat, |v: int| distribution_of(bucket(records, f, v)))
}

/// Sum of all cells of a table.
pub open spec fn grand_total(table: Seq<Seq<u64>>) -> nat
    decreases table.len(),
{
    if table.len() == 0 {
        0
    } else {
        grand_total(table.drop_last()) + total(table.last())
    }
}

/// A bracket counts no more records than there are.
pub proof fn lemma_count_price_bound(records: Seq<RoomInfo>, b: PriceRange)
    ensures
        count_price(records, b) <= records.len(),
    decreases records.len(),
{
    if records.len() > 0 {
        lemma_count_price_bound(records.drop_last(), b);
    }
}

/// A bucket holds no more records than the set.
pub proof fn lemma_bucket_len(records: Seq<RoomInfo>, f: Feature, v: int)
    ensures
        bucket(records, f, v).len() <= records.len(),
    decreases records.len(),
{
    if records.len() > 0 {
        lemma_bucket_len(records.drop_last(), f, v);
    }
}

/// Changing one cell changes the sum by the difference.
pub proof fn lemma_total_update(counts: Seq<u64>, j: int, x: u64)
    requires
        0 <= j < counts.len(),
    ensures
        total(counts.update(j, x)) + counts[j] == total(counts) + x,
    decreases counts.len(),
{
    let updated = counts.update(j, x);
    if j == counts.len() - 1 {
        assert(updated.drop_last() =~= counts.drop_last());
    } else {
        lemma_total_update(counts.drop_last(), j, x);
        assert(updated.drop_last() =~= counts.drop_last().update(j, x));
    }
}

/// An all-zero distribution has total zero.
pub proof fn lemma_total_zeros(counts: Seq<u64>)
    requires
        forall|k: int| 0 <= k < counts.len() ==> counts[k] == 0,
    ensures
        total(counts) == 0,
    decreases counts.len(),
{
    if counts.len() > 0 {
        lemma_total_zeros(counts.drop_last());
    }
}

/// Bracket counts of a record set: cell `k` holds the number of records in
/// the bracket at position `k`, and the cells sum to the number of records.
pub fn distribution(records: &Vec<RoomInfo>) -> (counts: Vec<u64>)
    ensures
        counts@ == distribution_of(records@),
        total(counts@) == records@.len(),
{
    let mut counts: Vec<u64> = Vec::new();
    let mut k: usize = 0;
    while k < BRACKETS
        invariant
            k <= BRACKETS,
            counts@.len() == k,
            forall|j: int| 0 <= j < k ==> counts@[j] == 0,
        decreases BRACKETS - k,
    {
        counts.push(0);
        k += 1;
    }
    proof {
        lemma_total_zeros(counts@);
    }
    let mut i: usize = 0;
    while i < records.len()
        invariant
            i <= records@.len(),
            counts@.len() == BRACKETS,
            total(counts@) == i,
            forall|j: int|
                0 <= j < BRACKETS ==> counts@[j] == count_price(
                    records@.take(i as int),
                    PriceRange::at(j),
                ),
        decreases records@.len() - i,
    {
        let b: usize = records[i].price.ordinal();
        proof {
            let before = records@.take(i as int);
            let after = records@.take(i + 1);
            assert(after.drop_last() =~= before);
            assert(after.last() == records@[i as int]);
            lemma_count_price_bound(before, PriceRange::at(b as int));
            lemma_total_update(counts@, b as int, (counts@[b as int] + 1) as u64);
        }
        let c: u64 = counts[b];
        counts.set(b, c + 1);
        i += 1;
    }
    proof {
        assert(records@.take(records@.len() as int) =~= records@);
        assert forall|j: int| 0 <= j < BRACKETS implies counts@[j] == distribution_of(
            records@,
        )[j] by {
            lemma_count_price_bound(records@, PriceRange::at(j));
        }
        assert(counts@ =~= distribution_of(records@));
    }
    counts
}

/// The records of one value of a feature, in the order they had.
pub fn select_bucket(records: &Vec<RoomInfo>, f: Feature, v: usize) -> (out: Vec<RoomInfo>)
    ensures
        out@ == bucket(records@, f, v as int),
{
    let mut out: Vec<RoomInfo> = Vec::new();
    let mut i: usize = 0;
    while i < records.len()
        invariant
            i <= records@.len(),
            out@ == bucket(records@.take(i as int), f, v as int),
        decreases records@.len() - i,
    {
        proof {
            let after = records@.take(i + 1);
            assert(after.drop_last() =~= records@.take(i as int));
            assert(after.last() == records@[i as int]);
        }
        if records[i].value_ordinal(f) == v {
            out.push(records[i]);
        }
        i += 1;
    }
    proof {
        assert(records@.take(records@.len() as int) =~= records@);
    }
    out
}

/// The rows of a table held as vectors.
pub open spec fn rows_of(table: Seq<Vec<u64>>) -> Seq<Seq<u64>> {
    Seq::new(table.len(), |v: int| table[v]@)
}

/// Total size of the buckets of the first `k` values of a feature.
pub open spec fn bucket_sizes(records: Seq<RoomInfo>, f: Feature, k: int) -> nat
    decreases k,
{
    if k <= 0 {
        0
    } else {
        bucket_sizes(records, f, k - 1) + bucket(records, f, k - 1).len()
    }
}

/// One more record adds one to the bucket sizes that cover its value.
proof fn lemma_bucket_sizes_step(records: Seq<RoomInfo>, f: Feature, k: int)
    requires
        records.len() > 0,
    ensures
        bucket_sizes(records, f, k) == bucket_sizes(records.drop_last(), f, k) + if 0
            <= records.last().value(f) < k {
            1nat
        } else {
            0nat
        },
    decreases k,
{
    if k > 0 {
        lemma_bucket_sizes_step(records, f, k - 1);
    }
}

/// The buckets of an empty set are empty.
proof fn lemma_bucket_sizes_empty(records: Seq<RoomInfo>, f: Feature, k: int)
    requires
        records.len() == 0,
    ensures
        bucket_sizes(records, f, k) == 0,
    decreases k,
{
    if k > 0 {
        lemma_bucket_sizes_empty(records, f, k - 1);
    }
}

/// Every record falls into exactly one bucket of a feature: the bucket
/// sizes add up to the number of records.
pub proof fn lemma_buckets_cover(records: Seq<RoomInfo>, f: Feature)
    ensures
        bucket_sizes(records, f, f.arity()) == records.len(),
    decreases records.len(),
{
    if records.len() > 0 {
        lemma_buckets_cover(records.drop_last(), f);
        lemma_bucket_sizes_step(records, f, f.arity());
    } else {
        lemma_bucket_sizes_empty(records, f, f.arity());
    }
}

/// Two different buckets of a feature never hold more records than the set.
pub proof fn lemma_buckets_disjoint(records: Seq<RoomInfo>, f: Feature, v: int, w: int)
    requires
        v != w,
    ensures
        bucket(records, f, v).len() + bucket(records, f, w).len() <= records.len(),
    decreases records.len(),
{
    if records.len() > 0 {
        lemma_buckets_disjoint(records.drop_last(), f, v, w);
    }
}

/// The cells of a bracket distribution add up to the number of records.
pub proof fn lemma_distribution_total(records: Seq<RoomInfo>)
    requires
        records.len() <= u64::MAX,
    ensures
        total(distribution_of(records)) == records.len(),
    decreases records.len(),
{
    if records.len() == 0 {
        lemma_total_zeros(distribution_of(records));
    } else {
        let rest = records.drop_last();
        lemma_distribution_total(rest);
        let b = records.last().price.index();
        let before = distribution_of(rest);
        let after = distribution_of(records);
        assert forall|k: int| 0 <= k < BRACKETS implies after[k] == before.update(
            b,
            (before[b] + 1) as u64,
        )[k] by {
            lemma_count_price_bound(rest, PriceRange::at(k));
            lemma_count_price_bound(records, PriceRange::at(k));
        }
        assert(after =~= before.update(b, (before[b] + 1) as u64));
        lemma_count_price_bound(rest, PriceRange::at(b));
        lemma_total_update(before, b, (before[b] + 1) as u64);
    }
}

/// The contingency table of a feature over a record set: cell `(v, k)`
/// counts the records with the feature's value `v` in bracket `k`. All cells
/// together add up to the number of records.
pub fn contingency_table(records: &Vec<RoomInfo>, f: Feature) -> (table: Vec<Vec<u64>>)
    ensures
        rows_of(table@) == table_of(records@, f),
        grand_total(rows_of(table@)) == records@.len(),
{
    let n: usize = f.value_count();
    let mut table: Vec<Vec<u64>> = Vec::new();
    let mut v: usize = 0;
    while v < n
        invariant
            n == f.arity(),
            v <= n,
            table@.len() == v,
            forall|w: int|
                0 <= w < v ==> (#[trigger] table@[w])@ == distribution_of(bucket(records@, f, w)),
            grand_total(rows_of(table@)) == bucket_sizes(records@, f, v as int),
        decreases n - v,
    {
        let one = select_bucket(records, f, v);
        let row = distribution(&one);
        proof {
            let grown = table@.push(row);
            assert(rows_of(grown).drop_last() =~= rows_of(table@));
            assert(rows_of(grown).last() == row@);
        }
        table.push(row);
        v += 1;
    }
    proof {
        lemma_buckets_cover(records@, f);
        assert(rows_of(table@) =~= table_of(records@, f));
    }
    table
}

} // verus!
