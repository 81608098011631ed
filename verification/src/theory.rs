//! What holds of every built tree: it is well formed and small, the walk
//! follows the record sets and passes at most one split per feature, the
//! tree has a single root, ties go to the earlier feature, a set of one
//! bracket is a single leaf, and building is repeatable.

use vstd::prelude::*;
use crate::entropy::{nonzero_cells, row_sums};
use crate::record::{Feature, PriceRange, RoomInfo, BRACKETS, FEATURES};
use crate::select::{
    best_upto, choice_of, lemma_best_in_range, lemma_best_is_first_greatest, mode_upto, ratio_of,
    ratios_of, Attribute,
};
use crate::tabulate::{bucket, count_price, distribution_of, lemma_distribution_total, table_of};
use crate::tree::{
    built, grown, lemma_split_shrinks, node_ok, prediction, tree_of, well_formed, NodeView,
};

verus! {

/// Number of internal nodes that the walk from node `id` passes.
pub open spec fn walk_length(nodes: Seq<NodeView>, id: int, record: RoomInfo) -> nat
    decreases id,
{
    if id < 0 || id >= nodes.len() {
        0
    } else {
        match nodes[id].attribute {
            Attribute::Split(f) => {
                let v = record.value(f);
                if 0 <= v < nodes[id].children.len() && nodes[id].children[v] < id {
                    1 + walk_length(nodes, nodes[id].children[v] as int, record)
                } else {
                    0
                }
            },
            _ => 0,
        }
    }
}

/// The label that a record gets from the record sets themselves: at each
/// split it follows the bucket of its own value.
pub open spec fn label_of(records: Seq<RoomInfo>, record: RoomInfo) -> Option<PriceRange>
    decreases records.len(),
{
    match choice_of(records) {
        Attribute::Leaf(b) => Some(b),
        Attribute::Null => None,
        Attribute::Split(f) => {
            let sub = bucket(records, f, record.value(f));
            if sub.len() < records.len() {
                label_of(sub, record)
            } else {
                None
            }
        },
    }
}

/// Number of splits that a record passes on its way through the record
/// sets.
pub open spec fn split_count(records: Seq<RoomInfo>, record: RoomInfo) -> nat
    decreases records.len(),
{
    match choice_of(records) {
        Attribute::Split(f) => {
            let sub = bucket(records, f, record.value(f));
            if sub.len() < records.len() {
                1 + split_count(sub, record)
            } else {
                0
            }
        },
        _ => 0,
    }
}

/// Nodes appended to an arena change no walk that starts in it.
pub proof fn lemma_prediction_ignores_later_nodes(
    nodes: Seq<NodeView>,
    more: Seq<NodeView>,
    id: int,
    record: RoomInfo,
)
    requires
        0 <= id < nodes.len(),
    ensures
        prediction(nodes + more, id, record) == prediction(nodes, id, record),
        walk_length(nodes + more, id, record) == walk_length(nodes, id, record),
    decreases id,
{
    let all = nodes + more;
    assert(all[id] == nodes[id]);
    match nodes[id].attribute {
        Attribute::Split(f) => {
            let v = record.value(f);
            if 0 <= v < nodes[id].children.len() && nodes[id].children[v] < id {
                lemma_prediction_ignores_later_nodes(
                    nodes,
                    more,
                    nodes[id].children[v] as int,
                    record,
                );
            }
        },
        _ => {},
    }
}

/// What the first `j` values of a split add is the start of what the first
/// `k` values add, for `j <= k`.
proof fn lemma_grown_extends(records: Seq<RoomInfo>, f: Feature, j: int, k: int, base: nat)
    requires
        0 <= j <= k,
    ensures
        grown(records, f, j, base).0.len() <= grown(records, f, k, base).0.len(),
        grown(records, f, k, base).0.subrange(0, grown(records, f, j, base).0.len() as int)
            == grown(records, f, j, base).0,
    decreases k - j,
{
    let short = grown(records, f, j, base).0;
    let long = grown(records, f, k, base).0;
    if j == k {
        assert(long.subrange(0, short.len() as int) =~= short);
    } else {
        lemma_grown_extends(records, f, j, k - 1, base);
        let before = grown(records, f, k - 1, base).0;
        assert(long.subrange(0, before.len() as int) =~= before);
        assert(long.subrange(0, short.len() as int) =~= before.subrange(0, short.len() as int));
    }
}

/// A split records one position per value: that of the last node added for
/// the value, which is the root of its subtree.
proof fn lemma_grown_positions(records: Seq<RoomInfo>, f: Feature, k: int, base: nat)
    requires
        records.len() <= usize::MAX,
        choice_of(records) == Attribute::Split(f),
        0 <= k,
    ensures
        grown(records, f, k, base).1.len() == k,
        forall|j: int|
            0 <= j < k ==> #[trigger] grown(records, f, k, base).1[j] == (base + grown(
                records,
                f,
                j + 1,
                base,
            ).0.len() - 1) as usize,
    decreases k,
{
    if k > 0 {
        lemma_grown_positions(records, f, k - 1, base);
        lemma_split_shrinks(records, f, k - 1);
    }
}

/// Where the subtree of one value lies among the nodes built for a split:
/// after the subtrees of the earlier values, its root last, at the position
/// that the parent holds for that value.
proof fn lemma_split_layout(records: Seq<RoomInfo>, f: Feature, v: int, base: nat)
    requires
        records.len() <= usize::MAX,
        choice_of(records) == Attribute::Split(f),
        0 <= v < f.arity(),
        base + built(records, base).0.len() <= usize::MAX,
    ensures
        ({
            let (below, root) = built(records, base);
            let earlier = grown(records, f, v, base).0;
            let (sub_below, sub_root) = built(bucket(records, f, v), base + earlier.len());
            let end = earlier.len() + sub_below.len() + 1;
            &&& root.attribute == Attribute::Split(f)
            &&& root.children.len() == f.arity()
            &&& root.children[v] == base + end - 1
            &&& end <= below.len()
            &&& below.subrange(0, end as int) == earlier + sub_below.push(sub_root)
        }),
{
    lemma_grown_positions(records, f, f.arity(), base);
    lemma_grown_extends(records, f, v + 1, f.arity(), base);
    lemma_split_shrinks(records, f, v);
    let earlier = grown(records, f, v, base).0;
    let upto = grown(records, f, v + 1, base).0;
    let (sub_below, sub_root) = built(bucket(records, f, v), base + earlier.len());
    assert(upto == earlier + sub_below.push(sub_root));
    assert(upto.len() == earlier.len() + sub_below.len() + 1);
}

/// One step of the walk: from a split node appended last, the walk goes on
/// at the child of the record's value, and sees only the nodes up to it.
proof fn lemma_walk_step(
    prefix: Seq<NodeView>,
    below: Seq<NodeView>,
    root: NodeView,
    end: int,
    record: RoomInfo,
    f: Feature,
)
    requires
        root.attribute == Attribute::Split(f),
        0 <= record.value(f) < root.children.len(),
        1 <= end <= below.len(),
        root.children[record.value(f)] == prefix.len() + end - 1,
    ensures
        prediction(prefix + below.push(root), (prefix.len() + below.len()) as int, record)
            == prediction(
            prefix + below.subrange(0, end),
            (prefix.len() + end - 1) as int,
            record,
        ),
        walk_length(prefix + below.push(root), (prefix.len() + below.len()) as int, record) == 1
            + walk_length(
            prefix + below.subrange(0, end),
            (prefix.len() + end - 1) as int,
            record,
        ),
{
    let whole = prefix + below.push(root);
    let id = (prefix.len() + below.len()) as int;
    let at = (prefix.len() + end - 1) as int;
    let head = prefix + below.subrange(0, end);
    let tail = below.subrange(end, below.len() as int).push(root);
    assert(whole[id] == root);
    assert(prediction(whole, id, record) == prediction(whole, at, record));
    assert(walk_length(whole, id, record) == 1 + walk_length(whole, at, record));
    assert(whole =~= head + tail);
    lemma_prediction_ignores_later_nodes(head, tail, at, record);
}

/// At the root of a split, the walk goes on from the root of the subtree of
/// the record's value.
proof fn lemma_walk_enters_subtree(
    prefix: Seq<NodeView>,
    records: Seq<RoomInfo>,
    record: RoomInfo,
    f: Feature,
)
    requires
        records.len() <= usize::MAX,
        choice_of(records) == Attribute::Split(f),
        prefix.len() + built(records, prefix.len()).0.len() <= usize::MAX,
    ensures
        ({
            let base = prefix.len();
            let below = built(records, base).0;
            let root = built(records, base).1;
            let v = record.value(f);
            let earlier = grown(records, f, v, base).0;
            let sub = built(bucket(records, f, v), base + earlier.len());
            &&& (prefix + earlier).len() + sub.0.len() <= usize::MAX
            &&& prediction(prefix + below.push(root), (base + below.len()) as int, record)
                == prediction(
                (prefix + earlier) + sub.0.push(sub.1),
                ((prefix + earlier).len() + sub.0.len()) as int,
                record,
            )
            &&& walk_length(prefix + below.push(root), (base + below.len()) as int, record) == 1
                + walk_length(
                (prefix + earlier) + sub.0.push(sub.1),
                ((prefix + earlier).len() + sub.0.len()) as int,
                record,
            )
        }),
{
    let base = prefix.len();
    let below = built(records, base).0;
    let root = built(records, base).1;
    let v = record.value(f);
    lemma_value_in_range(record, f);
    lemma_split_layout(records, f, v, base);
    let earlier = grown(records, f, v, base).0;
    let sub = built(bucket(records, f, v), base + earlier.len());
    let end = earlier.len() + sub.0.len() + 1;
    lemma_walk_step(prefix, below, root, end as int, record, f);
    assert(prefix + below.subrange(0, end as int) =~= (prefix + earlier) + sub.0.push(sub.1));
}

/// A record's value for a feature is a position in the feature's
/// enumeration.
pub proof fn lemma_value_in_range(record: RoomInfo, f: Feature)
    ensures
        0 <= record.value(f) < f.arity(),
{
}

/// The walk through the built arena follows the record sets: from the root
/// of the subtree built for `records`, appended to any arena, it reaches the
/// label that the record gets from `records`.
pub proof fn lemma_subtree_predicts_label(
    prefix: Seq<NodeView>,
    records: Seq<RoomInfo>,
    record: RoomInfo,
)
    requires
        records.len() <= usize::MAX,
        prefix.len() + built(records, prefix.len()).0.len() <= usize::MAX,
    ensures
        prediction(
            prefix + built(records, prefix.len()).0.push(built(records, prefix.len()).1),
            (prefix.len() + built(records, prefix.len()).0.len()) as int,
            record,
        ) == label_of(records, record),
        walk_length(
            prefix + built(records, prefix.len()).0.push(built(records, prefix.len()).1),
            (prefix.len() + built(records, prefix.len()).0.len()) as int,
            record,
        ) == split_count(records, record),
    decreases records.len(),
{
    let base = prefix.len();
    let below = built(records, base).0;
    let root = built(records, base).1;
    match choice_of(records) {
        Attribute::Split(f) => {
            let v = record.value(f);
            lemma_walk_enters_subtree(prefix, records, record, f);
            lemma_split_shrinks(records, f, v);
            let earlier = grown(records, f, v, base).0;
            lemma_subtree_predicts_label(prefix + earlier, bucket(records, f, v), record);
        },
        _ => {
            assert((prefix + below.push(root))[base as int] == root);
        },
    }
}

/// The tree built from a record set labels every record as the record sets
/// themselves do.
pub proof fn lemma_tree_predicts_label(records: Seq<RoomInfo>, record: RoomInfo)
    requires
        records.len() <= usize::MAX,
    ensures
        prediction(tree_of(records), tree_of(records).len() - 1, record) == label_of(
            records,
            record,
        ),
        walk_length(tree_of(records), tree_of(records).len() - 1, record) == split_count(
            records,
            record,
        ),
{
    lemma_tree_size(records);
    lemma_subtree_predicts_label(Seq::empty(), records, record);
    assert(Seq::<NodeView>::empty() + built(records, 0).0.push(built(records, 0).1) =~= tree_of(
        records,
    ));
}

/// All records of the set share one value of the feature.
pub open spec fn constant_on(records: Seq<RoomInfo>, f: Feature) -> bool {
    forall|i: int, j: int|
        0 <= i < records.len() && 0 <= j < records.len() ==> (#[trigger] records[i]).value(f) == (
        #[trigger] records[j]).value(f)
}

/// Number of features on which the set is constant.
pub open spec fn constant_features(records: Seq<RoomInfo>) -> nat {
    (if constant_on(records, Feature::RoomType) {
        1nat
    } else {
        0nat
    }) + (if constant_on(records, Feature::BedRooms) {
        1nat
    } else {
        0nat
    }) + (if constant_on(records, Feature::Popularity) {
        1nat
    } else {
        0nat
    }) + (if constant_on(records, Feature::AmenitiesLevel) {
        1nat
    } else {
        0nat
    })
}

/// Every record of a bucket has the bucket's value and comes from the set.
proof fn lemma_bucket_members(records: Seq<RoomInfo>, f: Feature, v: int)
    ensures
        forall|i: int|
            0 <= i < bucket(records, f, v).len() ==> (#[trigger] bucket(records, f, v)[i]).value(f)
                == v && exists|j: int|
                0 <= j < records.len() && records[j] == bucket(records, f, v)[i],
    decreases records.len(),
{
    if records.len() > 0 {
        let rest = records.drop_last();
        lemma_bucket_members(rest, f, v);
        assert forall|i: int| 0 <= i < bucket(records, f, v).len() implies (#[trigger] bucket(
            records,
            f,
            v,
        )[i]).value(f) == v && exists|j: int|
            0 <= j < records.len() && records[j] == bucket(records, f, v)[i] by {
            if i < bucket(rest, f, v).len() {
                let j = choose|j: int| 0 <= j < rest.len() && rest[j] == bucket(rest, f, v)[i];
                assert(records[j] == bucket(records, f, v)[i]);
            } else {
                assert(records[records.len() - 1] == bucket(records, f, v)[i]);
            }
        }
    }
}

/// A bucket is constant on the feature it was taken by, and on every
/// feature on which the set was constant.
proof fn lemma_bucket_constant(records: Seq<RoomInfo>, f: Feature, v: int, g: Feature)
    ensures
        constant_on(bucket(records, f, v), f),
        constant_on(records, g) ==> constant_on(bucket(records, f, v), g),
{
    lemma_bucket_members(records, f, v);
    let sub = bucket(records, f, v);
    if constant_on(records, g) {
        assert forall|i: int, j: int| 0 <= i < sub.len() && 0 <= j < sub.len() implies (
        #[trigger] sub[i]).value(g) == (#[trigger] sub[j]).value(g) by {
            let a = choose|a: int| 0 <= a < records.len() && records[a] == sub[i];
            let b = choose|b: int| 0 <= b < records.len() && records[b] == sub[j];
            assert(records[a].value(g) == records[b].value(g));
        }
    }
}

/// The bucket of a value that no record has is empty.
proof fn lemma_bucket_of_absent_value(records: Seq<RoomInfo>, f: Feature, v: int)
    requires
        forall|i: int| 0 <= i < records.len() ==> (#[trigger] records[i]).value(f) != v,
    ensures
        bucket(records, f, v).len() == 0,
    decreases records.len(),
{
    if records.len() > 0 {
        lemma_bucket_of_absent_value(records.drop_last(), f, v);
    }
}

/// A distribution whose cells are zero everywhere but at one position has
/// at most one nonzero cell.
proof fn lemma_single_present(counts: Seq<u64>, only: int)
    requires
        forall|i: int| 0 <= i < counts.len() && i != only ==> counts[i] == 0,
    ensures
        nonzero_cells(counts) <= 1,
        only < 0 || only >= counts.len() ==> nonzero_cells(counts) == 0,
    decreases counts.len(),
{
    if counts.len() > 0 {
        if only == counts.len() - 1 {
            lemma_single_present(counts.drop_last(), -1);
        } else {
            lemma_single_present(counts.drop_last(), only);
        }
    }
}

/// A feature on which the set is constant is never split on.
pub proof fn lemma_constant_feature_not_selected(records: Seq<RoomInfo>, f: Feature)
    requires
        constant_on(records, f),
    ensures
        choice_of(records) != Attribute::Split(f),
{
    if records.len() > 0 {
        let only = records[0].value(f);
        let sums = row_sums(table_of(records, f));
        assert forall|w: int| 0 <= w < sums.len() && w != only implies sums[w] == 0 by {
            lemma_bucket_of_absent_value(records, f, w);
            lemma_distribution_total(bucket(records, f, w));
        }
        lemma_single_present(sums, only);
        assert(ratio_of(records, f) is Ineligible);
        lemma_best_in_range(ratios_of(records), FEATURES as int);
    }
}

/// Most nodes that a subtree can have when `depth` features are left to
/// split on: a root and at most five subtrees of one feature less.
pub open spec fn size_bound(depth: nat) -> nat
    decreases depth,
{
    if depth == 0 {
        1
    } else {
        1 + 5 * size_bound((depth - 1) as nat)
    }
}

proof fn lemma_size_bound_grows(low: nat, high: nat)
    requires
        low <= high,
    ensures
        size_bound(low) <= size_bound(high),
    decreases high,
{
    if low < high {
        lemma_size_bound_grows(low, (high - 1) as nat);
    }
}

/// A bucket of the selected feature is constant on one feature more than
/// the set.
proof fn lemma_bucket_more_constant(records: Seq<RoomInfo>, f: Feature, v: int)
    requires
        choice_of(records) == Attribute::Split(f),
    ensures
        constant_features(bucket(records, f, v)) >= constant_features(records) + 1,
        constant_features(records) < FEATURES,
{
    if constant_on(records, f) {
        lemma_constant_feature_not_selected(records, f);
    }
    lemma_bucket_constant(records, f, v, Feature::RoomType);
    lemma_bucket_constant(records, f, v, Feature::BedRooms);
    lemma_bucket_constant(records, f, v, Feature::Popularity);
    lemma_bucket_constant(records, f, v, Feature::AmenitiesLevel);
}

proof fn lemma_grown_size(records: Seq<RoomInfo>, f: Feature, k: int, base: nat)
    requires
        choice_of(records) == Attribute::Split(f),
        0 <= k,
    ensures
        grown(records, f, k, base).0.len() <= k * size_bound(
            (FEATURES - constant_features(records) - 1) as nat,
        ),
    decreases records.len(), k,
{
    let room = size_bound((FEATURES - constant_features(records) - 1) as nat);
    if k > 0 {
        lemma_grown_size(records, f, k - 1, base);
        let earlier = grown(records, f, k - 1, base).0;
        let sub = bucket(records, f, k - 1);
        lemma_bucket_more_constant(records, f, k - 1);
        if sub.len() < records.len() {
            lemma_subtree_size(sub, base + earlier.len());
            lemma_size_bound_grows(
                (FEATURES - constant_features(sub)) as nat,
                (FEATURES - constant_features(records) - 1) as nat,
            );
        }
        assert((k - 1) * room + room == k * room) by (nonlinear_arith);
    } else {
        assert(0 * room == 0) by (nonlinear_arith);
    }
}

/// A built subtree has no more nodes than its depth allows.
proof fn lemma_subtree_size(records: Seq<RoomInfo>, base: nat)
    ensures
        built(records, base).0.len() + 1 <= size_bound(
            (FEATURES - constant_features(records)) as nat,
        ),
    decreases records.len(), FEATURES + 2,
{
    match choice_of(records) {
        Attribute::Split(f) => {
            lemma_bucket_more_constant(records, f, 0);
            lemma_grown_size(records, f, f.arity(), base);
            let room = size_bound((FEATURES - constant_features(records) - 1) as nat);
            assert(f.arity() * room <= 5 * room) by (nonlinear_arith)
                requires
                    0 <= f.arity() <= 5,
                    room >= 0,
            ;
        },
        _ => {},
    }
}

/// The arena built from any record set has at most 781 nodes, so its
/// positions fit the machine's index type.
pub proof fn lemma_tree_size(records: Seq<RoomInfo>)
    ensures
        tree_of(records).len() <= 781,
        tree_of(records).len() <= usize::MAX,
{
    lemma_subtree_size(records, 0);
    lemma_size_bound_grows((FEATURES - constant_features(records)) as nat, 4);
    reveal_with_fuel(size_bound, 5);
    assert(size_bound(4) == 781);
}

/// Every split takes a feature on which the set was not constant and
/// leaves a bucket that is constant on it: so a record passes at most one
/// split per feature.
pub proof fn lemma_split_count_bound(records: Seq<RoomInfo>, record: RoomInfo)
    ensures
        split_count(records, record) + constant_features(records) <= FEATURES,
    decreases records.len(),
{
    match choice_of(records) {
        Attribute::Split(f) => {
            let v = record.value(f);
            let sub = bucket(records, f, v);
            if sub.len() < records.len() {
                lemma_split_count_bound(sub, record);
                if constant_on(records, f) {
                    lemma_constant_feature_not_selected(records, f);
                }
                lemma_bucket_constant(records, f, v, Feature::RoomType);
                lemma_bucket_constant(records, f, v, Feature::BedRooms);
                lemma_bucket_constant(records, f, v, Feature::Popularity);
                lemma_bucket_constant(records, f, v, Feature::AmenitiesLevel);
            }
        },
        _ => {},
    }
}

/// In the tree built from a record set, the walk for any record passes at
/// most one internal node per feature before it reaches a leaf.
pub proof fn lemma_walk_is_short(records: Seq<RoomInfo>, record: RoomInfo)
    requires
        records.len() <= usize::MAX,
    ensures
        walk_length(tree_of(records), tree_of(records).len() - 1, record) <= FEATURES,
{
    lemma_tree_size(records);
    lemma_tree_predicts_label(records, record);
    lemma_split_count_bound(records, record);
}

/// Node `i` is a child of some node of the arena.
pub open spec fn has_parent(nodes: Seq<NodeView>, i: int) -> bool {
    exists|p: int, c: int|
        0 <= p < nodes.len() && 0 <= c < nodes[p].children.len() && (
        #[trigger] nodes[p].children[c]) == i
}

/// A node keeps its parent when nodes are appended to the arena.
proof fn lemma_parent_stays(nodes: Seq<NodeView>, more: Seq<NodeView>, i: int)
    requires
        has_parent(nodes, i),
    ensures
        has_parent(nodes + more, i),
{
    let (p, c) = choose|p: int, c: int|
        0 <= p < nodes.len() && 0 <= c < nodes[p].children.len() && (
        #[trigger] nodes[p].children[c]) == i;
    assert((nodes + more)[p] == nodes[p]);
    assert((nodes + more)[p].children[c] == i);
}

/// Among the nodes built for the first `k` values of a split, every node has
/// a parent among them or is the root of one value's subtree.
proof fn lemma_grown_connected(
    prefix: Seq<NodeView>,
    records: Seq<RoomInfo>,
    f: Feature,
    k: int,
    i: int,
)
    requires
        records.len() <= usize::MAX,
        choice_of(records) == Attribute::Split(f),
        0 <= k,
        prefix.len() + grown(records, f, k, prefix.len()).0.len() <= usize::MAX,
        prefix.len() <= i < prefix.len() + grown(records, f, k, prefix.len()).0.len(),
    ensures
        has_parent(prefix + grown(records, f, k, prefix.len()).0, i) || exists|j: int|
            0 <= j < k && #[trigger] grown(records, f, k, prefix.len()).1[j] == i,
    decreases records.len(), k,
{
    let base = prefix.len();
    if k > 0 {
        lemma_split_shrinks(records, f, k - 1);
        lemma_grown_positions(records, f, k, base);
        lemma_grown_positions(records, f, k - 1, base);
        let earlier = grown(records, f, k - 1, base);
        let now = grown(records, f, k, base);
        let sub = built(bucket(records, f, k - 1), base + earlier.0.len());
        assert(now.0 == earlier.0 + sub.0.push(sub.1));
        assert(prefix + now.0 =~= (prefix + earlier.0) + sub.0.push(sub.1));
        if i < base + earlier.0.len() {
            lemma_grown_connected(prefix, records, f, k - 1, i);
            if has_parent(prefix + earlier.0, i) {
                lemma_parent_stays(prefix + earlier.0, sub.0.push(sub.1), i);
            } else {
                let j = choose|j: int| 0 <= j < k - 1 && #[trigger] earlier.1[j] == i;
                assert(now.1[j] == i);
            }
        } else if i < base + earlier.0.len() + sub.0.len() {
            lemma_subtree_connected(prefix + earlier.0, bucket(records, f, k - 1), i);
        } else {
            assert(now.1[k - 1] == i);
        }
    }
}

/// Every node below the root of a built subtree is the child of a node of
/// the subtree.
proof fn lemma_subtree_connected(prefix: Seq<NodeView>, records: Seq<RoomInfo>, i: int)
    requires
        records.len() <= usize::MAX,
        prefix.len() + built(records, prefix.len()).0.len() <= usize::MAX,
        prefix.len() <= i < prefix.len() + built(records, prefix.len()).0.len(),
    ensures
        has_parent(
            prefix + built(records, prefix.len()).0.push(built(records, prefix.len()).1),
            i,
        ),
    decreases records.len(), FEATURES + 2,
{
    let base = prefix.len();
    let below = built(records, base).0;
    let root = built(records, base).1;
    let whole = prefix + below.push(root);
    match choice_of(records) {
        Attribute::Split(f) => {
            lemma_grown_connected(prefix, records, f, f.arity(), i);
            lemma_grown_positions(records, f, f.arity(), base);
            assert(whole =~= (prefix + below) + seq![root]);
            if has_parent(prefix + below, i) {
                lemma_parent_stays(prefix + below, seq![root], i);
            } else {
                let j = choose|j: int|
                    0 <= j < f.arity() && #[trigger] grown(records, f, f.arity(), base).1[j] == i;
                let p = (base + below.len()) as int;
                assert(whole[p] == root);
                assert(whole[p].children[j] == i);
            }
        },
        _ => {},
    }
}

/// The nodes built for the first `k` values of a split, appended to a well
/// formed arena, leave it well formed.
proof fn lemma_grown_well_formed(
    prefix: Seq<NodeView>,
    records: Seq<RoomInfo>,
    f: Feature,
    k: int,
)
    requires
        records.len() <= usize::MAX,
        choice_of(records) == Attribute::Split(f),
        0 <= k,
        prefix.len() + grown(records, f, k, prefix.len()).0.len() <= usize::MAX,
        well_formed(prefix),
    ensures
        well_formed(prefix + grown(records, f, k, prefix.len()).0),
    decreases records.len(), k,
{
    let base = prefix.len();
    if k > 0 {
        lemma_split_shrinks(records, f, k - 1);
        let earlier = grown(records, f, k - 1, base);
        let sub = built(bucket(records, f, k - 1), base + earlier.0.len());
        lemma_grown_well_formed(prefix, records, f, k - 1);
        lemma_subtree_well_formed(prefix + earlier.0, bucket(records, f, k - 1));
        assert(prefix + grown(records, f, k, base).0 =~= (prefix + earlier.0) + sub.0.push(sub.1));
    } else {
        assert(prefix + grown(records, f, k, base).0 =~= prefix);
    }
}

/// A built subtree, appended to a well formed arena, leaves it well formed.
proof fn lemma_subtree_well_formed(prefix: Seq<NodeView>, records: Seq<RoomInfo>)
    requires
        records.len() <= usize::MAX,
        prefix.len() + built(records, prefix.len()).0.len() <= usize::MAX,
        well_formed(prefix),
    ensures
        well_formed(prefix + built(records, prefix.len()).0.push(built(records, prefix.len()).1)),
    decreases records.len(), FEATURES + 2,
{
    let base = prefix.len();
    let below = built(records, base).0;
    let root = built(records, base).1;
    let whole = prefix + below.push(root);
    match choice_of(records) {
        Attribute::Split(f) => {
            lemma_grown_well_formed(prefix, records, f, f.arity());
            lemma_grown_positions(records, f, f.arity(), base);
            assert forall|c: int| 0 <= c < root.children.len() implies #[trigger] root.children[c]
                < base + below.len() by {
                lemma_split_layout(records, f, c, base);
            }
        },
        _ => {},
    }
    assert forall|i: int| 0 <= i < whole.len() implies node_ok(#[trigger] whole[i], i) by {
        if i < base + below.len() {
            assert(whole[i] == (prefix + below)[i]);
        }
    }
}

/// The arena built from a record set is well formed: every edge leads to an
/// earlier node.
pub proof fn lemma_tree_well_formed(records: Seq<RoomInfo>)
    requires
        records.len() <= usize::MAX,
    ensures
        well_formed(tree_of(records)),
{
    lemma_tree_size(records);
    lemma_subtree_well_formed(Seq::empty(), records);
    assert(Seq::<NodeView>::empty() + built(records, 0).0.push(built(records, 0).1) =~= tree_of(
        records,
    ));
}

/// The built tree has a single root: every node but the last is the child
/// of some node.
pub proof fn lemma_single_root(records: Seq<RoomInfo>, i: int)
    requires
        records.len() <= usize::MAX,
        0 <= i < tree_of(records).len() - 1,
    ensures
        has_parent(tree_of(records), i),
{
    lemma_tree_size(records);
    lemma_subtree_connected(Seq::empty(), records, i);
    assert(Seq::<NodeView>::empty() + built(records, 0).0.push(built(records, 0).1) =~= tree_of(
        records,
    ));
}

/// In a well formed arena no edge leads to the last node: the root of a
/// built tree is no node's child.
pub proof fn lemma_root_has_no_parent(nodes: Seq<NodeView>)
    requires
        well_formed(nodes),
        nodes.len() > 0,
    ensures
        !has_parent(nodes, nodes.len() - 1),
{
    if has_parent(nodes, nodes.len() - 1) {
        let (p, c) = choose|p: int, c: int|
            0 <= p < nodes.len() && 0 <= c < nodes[p].children.len() && (
            #[trigger] nodes[p].children[c]) == nodes.len() - 1;
        assert(node_ok(nodes[p], p));
    }
}

/// Of two features whose gain ratios are equal, the later one in priority
/// order is never the one selected.
pub proof fn lemma_tie_goes_to_earlier(records: Seq<RoomInfo>, i: int, j: int)
    requires
        0 <= i < j < FEATURES,
        !ratio_of(records, Feature::at(i)).exceeds(ratio_of(records, Feature::at(j))),
        !ratio_of(records, Feature::at(j)).exceeds(ratio_of(records, Feature::at(i))),
    ensures
        choice_of(records) != Attribute::Split(Feature::at(j)),
{
    let ratios = ratios_of(records);
    lemma_best_in_range(ratios, FEATURES as int);
    lemma_best_is_first_greatest(ratios, FEATURES as int);
    let best = best_upto(ratios, FEATURES as int);
    if choice_of(records) == Attribute::Split(Feature::at(j)) {
        assert(best == j);
        assert(ratios[best].exceeds(ratios[i]));
    }
}

/// Building is a function of the record set: two arenas built from the same
/// records are the same, node for node.
pub proof fn lemma_build_is_repeatable(
    records: Seq<RoomInfo>,
    first: Seq<NodeView>,
    second: Seq<NodeView>,
)
    requires
        first == tree_of(records),
        second == tree_of(records),
    ensures
        first == second,
{
}

/// In a set of one bracket, that bracket counts every record and every
/// other bracket none.
proof fn lemma_count_of_pure(records: Seq<RoomInfo>, p: PriceRange, b: PriceRange)
    requires
        forall|i: int| 0 <= i < records.len() ==> (#[trigger] records[i]).price == p,
    ensures
        count_price(records, b) == if b == p {
            records.len()
        } else {
            0
        },
    decreases records.len(),
{
    if records.len() > 0 {
        lemma_count_of_pure(records.drop_last(), p, b);
    }
}

/// A nonempty record set whose records all share one bracket becomes a
/// single leaf of that bracket: nothing is added to the arena below it.
pub proof fn lemma_pure_set_is_leaf(records: Seq<RoomInfo>, p: PriceRange, base: nat)
    requires
        0 < records.len() <= usize::MAX,
        forall|i: int| 0 <= i < records.len() ==> (#[trigger] records[i]).price == p,
    ensures
        choice_of(records) == Attribute::Leaf(p),
        built(records, base).0 == Seq::<NodeView>::empty(),
        built(records, base).1 == (NodeView {
            attribute: Attribute::Leaf(p),
            children: Seq::empty(),
        }),
{
    let dist = distribution_of(records);
    assert forall|k: int| 0 <= k < BRACKETS implies #[trigger] dist[k] == if k == p.index() {
        records.len() as u64
    } else {
        0u64
    } by {
        lemma_count_of_pure(records, p, PriceRange::at(k));
    }
    reveal_with_fuel(nonzero_cells, 7);
    reveal_with_fuel(mode_upto, 7);
    assert(dist.drop_last().len() == 5);
    assert(dist.drop_last().drop_last().len() == 4);
    assert(dist.drop_last().drop_last().drop_last().len() == 3);
    assert(dist.drop_last().drop_last().drop_last().drop_last().len() == 2);
    assert(dist.drop_last().drop_last().drop_last().drop_last().drop_last().len() == 1);
    assert(nonzero_cells(dist) == 1);
    assert(mode_upto(dist, BRACKETS as int) == p.index());
}

} // verus!
