//! The decision tree: nodes in an append-only arena, the recursive builder
//! that fills it, and the classifier that walks it.

use vstd::prelude::*;
use crate::entropy::{nonzero_cells, row_sums, split_info_of};
use crate::record::{Feature, PriceRange, RoomInfo, FEATURES};
use crate::select::{choice_of, chose_attribute, lemma_best_in_range, ratios_of, Attribute};
use crate::tabulate::{
    bucket, lemma_bucket_len, lemma_buckets_disjoint, lemma_distribution_total, select_bucket,
    table_of,
};

verus! {

/// A node of the tree. An internal node holds one child index per value of
/// its feature, in the enumeration's order; a leaf holds none.
#[derive(Debug, Clone, PartialEq, Eq)]
pub struct DecisionTreeNode {
    pub attribute: Attribute,
    pub children: Vec<usize>,
}

/// A node as a mathematical value.
pub struct NodeView {
    pub attribute: Attribute,
    pub children: Seq<usize>,
}

impl View for DecisionTreeNode {
    type V = NodeView;

    open spec fn view(&self) -> NodeView {
        NodeView { attribute: self.attribute, children: self.children@ }
    }
}

impl DecisionTreeNode {
    /// A fresh node: the no-data leaf.
    pub fn new() -> (node: DecisionTreeNode)
        ensures
            node@ == (NodeView { attribute: Attribute::Null, children: Seq::empty() }),
    {
        DecisionTreeNode { attribute: Attribute::Null, children: Vec::new() }
    }
}

/// The nodes of an arena as mathematical values.
pub open spec fn arena_view(nodes: Seq<DecisionTreeNode>) -> Seq<NodeView> {
    Seq::new(nodes.len(), |i: int| nodes[i]@)
}

/// A node fits below position `limit`: an internal node has one child per
/// value of its feature, each at a position before `limit`; a leaf has none.
pub open spec fn node_ok(node: NodeView, limit: int) -> bool {
    match node.attribute {
        Attribute::Split(f) => node.children.len() == f.arity() && forall|c: int|
            0 <= c < node.children.len() ==> #[trigger] node.children[c] < limit,
        _ => node.children.len() == 0,
    }
}

/// Every edge of the arena leads from a node to an earlier one, so the arena
/// is acyclic, and every internal node has all its children.
pub open spec fn well_formed(nodes: Seq<NodeView>) -> bool {
    forall|i: int| 0 <= i < nodes.len() ==> node_ok(#[trigger] nodes[i], i)
}

/// What building the children of the first `k` values of `f` adds to an
/// arena of `base` nodes, and the positions of those children. Each child's
/// subtree comes first, then the child itself. A bucket is only built where
/// it is smaller than the set, which `lemma_split_shrinks` shows of every
/// bucket of a selected feature.
pub open spec fn grown(records: Seq<RoomInfo>, f: Feature, k: int, base: nat) -> (
    Seq<NodeView>,
    Seq<usize>,
)
    decreases records.len(), 0nat, k,
{
    if k <= 0 {
        (Seq::empty(), Seq::empty())
    } else {
        let (nodes, positions) = grown(records, f, k - 1, base);
        let sub = bucket(records, f, k - 1);
        if sub.len() < records.len() {
            let (below, child) = built(sub, base + nodes.len());
            (
                nodes + below.push(child),
                positions.push((base + nodes.len() + below.len()) as usize),
            )
        } else {
            (nodes, positions)
        }
    }
}

/// What building `records` adds to an arena of `base` nodes, and the node
/// that stands for `records` itself, which is not among them.
pub open spec fn built(records: Seq<RoomInfo>, base: nat) -> (Seq<NodeView>, NodeView)
    decreases records.len(), 1nat, 0int,
{
    match choice_of(records) {
        Attribute::Split(f) => {
            let (nodes, positions) = grown(records, f, f.arity(), base);
            (nodes, NodeView { attribute: Attribute::Split(f), children: positions })
        },
        leaf => (Seq::empty(), NodeView { attribute: leaf, children: Seq::empty() }),
    }
}

/// The whole arena built from `records`: the root is its last node.
pub open spec fn tree_of(records: Seq<RoomInfo>) -> Seq<NodeView> {
    built(records, 0).0.push(built(records, 0).1)
}

/// The label that the walk from node `id` reaches for a record: at a leaf
/// its bracket, at the no-data leaf nothing, at an internal node the label
/// reached from the child of the record's value.
pub open spec fn prediction(nodes: Seq<NodeView>, id: int, record: RoomInfo) -> Option<PriceRange>
    decreases id,
{
    if id < 0 || id >= nodes.len() {
        None
    } else {
        match nodes[id].attribute {
            Attribute::Leaf(b) => Some(b),
            Attribute::Null => None,
            Attribute::Split(f) => {
                let v = record.value(f);
                if 0 <= v < nodes[id].children.len() && nodes[id].children[v] < id {
                    prediction(nodes, nodes[id].children[v] as int, record)
                } else {
                    None
                }
            },
        }
    }
}

/// The position of a nonzero cell, in a distribution that has one.
proof fn lemma_one_present(counts: Seq<u64>) -> (i: int)
    requires
        nonzero_cells(counts) >= 1,
    ensures
        0 <= i < counts.len(),
        counts[i] != 0,
    decreases counts.len(),
{
    if counts.last() != 0 {
        counts.len() - 1
    } else {
        lemma_one_present(counts.drop_last())
    }
}

/// The positions of two nonzero cells, in a distribution that has two.
proof fn lemma_two_present(counts: Seq<u64>) -> (p: (int, int))
    requires
        nonzero_cells(counts) >= 2,
    ensures
        0 <= p.0 < p.1 < counts.len(),
        counts[p.0] != 0,
        counts[p.1] != 0,
    decreases counts.len(),
{
    if counts.last() != 0 {
        (lemma_one_present(counts.drop_last()), counts.len() - 1)
    } else {
        lemma_two_present(counts.drop_last())
    }
}

/// A feature with positive split information has two nonempty buckets.
pub proof fn lemma_eligible_has_two_buckets(records: Seq<RoomInfo>, f: Feature) -> (p: (int, int))
    requires
        records.len() <= usize::MAX,
        split_info_of(table_of(records, f)) != 0,
    ensures
        0 <= p.0 < p.1 < f.arity(),
        bucket(records, f, p.0).len() > 0,
        bucket(records, f, p.1).len() > 0,
{
    let sums = row_sums(table_of(records, f));
    let p = lemma_two_present(sums);
    lemma_bucket_len(records, f, p.0);
    lemma_bucket_len(records, f, p.1);
    lemma_distribution_total(bucket(records, f, p.0));
    lemma_distribution_total(bucket(records, f, p.1));
    p
}

/// Splitting on the selected feature makes progress: every bucket is
/// smaller than the set that was split.
pub proof fn lemma_split_shrinks(records: Seq<RoomInfo>, f: Feature, v: int)
    requires
        records.len() <= usize::MAX,
        choice_of(records) == Attribute::Split(f),
    ensures
        bucket(records, f, v).len() < records.len(),
{
    lemma_best_in_range(ratios_of(records), FEATURES as int);
    let p = lemma_eligible_has_two_buckets(records, f);
    if v == p.0 {
        lemma_buckets_disjoint(records, f, v, p.1);
    } else {
        lemma_buckets_disjoint(records, f, v, p.0);
    }
}

/// Builds the subtree of `node_vec`. The nodes below its root are appended
/// to `tree_vec`, each child after its own subtree, children in the order of
/// the feature's values; the root itself is written to `node`, whatever it
/// held, for the caller to append. What was in the arena stays, and a well
/// formed arena stays well formed.
pub fn make_tree(
    tree_vec: &mut Vec<DecisionTreeNode>,
    node: &mut DecisionTreeNode,
    node_vec: Vec<RoomInfo>,
)
    ensures
        arena_view(final(tree_vec)@) == arena_view(old(tree_vec)@) + built(
            node_vec@,
            old(tree_vec)@.len(),
        ).0,
        final(node)@ == built(node_vec@, old(tree_vec)@.len()).1,
        node_ok(final(node)@, final(tree_vec)@.len() as int),
        well_formed(arena_view(old(tree_vec)@)) ==> well_formed(arena_view(final(tree_vec)@)),
    decreases node_vec@.len(),
{
    let ghost before = arena_view(tree_vec@);
    let ghost base = tree_vec@.len();
    let choice = chose_attribute(&node_vec);
    match choice {
        Attribute::Split(f) => {
            let n: usize = f.value_count();
            let mut children: Vec<usize> = Vec::new();
            let mut v: usize = 0;
            proof {
                assert(node_vec.len() == node_vec@.len());
                assert(arena_view(tree_vec@) =~= before + grown(node_vec@, f, 0, base).0);
            }
            while v < n
                invariant
                    n == f.arity(),
                    v <= n,
                    node_vec@.len() <= usize::MAX,
                    before.len() == base,
                    choice_of(node_vec@) == Attribute::Split(f),
                    arena_view(tree_vec@) == before + grown(node_vec@, f, v as int, base).0,
                    children@ == grown(node_vec@, f, v as int, base).1,
                    children@.len() == v,
                    forall|c: int| 0 <= c < v ==> #[trigger] children@[c] < tree_vec@.len(),
                    well_formed(before) ==> well_formed(arena_view(tree_vec@)),
                decreases n - v,
            {
                let sub = select_bucket(&node_vec, f, v);
                proof {
                    lemma_split_shrinks(node_vec@, f, v as int);
                }
                let ghost so_far = grown(node_vec@, f, v as int, base).0;
                let ghost at = tree_vec@.len();
                assert(at == base + so_far.len()) by {
                    assert(arena_view(tree_vec@).len() == at);
                }
                let mut child = DecisionTreeNode::new();
                make_tree(tree_vec, &mut child, sub);
                let ghost below = built(sub@, at).0;
                let ghost arena_mid = arena_view(tree_vec@);
                proof {
                    let pushed = tree_vec@.push(child);
                    assert(arena_view(pushed) =~= arena_mid.push(child@));
                    assert(arena_mid.push(child@) =~= before + (so_far + below.push(child@)));
                    if well_formed(before) {
                        assert forall|i: int| 0 <= i < pushed.len() implies node_ok(
                            #[trigger] arena_view(pushed)[i],
                            i,
                        ) by {
                            if i < arena_mid.len() {
                                assert(arena_view(pushed)[i] == arena_mid[i]);
                            }
                        }
                    }
                }
                tree_vec.push(child);
                children.push(tree_vec.len() - 1);
                v += 1;
            }
            *node = DecisionTreeNode { attribute: Attribute::Split(f), children };
        },
        Attribute::Leaf(b) => {
            *node = DecisionTreeNode { attribute: Attribute::Leaf(b), children: Vec::new() };
            proof {
                assert(arena_view(tree_vec@) =~= before + built(node_vec@, base).0);
            }
        },
        Attribute::Null => {
            *node = DecisionTreeNode { attribute: Attribute::Null, children: Vec::new() };
            proof {
                assert(arena_view(tree_vec@) =~= before + built(node_vec@, base).0);
            }
        },
    }
}

/// The label that the walk from node `id` reaches for a record, `None` at
/// the no-data leaf. The walk always ends: every step leads to an earlier
/// node.
pub fn classify(tree_vec: &Vec<DecisionTreeNode>, id: usize, roominfo: &RoomInfo) -> (label:
    Option<PriceRange>)
    requires
        well_formed(arena_view(tree_vec@)),
        id < tree_vec@.len(),
    ensures
        label == prediction(arena_view(tree_vec@), id as int, *roominfo),
    decreases id,
{
    proof {
        assert(node_ok(arena_view(tree_vec@)[id as int], id as int));
    }
    match tree_vec[id].attribute {
        Attribute::Leaf(b) => Some(b),
        Attribute::Null => None,
        Attribute::Split(f) => {
            let v: usize = roominfo.value_ordinal(f);
            let next: usize = tree_vec[id].children[v];
            classify(tree_vec, next, roominfo)
        },
    }
}

/// Whether the label that the walk from node `id` reaches is the record's
/// own price bracket. The no-data leaf matches no record.
pub fn search_tree(tree_vec: &Vec<DecisionTreeNode>, id: usize, roominfo: RoomInfo) -> (hit: bool)
    requires
        well_formed(arena_view(tree_vec@)),
        id < tree_vec@.len(),
    ensures
        hit == (prediction(arena_view(tree_vec@), id as int, roominfo) == Some(roominfo.price)),
{
    match classify(tree_vec, id, &roominfo) {
        Some(b) => b == roominfo.price,
        None => false,
    }
}

/// A trained tree: the arena and the position of its root.
#[derive(Debug, Clone, PartialEq, Eq)]
pub struct DecisionTree {
    pub nodes: Vec<DecisionTreeNode>,
    pub root: usize,
}

impl DecisionTree {
    /// The arena is well formed and the root is its last node, so every
    /// other node lies before the root and every edge leads backwards.
    pub open spec fn well_formed(&self) -> bool {
        well_formed(arena_view(self.nodes@)) && self.root + 1 == self.nodes@.len()
    }

    /// Trains a tree on a record set.
    pub fn build(records: Vec<RoomInfo>) -> (tree: DecisionTree)
        ensures
            tree.well_formed(),
            arena_view(tree.nodes@) == tree_of(records@),
    {
        let mut nodes: Vec<DecisionTreeNode> = Vec::new();
        let mut root = DecisionTreeNode::new();
        let ghost shown = records@;
        make_tree(&mut nodes, &mut root, records);
        proof {
            let grown_arena = nodes@.push(root);
            assert(arena_view(nodes@) =~= built(shown, 0).0);
            assert(arena_view(grown_arena) =~= tree_of(shown));
            assert forall|i: int| 0 <= i < grown_arena.len() implies node_ok(
                #[trigger] arena_view(grown_arena)[i],
                i,
            ) by {
                if i < nodes@.len() {
                    assert(arena_view(grown_arena)[i] == arena_view(nodes@)[i]);
                }
            }
        }
        nodes.push(root);
        let at: usize = nodes.len() - 1;
        DecisionTree { nodes, root: at }
    }

    /// The bracket that the tree predicts for a record, `None` where the
    /// walk ends at the no-data leaf.
    pub fn classify(&self, record: &RoomInfo) -> (label: Option<PriceRange>)
        requires
            self.well_formed(),
        ensures
            label == prediction(arena_view(self.nodes@), self.root as int, *record),
    {
        classify(&self.nodes, self.root, record)
    }
}

} // verus!
