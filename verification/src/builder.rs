use crate::frequency::total_count;
use crate::node::BoxedHuffNode;
use crate::tree::{lemma_consistent_weight, lemma_leaf_count, Tree};
use vstd::multiset::Multiset;
use vstd::prelude::*;

verus! {

/// The leaf that stands for a symbol and its count.
pub open spec fn leaf_of(entry: (char, u64)) -> Tree {
    Tree::Leaf { symbol: entry.0, weight: entry.1 as nat }
}

/// One leaf for each entry of a frequency table, in the table's order.
pub open spec fn leaf_forest(entries: Seq<(char, u64)>) -> Seq<Tree> {
    Seq::new(entries.len(), |i: int| leaf_of(entries[i]))
}

/// The place of the lightest tree; of several equally light ones, the
/// first.
pub open spec fn lightest(forest: Seq<Tree>) -> int
    decreases forest.len(),
{
    if forest.len() <= 1 {
        0
    } else {
        let before = lightest(forest.drop_last());
        if forest.last().weight() < forest[before].weight() {
            forest.len() - 1
        } else {
            before
        }
    }
}

/// The forest after one merge: the lightest tree is taken out, then the
/// lightest of the rest, and a node over the two, the first to the left,
/// joins the forest at its end.
pub open spec fn merge_lightest(forest: Seq<Tree>) -> Seq<Tree> {
    let first = lightest(forest);
    let rest = forest.remove(first);
    let second = lightest(rest);
    rest.remove(second).push(
        Tree::Node {
            left: Box::new(forest[first]),
            right: Box::new(rest[second]),
            weight: forest[first].weight() + rest[second].weight(),
        },
    )
}

/// The tree that is left when the forest has been merged down to one.
pub open spec fn merge_all(forest: Seq<Tree>) -> Tree
    decreases forest.len(),
{
    if forest.len() <= 1 {
        forest[0]
    } else {
        proof {
            lemma_merge_lightest_len(forest);
        }
        merge_all(merge_lightest(forest))
    }
}

/// The Huffman tree of a frequency table.
pub open spec fn huffman_tree(entries: Seq<(char, u64)>) -> Tree {
    merge_all(leaf_forest(entries))
}

/// The weights of the roots of a forest, added up.
pub open spec fn forest_weight(forest: Seq<Tree>) -> nat
    decreases forest.len(),
{
    if forest.len() == 0 {
        0
    } else {
        forest_weight(forest.drop_last()) + forest.last().weight()
    }
}

/// The lightest tree is in the forest, nothing is lighter, and nothing
/// before it is as light.
pub proof fn lemma_lightest(forest: Seq<Tree>)
    requires
        forest.len() > 0,
    ensures
        0 <= lightest(forest) < forest.len(),
        forall|i: int|
            0 <= i < forest.len() ==> forest[lightest(forest)].weight() <= (
            #[trigger] forest[i]).weight(),
        forall|i: int|
            0 <= i < lightest(forest) ==> forest[lightest(forest)].weight() < (
            #[trigger] forest[i]).weight(),
    decreases forest.len(),
{
    if forest.len() > 1 {
        let front = forest.drop_last();
        lemma_lightest(front);
        let before = lightest(front);
        assert(front[before] == forest[before]);
        assert forall|i: int| 0 <= i < forest.len() implies forest[lightest(forest)].weight() <= (
        #[trigger] forest[i]).weight() by {
            if i < front.len() {
                assert(front[i] == forest[i]);
            }
        }
        assert forall|i: int| 0 <= i < lightest(forest) implies forest[lightest(forest)].weight()
            < (#[trigger] forest[i]).weight() by {
            assert(front[i] == forest[i]);
        }
    }
}

/// The first place that holds a weight which nothing undercuts is the
/// lightest.
pub proof fn lemma_lightest_is(forest: Seq<Tree>, at: int)
    requires
        0 <= at < forest.len(),
        forall|i: int|
            0 <= i < forest.len() ==> forest[at].weight() <= (#[trigger] forest[i]).weight(),
        forall|i: int| 0 <= i < at ==> forest[at].weight() < (#[trigger] forest[i]).weight(),
    ensures
        lightest(forest) == at,
{
    lemma_lightest(forest);
    let found = lightest(forest);
    if found < at {
        assert(forest[at].weight() < forest[found].weight());
    } else if found > at {
        assert(forest[found].weight() < forest[at].weight());
    }
}

/// A merge makes the forest one tree shorter.
pub proof fn lemma_merge_lightest_len(forest: Seq<Tree>)
    requires
        forest.len() >= 2,
    ensures
        merge_lightest(forest).len() == forest.len() - 1,
{
    lemma_lightest(forest);
    lemma_lightest(forest.remove(lightest(forest)));
}

/// Taking a tree out of a forest takes its weight out of the sum.
pub proof fn lemma_forest_weight_remove(forest: Seq<Tree>, at: int)
    requires
        0 <= at < forest.len(),
    ensures
        forest_weight(forest) == forest_weight(forest.remove(at)) + forest[at].weight(),
    decreases forest.len(),
{
    let front = forest.drop_last();
    if at == forest.len() - 1 {
        assert(forest.remove(at) =~= front);
    } else {
        lemma_forest_weight_remove(front, at);
        assert(forest.remove(at).drop_last() =~= front.remove(at));
        assert(forest.remove(at).last() == forest.last());
    }
}

/// A merge leaves the sum of the root weights as it was.
pub proof fn lemma_merge_lightest_weight(forest: Seq<Tree>)
    requires
        forest.len() >= 2,
    ensures
        forest_weight(merge_lightest(forest)) == forest_weight(forest),
{
    lemma_lightest(forest);
    let first = lightest(forest);
    let rest = forest.remove(first);
    lemma_lightest(rest);
    let second = lightest(rest);
    lemma_forest_weight_remove(forest, first);
    lemma_forest_weight_remove(rest, second);
    let merged = merge_lightest(forest);
    assert(merged.drop_last() =~= rest.remove(second));
}

/// The leaves of a table weigh as much as the table counts.
pub proof fn lemma_leaf_forest_weight(entries: Seq<(char, u64)>)
    ensures
        forest_weight(leaf_forest(entries)) == total_count(entries),
    decreases entries.len(),
{
    if entries.len() > 0 {
        lemma_leaf_forest_weight(entries.drop_last());
        assert(leaf_forest(entries).drop_last() =~= leaf_forest(entries.drop_last()));
    }
}

/// The leaves of all trees of a forest, as a bag.
pub open spec fn forest_leaves(forest: Seq<Tree>) -> Multiset<(char, nat)>
    decreases forest.len(),
{
    if forest.len() == 0 {
        Multiset::empty()
    } else {
        forest_leaves(forest.drop_last()).add(forest.last().leaves().to_multiset())
    }
}

/// The entries of a frequency table as a bag of symbols with their weights.
pub open spec fn entry_bag(entries: Seq<(char, u64)>) -> Multiset<(char, nat)>
    decreases entries.len(),
{
    if entries.len() == 0 {
        Multiset::empty()
    } else {
        entry_bag(entries.drop_last()).insert((entries.last().0, entries.last().1 as nat))
    }
}

/// Every tree of the forest is consistent.
pub open spec fn all_consistent(forest: Seq<Tree>) -> bool {
    forall|i: int| 0 <= i < forest.len() ==> (#[trigger] forest[i]).consistent()
}

/// Taking a tree out of a forest takes its leaves out of the bag.
pub proof fn lemma_forest_leaves_remove(forest: Seq<Tree>, at: int)
    requires
        0 <= at < forest.len(),
    ensures
        forest_leaves(forest) =~= forest_leaves(forest.remove(at)).add(
            forest[at].leaves().to_multiset(),
        ),
    decreases forest.len(),
{
    let front = forest.drop_last();
    if at == forest.len() - 1 {
        assert(forest.remove(at) =~= front);
    } else {
        lemma_forest_leaves_remove(front, at);
        assert(forest.remove(at).drop_last() =~= front.remove(at));
        assert(forest.remove(at).last() == forest.last());
    }
}

/// A merge keeps the leaves of the forest and the consistency of its trees.
pub proof fn lemma_merge_lightest_keeps(forest: Seq<Tree>)
    requires
        forest.len() >= 2,
    ensures
        forest_leaves(merge_lightest(forest)) =~= forest_leaves(forest),
        all_consistent(forest) ==> all_consistent(merge_lightest(forest)),
{
    lemma_lightest(forest);
    let first = lightest(forest);
    let rest = forest.remove(first);
    lemma_lightest(rest);
    let second = lightest(rest);
    lemma_forest_leaves_remove(forest, first);
    lemma_forest_leaves_remove(rest, second);
    let merged = merge_lightest(forest);
    let last = rest.remove(second);
    assert(merged.drop_last() =~= last);
    vstd::seq_lib::lemma_multiset_commutative(forest[first].leaves(), rest[second].leaves());
    if all_consistent(forest) {
        assert forall|i: int| 0 <= i < merged.len() implies (#[trigger] merged[i]).consistent() by {
            assert(rest[second] == forest[if second < first {
                second
            } else {
                second + 1
            }]);
            if i < last.len() {
                let j = if i < second {
                    i
                } else {
                    i + 1
                };
                assert(merged[i] == rest[j]);
                assert(rest[j] == forest[if j < first {
                    j
                } else {
                    j + 1
                }]);
            }
        }
    }
}

/// The tree that a forest is merged into weighs what the roots of the
/// forest weigh together and has their leaves; where the trees of the
/// forest are consistent, so is the result.
pub proof fn lemma_merge_all(forest: Seq<Tree>)
    requires
        forest.len() > 0,
    ensures
        merge_all(forest).weight() == forest_weight(forest),
        merge_all(forest).leaves().to_multiset() =~= forest_leaves(forest),
        all_consistent(forest) ==> merge_all(forest).consistent(),
    decreases forest.len(),
{
    if forest.len() == 1 {
        assert(forest_weight(forest.drop_last()) == 0);
        assert(forest_leaves(forest.drop_last()) =~= Multiset::empty());
    } else {
        lemma_merge_lightest_len(forest);
        lemma_merge_lightest_weight(forest);
        lemma_merge_lightest_keeps(forest);
        lemma_merge_all(merge_lightest(forest));
    }
}

/// The leaves of a table's forest are the table's entries, and each of
/// them is consistent.
pub proof fn lemma_leaf_forest(entries: Seq<(char, u64)>)
    ensures
        forest_leaves(leaf_forest(entries)) =~= entry_bag(entries),
        all_consistent(leaf_forest(entries)),
        entry_bag(entries).len() == entries.len(),
    decreases entries.len(),
{
    broadcast use vstd::seq_lib::group_to_multiset_ensures;

    if entries.len() > 0 {
        lemma_leaf_forest(entries.drop_last());
        assert(leaf_forest(entries).drop_last() =~= leaf_forest(entries.drop_last()));
        let leaf = leaf_forest(entries).last();
        assert(leaf.leaves() =~= Seq::<(char, nat)>::empty().push(
            (entries.last().0, entries.last().1 as nat),
        ));
        assert(Seq::<(char, nat)>::empty().to_multiset() =~= Multiset::empty());
    }
}

/// The Huffman tree of a table that is not empty: every internal node
/// weighs as much as its children, the root weighs as much as the table
/// counts, the leaves are the table's entries, and there is one internal
/// node less than there are entries.
pub proof fn lemma_huffman_tree(entries: Seq<(char, u64)>)
    requires
        entries.len() > 0,
    ensures
        huffman_tree(entries).consistent(),
        huffman_tree(entries).weight() == total_count(entries),
        huffman_tree(entries).total() == total_count(entries),
        huffman_tree(entries).leaves().to_multiset() =~= entry_bag(entries),
        huffman_tree(entries).leaves().len() == entries.len(),
        huffman_tree(entries).internal_count() == entries.len() - 1,
{
    broadcast use vstd::seq_lib::group_to_multiset_ensures;

    lemma_leaf_forest(entries);
    lemma_leaf_forest_weight(entries);
    lemma_merge_all(leaf_forest(entries));
    lemma_consistent_weight(huffman_tree(entries));
    lemma_leaf_count(huffman_tree(entries));
}

/// The forest is in the state that merging keeps: its trees are
/// consistent and graded and have positive leaves, and no tree is lighter
/// than a child of a root.
pub open spec fn forest_graded(forest: Seq<Tree>) -> bool {
    &&& forall|i: int|
        0 <= i < forest.len() ==> {
            &&& (#[trigger] forest[i]).consistent()
            &&& forest[i].positive()
            &&& forest[i].graded()
        }
    &&& forall|i: int, j: int|
        0 <= i < forest.len() && 0 <= j < forest.len() ==> (#[trigger] forest[j]).weight() >= (
        #[trigger] forest[i]).child_weight()
}

/// A merge keeps the forest graded.
pub proof fn lemma_merge_lightest_graded(forest: Seq<Tree>)
    requires
        forest.len() >= 2,
        forest_graded(forest),
    ensures
        forest_graded(merge_lightest(forest)),
{
    lemma_lightest(forest);
    let first = lightest(forest);
    let rest = forest.remove(first);
    lemma_lightest(rest);
    let second = lightest(rest);
    let last = rest.remove(second);
    let merged = merge_lightest(forest);
    let a = forest[first];
    let b = rest[second];
    let top = merged[merged.len() - 1];
    let second_in_forest = if second < first {
        second
    } else {
        second + 1
    };
    assert(b == forest[second_in_forest]);
    assert(a.weight() <= b.weight());
    assert(b.weight() >= a.child_weight());
    assert(a.weight() >= b.child_weight());
    assert(top.consistent() && top.positive() && top.graded());
    assert(top.child_weight() == b.weight());
    assert forall|i: int| 0 <= i < last.len() implies exists|k: int|
        0 <= k < forest.len() && forest[k] == #[trigger] last[i] && rest.contains(last[i]) by {
        let j = if i < second {
            i
        } else {
            i + 1
        };
        assert(last[i] == rest[j]);
        let k = if j < first {
            j
        } else {
            j + 1
        };
        assert(rest[j] == forest[k]);
    }
    assert forall|i: int| 0 <= i < merged.len() implies {
        &&& (#[trigger] merged[i]).consistent()
        &&& merged[i].positive()
        &&& merged[i].graded()
    } by {
        if i < last.len() {
            assert(merged[i] == last[i]);
            let k = choose|k: int| 0 <= k < forest.len() && forest[k] == last[i];
            assert(forest[k].consistent());
        }
    }
    assert forall|i: int, j: int|
        0 <= i < merged.len() && 0 <= j < merged.len() implies (#[trigger] merged[j]).weight() >= (
    #[trigger] merged[i]).child_weight() by {
        if j < last.len() {
            assert(merged[j] == last[j]);
            let kj = choose|k: int|
                0 <= k < forest.len() && forest[k] == last[j] && rest.contains(last[j]);
            let at = choose|at: int| 0 <= at < rest.len() && rest[at] == last[j];
            assert(rest[at].weight() >= b.weight());
            if i < last.len() {
                assert(merged[i] == last[i]);
                let ki = choose|k: int| 0 <= k < forest.len() && forest[k] == last[i];
                assert(forest[kj].weight() >= forest[ki].child_weight());
            }
        } else {
            if i < last.len() {
                assert(merged[i] == last[i]);
                let ki = choose|k: int| 0 <= k < forest.len() && forest[k] == last[i];
                assert(forest[first].weight() >= forest[ki].child_weight());
            }
        }
    }
}

/// The tree that a graded forest is merged into is graded, and so are
/// the leaves of a table whose counts are positive.
pub proof fn lemma_merge_all_graded(forest: Seq<Tree>)
    requires
        forest.len() > 0,
        forest_graded(forest),
    ensures
        merge_all(forest).consistent(),
        merge_all(forest).positive(),
        merge_all(forest).graded(),
    decreases forest.len(),
{
    if forest.len() > 1 {
        lemma_merge_lightest_len(forest);
        lemma_merge_lightest_graded(forest);
        lemma_merge_all_graded(merge_lightest(forest));
    }
}

/// Every count of the table is at least one.
pub open spec fn counts_positive(entries: Seq<(char, u64)>) -> bool {
    forall|i: int| 0 <= i < entries.len() ==> (#[trigger] entries[i]).1 >= 1
}

/// In the Huffman tree of a table with positive counts that add up to
/// less than two to the power of 64, no leaf lies more than 127 steps
/// below the root.
pub proof fn lemma_huffman_tree_depth(entries: Seq<(char, u64)>, path: Seq<bool>)
    requires
        entries.len() > 0,
        counts_positive(entries),
        total_count(entries) <= u64::MAX,
        huffman_tree(entries).leaf_at(path) is Some,
    ensures
        path.len() < 128,
{
    let forest = leaf_forest(entries);
    assert(forest_graded(forest)) by {
        assert forall|i: int| 0 <= i < forest.len() implies {
            &&& (#[trigger] forest[i]).consistent()
            &&& forest[i].positive()
            &&& forest[i].graded()
        } by {
            assert(forest[i] == leaf_of(entries[i]));
        }
    }
    lemma_merge_all_graded(forest);
    lemma_huffman_tree(entries);
    crate::tree::lemma_depth_weight(huffman_tree(entries), path);
    if path.len() >= 128 {
        crate::tree::lemma_half_power_grows(128, path.len());
        crate::tree::lemma_half_power_limit();
    }
}

/// The entry of a frequency table as a leaf shows it.
pub open spec fn entry_leaf(entry: (char, u64)) -> (char, nat) {
    (entry.0, entry.1 as nat)
}

/// What is in the bag of the entries is one of the entries.
pub proof fn lemma_entry_bag_member(entries: Seq<(char, u64)>, leaf: (char, nat))
    ensures
        entry_bag(entries).count(leaf) > 0 <==> exists|j: int|
            0 <= j < entries.len() && entry_leaf(#[trigger] entries[j]) == leaf,
    decreases entries.len(),
{
    if entries.len() > 0 {
        let front = entries.drop_last();
        lemma_entry_bag_member(front, leaf);
        if exists|j: int| 0 <= j < front.len() && entry_leaf(#[trigger] front[j]) == leaf {
            let j = choose|j: int| 0 <= j < front.len() && entry_leaf(#[trigger] front[j]) == leaf;
            assert(entry_leaf(entries[j]) == leaf);
        }
        if entry_leaf(entries.last()) == leaf {
            assert(entry_leaf(entries[entries.len() - 1]) == leaf);
        }
        if exists|j: int| 0 <= j < entries.len() && entry_leaf(#[trigger] entries[j]) == leaf {
            let j = choose|j: int|
                0 <= j < entries.len() && entry_leaf(#[trigger] entries[j]) == leaf;
            if j < front.len() {
                assert(entry_leaf(front[j]) == leaf);
            }
        }
    }
}

/// The Huffman tree of a table holds the symbols of the table and no
/// others.
pub proof fn lemma_huffman_tree_symbols(entries: Seq<(char, u64)>, symbol: char)
    requires
        entries.len() > 0,
    ensures
        huffman_tree(entries).holds(symbol) <==> crate::assoc::has_symbol(entries, symbol),
{
    broadcast use vstd::seq_lib::group_to_multiset_ensures;

    let tree = huffman_tree(entries);
    let leaves = tree.leaves();
    lemma_huffman_tree(entries);
    crate::tree::lemma_holds_leaves(tree, symbol);
    leaves.to_multiset_ensures();
    if tree.holds(symbol) {
        let i = choose|i: int| 0 <= i < leaves.len() && (#[trigger] leaves[i]).0 == symbol;
        assert(leaves.contains(leaves[i]));
        assert(leaves.to_multiset().count(leaves[i]) > 0);
        lemma_entry_bag_member(entries, leaves[i]);
        let j = choose|j: int|
            0 <= j < entries.len() && entry_leaf(#[trigger] entries[j]) == leaves[i];
        assert(entries[j].0 == symbol);
    }
    if crate::assoc::has_symbol(entries, symbol) {
        let j = choose|j: int| 0 <= j < entries.len() && (#[trigger] entries[j]).0 == symbol;
        let leaf = entry_leaf(entries[j]);
        lemma_entry_bag_member(entries, leaf);
        assert(leaves.to_multiset().count(leaf) > 0);
        assert(leaves.contains(leaf));
        let i = choose|i: int| 0 <= i < leaves.len() && leaves[i] == leaf;
        assert(leaves[i].0 == symbol);
    }
}

/// The trees that a row of nodes stands for.
pub open spec fn forest_of(nodes: Seq<BoxedHuffNode>) -> Seq<Tree> {
    Seq::new(nodes.len(), |i: int| nodes[i]@)
}

/// The queue of the tree builder: nodes in the order in which they came,
/// of which the lightest goes first. Its view is the forest of the trees
/// that the nodes stand for.
pub struct NodeQueue {
    nodes: Vec<BoxedHuffNode>,
}

impl View for NodeQueue {
    type V = Seq<Tree>;

    closed spec fn view(&self) -> Seq<Tree> {
        forest_of(self.nodes@)
    }
}

impl NodeQueue {
    /// A queue without nodes.
    pub fn new() -> (queue: NodeQueue)
        ensures
            queue@ == Seq::<Tree>::empty(),
    {
        let queue = NodeQueue { nodes: Vec::new() };
        assert(queue@ =~= Seq::<Tree>::empty());
        queue
    }

    /// The number of nodes in the queue.
    pub fn len(&self) -> (len: usize)
        ensures
            len == self@.len(),
    {
        self.nodes.len()
    }

    /// Puts a node at the end of the queue.
    pub fn push(&mut self, node: BoxedHuffNode)
        ensures
            final(self)@ == old(self)@.push(node@),
    {
        self.nodes.push(node);
        assert(self@ =~= old(self)@.push(node@));
    }

    /// Takes the lightest node out of the queue; of several equally light
    /// ones, the one that has been in it longest. An empty queue gives
    /// nothing.
    pub fn pop(&mut self) -> (node: Option<BoxedHuffNode>)
        ensures
            match node {
                Some(node) => {
                    &&& old(self)@.len() > 0
                    &&& node@ == old(self)@[lightest(old(self)@)]
                    &&& final(self)@ == old(self)@.remove(lightest(old(self)@))
                },
                None => old(self)@.len() == 0 && final(self)@ == old(self)@,
            },
    {
        if self.nodes.len() == 0 {
            return None;
        }
        let mut best: usize = 0;
        let mut next: usize = 1;
        while next < self.nodes.len()
            invariant
                0 <= best < next <= self.nodes@.len(),
                forall|i: int|
                    0 <= i < next ==> self.nodes@[best as int]@.weight() <= (
                    #[trigger] self.nodes@[i])@.weight(),
                forall|i: int|
                    0 <= i < best ==> self.nodes@[best as int]@.weight() < (
                    #[trigger] self.nodes@[i])@.weight(),
            decreases self.nodes@.len() - next,
        {
            if self.nodes[next] > self.nodes[best] {
                best = next;
            }
            next = next + 1;
        }
        proof {
            let forest = forest_of(self.nodes@);
            assert forall|i: int| 0 <= i < forest.len() implies forest[best as int].weight() <= (
            #[trigger] forest[i]).weight() by {
                assert(self.nodes@[i]@.weight() >= self.nodes@[best as int]@.weight());
            }
            assert forall|i: int| 0 <= i < best implies forest[best as int].weight() < (
            #[trigger] forest[i]).weight() by {
                assert(self.nodes@[i]@.weight() > self.nodes@[best as int]@.weight());
            }
            lemma_lightest_is(forest, best as int);
        }
        let node = self.nodes.remove(best);
        assert(self@ =~= old(self)@.remove(best as int));
        Some(node)
    }
}

} // verus!
