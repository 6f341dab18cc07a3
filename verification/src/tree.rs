use vstd::prelude::*;

verus! {

/// A weighted binary tree with symbols at its leaves: the mathematical value
/// that the node types of this module stand for.
pub enum Tree {
    Leaf { symbol: char, weight: nat },
    Node { left: Box<Tree>, right: Box<Tree>, weight: nat },
}

impl Tree {
    /// The weight recorded at the root of the tree.
    pub open spec fn weight(self) -> nat {
        match self {
            Tree::Leaf { weight, .. } => weight,
            Tree::Node { weight, .. } => weight,
        }
    }

    /// The sum of the weights of the leaves.
    pub open spec fn total(self) -> nat
        decreases self,
    {
        match self {
            Tree::Leaf { weight, .. } => weight,
            Tree::Node { left, right, .. } => left.total() + right.total(),
        }
    }

    /// Every internal node weighs as much as its two children together.
    pub open spec fn consistent(self) -> bool
        decreases self,
    {
        match self {
            Tree::Leaf { .. } => true,
            Tree::Node { left, right, weight } => {
                &&& weight == left.weight() + right.weight()
                &&& left.consistent()
                &&& right.consistent()
            },
        }
    }

    /// The leaves from left to right, each as its symbol and weight.
    pub open spec fn leaves(self) -> Seq<(char, nat)>
        decreases self,
    {
        match self {
            Tree::Leaf { symbol, weight } => seq![(symbol, weight)],
            Tree::Node { left, right, .. } => left.leaves() + right.leaves(),
        }
    }

    /// Whether some leaf holds `symbol`.
    pub open spec fn holds(self, symbol: char) -> bool
        decreases self,
    {
        match self {
            Tree::Leaf { symbol: own, .. } => own == symbol,
            Tree::Node { left, right, .. } => left.holds(symbol) || right.holds(symbol),
        }
    }

    /// The symbol of the leaf that `path` leads to, if it leads to one:
    /// from the root, `false` is a step to the left, `true` one to the right.
    pub open spec fn leaf_at(self, path: Seq<bool>) -> Option<char>
        decreases self,
    {
        match self {
            Tree::Leaf { symbol, .. } => if path.len() == 0 {
                Some(symbol)
            } else {
                None
            },
            Tree::Node { left, right, .. } => if path.len() == 0 {
                None
            } else if path[0] {
                right.leaf_at(path.drop_first())
            } else {
                left.leaf_at(path.drop_first())
            },
        }
    }

    /// Every leaf weighs at least one.
    pub open spec fn positive(self) -> bool
        decreases self,
    {
        match self {
            Tree::Leaf { weight, .. } => weight >= 1,
            Tree::Node { left, right, .. } => left.positive() && right.positive(),
        }
    }

    /// The weight of the heavier child; zero for a leaf.
    pub open spec fn child_weight(self) -> nat {
        match self {
            Tree::Leaf { .. } => 0,
            Tree::Node { left, right, .. } => if left.weight() >= right.weight() {
                left.weight()
            } else {
                right.weight()
            },
        }
    }

    /// Below every node, each child weighs at least as much as either
    /// child of the other: what merging the two lightest trees first
    /// leaves behind.
    pub open spec fn graded(self) -> bool
        decreases self,
    {
        match self {
            Tree::Leaf { .. } => true,
            Tree::Node { left, right, .. } => {
                &&& left.graded()
                &&& right.graded()
                &&& left.weight() >= right.child_weight()
                &&& right.weight() >= left.child_weight()
            },
        }
    }

    /// The number of internal nodes.
    pub open spec fn internal_count(self) -> nat
        decreases self,
    {
        match self {
            Tree::Leaf { .. } => 0,
            Tree::Node { left, right, .. } => 1 + left.internal_count() + right.internal_count(),
        }
    }
}

/// In a consistent tree the root weighs as much as the leaves together.
pub proof fn lemma_consistent_weight(tree: Tree)
    requires
        tree.consistent(),
    ensures
        tree.weight() == tree.total(),
    decreases tree,
{
    match tree {
        Tree::Leaf { .. } => {},
        Tree::Node { left, right, .. } => {
            lemma_consistent_weight(*left);
            lemma_consistent_weight(*right);
        },
    }
}

/// A tree has one leaf more than it has internal nodes.
pub proof fn lemma_leaf_count(tree: Tree)
    ensures
        tree.leaves().len() == tree.internal_count() + 1,
    decreases tree,
{
    match tree {
        Tree::Leaf { .. } => {},
        Tree::Node { left, right, .. } => {
            lemma_leaf_count(*left);
            lemma_leaf_count(*right);
        },
    }
}

/// Of two ways that both end at a leaf, neither is the beginning of the
/// other.
pub proof fn lemma_leaf_paths_differ(tree: Tree, a: Seq<bool>, b: Seq<bool>)
    requires
        tree.leaf_at(a) is Some,
        tree.leaf_at(b) is Some,
        a.is_prefix_of(b),
    ensures
        a == b,
    decreases tree,
{
    match tree {
        Tree::Leaf { .. } => {
            assert(a =~= b);
        },
        Tree::Node { left, right, .. } => {
            assert(a[0] == b[0]);
            assert(a.drop_first().is_prefix_of(b.drop_first()));
            if a[0] {
                lemma_leaf_paths_differ(*right, a.drop_first(), b.drop_first());
            } else {
                lemma_leaf_paths_differ(*left, a.drop_first(), b.drop_first());
            }
            assert(a =~= seq![a[0]] + a.drop_first());
            assert(b =~= seq![b[0]] + b.drop_first());
        },
    }
}

/// A symbol is held by a tree exactly if it is the symbol of one of the
/// leaves.
pub proof fn lemma_holds_leaves(tree: Tree, symbol: char)
    ensures
        tree.holds(symbol) <==> exists|i: int|
            0 <= i < tree.leaves().len() && (#[trigger] tree.leaves()[i]).0 == symbol,
    decreases tree,
{
    match tree {
        Tree::Leaf { symbol: own, weight } => {
            if tree.holds(symbol) {
                assert(tree.leaves()[0].0 == symbol);
            }
        },
        Tree::Node { left, right, .. } => {
            lemma_holds_leaves(*left, symbol);
            lemma_holds_leaves(*right, symbol);
            let all = tree.leaves();
            let l = left.leaves();
            let r = right.leaves();
            if left.holds(symbol) {
                let i = choose|i: int| 0 <= i < l.len() && (#[trigger] l[i]).0 == symbol;
                assert(all[i] == l[i]);
            }
            if right.holds(symbol) {
                let i = choose|i: int| 0 <= i < r.len() && (#[trigger] r[i]).0 == symbol;
                assert(all[l.len() + i] == r[i]);
            }
            if exists|i: int| 0 <= i < all.len() && (#[trigger] all[i]).0 == symbol {
                let i = choose|i: int| 0 <= i < all.len() && (#[trigger] all[i]).0 == symbol;
                if i < l.len() {
                    assert(l[i] == all[i]);
                } else {
                    assert(r[i - l.len()] == all[i]);
                }
            }
        },
    }
}

/// Two to the power of half of `steps`, rounded down.
pub open spec fn half_power(steps: nat) -> nat
    decreases steps,
{
    if steps < 2 {
        1
    } else {
        2 * half_power((steps - 2) as nat)
    }
}

/// The half power grows with the number of steps.
pub proof fn lemma_half_power_grows(fewer: nat, more: nat)
    requires
        fewer <= more,
    ensures
        half_power(fewer) <= half_power(more),
        half_power(fewer) >= 1,
    decreases more,
{
    if fewer >= 2 {
        lemma_half_power_grows((fewer - 2) as nat, (more - 2) as nat);
    } else if more >= 2 {
        lemma_half_power_grows(0, (more - 2) as nat);
    }
}

/// After 128 steps the half power is two to the power of 64.
pub proof fn lemma_half_power_limit()
    ensures
        half_power(128) == 0x1_0000_0000_0000_0000,
{
    assert(half_power(0) == 1);
    assert(half_power(16) == 0x100) by {
        reveal_with_fuel(half_power, 10);
    }
    assert(half_power(32) == 0x1_0000) by {
        reveal_with_fuel(half_power, 9);
    }
    assert(half_power(48) == 0x100_0000) by {
        reveal_with_fuel(half_power, 9);
    }
    assert(half_power(64) == 0x1_0000_0000) by {
        reveal_with_fuel(half_power, 9);
    }
    assert(half_power(80) == 0x100_0000_0000) by {
        reveal_with_fuel(half_power, 9);
    }
    assert(half_power(96) == 0x1_0000_0000_0000) by {
        reveal_with_fuel(half_power, 9);
    }
    assert(half_power(112) == 0x100_0000_0000_0000) by {
        reveal_with_fuel(half_power, 9);
    }
    assert(half_power(128) == 0x1_0000_0000_0000_0000) by {
        reveal_with_fuel(half_power, 9);
    }
}

/// In a consistent tree no node weighs less than a child, and in one
/// with positive leaves every node weighs at least one.
pub proof fn lemma_weight_floor(tree: Tree)
    requires
        tree.consistent(),
        tree.positive(),
    ensures
        tree.weight() >= 1,
        tree.weight() >= tree.child_weight(),
    decreases tree,
{
    match tree {
        Tree::Leaf { .. } => {},
        Tree::Node { left, right, .. } => {
            lemma_weight_floor(*left);
            lemma_weight_floor(*right);
        },
    }
}

/// A graded tree doubles its weight with every two steps down: a tree
/// with a leaf `steps` steps below the root weighs at least two to the
/// power of half of `steps`.
pub proof fn lemma_depth_weight(tree: Tree, path: Seq<bool>)
    requires
        tree.consistent(),
        tree.positive(),
        tree.graded(),
        tree.leaf_at(path) is Some,
    ensures
        tree.weight() >= half_power(path.len()),
    decreases tree,
{
    lemma_weight_floor(tree);
    match tree {
        Tree::Leaf { .. } => {
            assert(path.len() == 0);
        },
        Tree::Node { left, right, .. } => {
            let rest = path.drop_first();
            let child = if path[0] {
                *right
            } else {
                *left
            };
            let other = if path[0] {
                *left
            } else {
                *right
            };
            assert(child.consistent() && child.positive() && child.graded());
            assert(other.consistent() && other.positive());
            assert(child.leaf_at(rest) is Some);
            assert(other.weight() >= child.child_weight());
            lemma_weight_floor(child);
            lemma_weight_floor(other);
            assert(tree.weight() == child.weight() + other.weight());
            if rest.len() > 0 {
                match child {
                    Tree::Leaf { .. } => {},
                    Tree::Node { left: low_left, right: low_right, .. } => {
                        let below = if rest[0] {
                            *low_right
                        } else {
                            *low_left
                        };
                        assert(below.consistent() && below.positive() && below.graded());
                        assert(below.leaf_at(rest.drop_first()) is Some);
                        lemma_depth_weight(below, rest.drop_first());
                        assert(child.child_weight() >= below.weight());
                        assert(path.len() - 2 == rest.drop_first().len());
                    },
                }
            }
        },
    }
}

} // verus!
