//! Why no tree is better than the one that the construction builds.
//!
//! The cost of a tree is the sum, over its leaves, of the leaf's weight
//! times its depth: the number of bits that a text takes under the codes of
//! the tree. The trees of this file hold weights only.

use crate::frequency::table_total;
use crate::tree::{
    leaves_of, lemma_leaves_of, lemma_lowest_in_range, lemma_merge_step, lemma_remove, lowest,
    merge_all, merge_step, queue_wf, total_frequency, Node,
};
use vstd::multiset::Multiset;
use vstd::prelude::*;

verus! {

/// A tree of weights: a leaf with its weight, or a fork of two trees.
pub enum Shape {
    Leaf(nat),
    Fork(Box<Shape>, Box<Shape>),
}

impl Shape {
    /// Sum of the weights of the leaves.
    pub open spec fn weight(self) -> nat
        decreases self,
    {
        match self {
            Shape::Leaf(w) => w,
            Shape::Fork(l, r) => l.weight() + r.weight(),
        }
    }

    /// Sum over the leaves of weight times depth.
    pub open spec fn cost(self) -> nat
        decreases self,
    {
        match self {
            Shape::Leaf(_) => 0,
            Shape::Fork(l, r) => l.cost() + r.cost() + l.weight() + r.weight(),
        }
    }

    /// The weights of the leaves, each as often as it stands at a leaf.
    pub open spec fn leaves(self) -> Multiset<nat>
        decreases self,
    {
        match self {
            Shape::Leaf(w) => Multiset::singleton(w),
            Shape::Fork(l, r) => l.leaves().add(r.leaves()),
        }
    }

    /// The greatest depth of a leaf.
    pub open spec fn height(self) -> nat
        decreases self,
    {
        match self {
            Shape::Leaf(_) => 0,
            Shape::Fork(l, r) => 1 + if l.height() >= r.height() {
                l.height()
            } else {
                r.height()
            },
        }
    }

    /// The subtree at the end of `path`, `false` for left and `true` for
    /// right; none where the path leaves the tree.
    pub open spec fn at(self, path: Seq<bool>) -> Option<Shape>
        decreases path.len(),
    {
        if path.len() == 0 {
            Some(self)
        } else {
            match self {
                Shape::Leaf(_) => None,
                Shape::Fork(l, r) => if path[0] {
                    r.at(path.drop_first())
                } else {
                    l.at(path.drop_first())
                },
            }
        }
    }

    /// The tree with `sub` in the place of the subtree at the end of `path`.
    pub open spec fn put(self, path: Seq<bool>, sub: Shape) -> Shape
        decreases path.len(),
    {
        if path.len() == 0 {
            sub
        } else {
            match self {
                Shape::Leaf(_) => self,
                Shape::Fork(l, r) => if path[0] {
                    Shape::Fork(l, Box::new(r.put(path.drop_first(), sub)))
                } else {
                    Shape::Fork(Box::new(l.put(path.drop_first(), sub)), r)
                },
            }
        }
    }
}

/// What a subtree in the place of another does to weight, cost and leaves:
/// the difference of the weights counts once for each step of the path.
pub proof fn lemma_put(tree: Shape, path: Seq<bool>, sub: Shape)
    requires
        tree.at(path) is Some,
    ensures
        tree.put(path, sub).at(path) == Some(sub),
        tree.put(path, sub).weight() + tree.at(path)->Some_0.weight() == tree.weight()
            + sub.weight(),
        tree.put(path, sub).cost() + tree.at(path)->Some_0.cost() + path.len() * tree.at(
            path,
        )->Some_0.weight() == tree.cost() + sub.cost() + path.len() * sub.weight(),
        forall|v: nat|
            #[trigger] tree.put(path, sub).leaves().count(v) + tree.at(path)->Some_0.leaves().count(
                v,
            ) == tree.leaves().count(v) + sub.leaves().count(v),
    decreases path.len(),
{
    broadcast use vstd::multiset::group_multiset_axioms;

    let old_sub = tree.at(path)->Some_0;
    let new_tree = tree.put(path, sub);
    if path.len() == 0 {
    } else {
        let rest = path.drop_first();
        match tree {
            Shape::Leaf(_) => {},
            Shape::Fork(l, r) => {
                let child = if path[0] {
                    *r
                } else {
                    *l
                };
                lemma_put(child, rest, sub);
                assert(path.len() * old_sub.weight() == rest.len() * old_sub.weight()
                    + old_sub.weight()) by (nonlinear_arith)
                    requires
                        path.len() == rest.len() + 1,
                ;
                assert(path.len() * sub.weight() == rest.len() * sub.weight() + sub.weight())
                    by (nonlinear_arith)
                    requires
                        path.len() == rest.len() + 1,
                ;
                assert forall|v: nat|
                    #[trigger] new_tree.leaves().count(v) + old_sub.leaves().count(v)
                        == tree.leaves().count(v) + sub.leaves().count(v) by {
                    assert(child.put(rest, sub).leaves().count(v) + old_sub.leaves().count(v)
                        == child.leaves().count(v) + sub.leaves().count(v));
                }
            },
        }
    }
}

/// The paths part at some step: neither is the beginning of the other.
pub open spec fn apart(p: Seq<bool>, q: Seq<bool>) -> bool
    decreases p.len(),
{
    p.len() > 0 && q.len() > 0 && (p[0] != q[0] || apart(p.drop_first(), q.drop_first()))
}

/// A new subtree at `p` leaves what stands at a path apart from `p`.
pub proof fn lemma_put_apart(tree: Shape, p: Seq<bool>, sub: Shape, q: Seq<bool>)
    requires
        apart(p, q),
    ensures
        tree.put(p, sub).at(q) == tree.at(q),
    decreases p.len(),
{
    match tree {
        Shape::Leaf(_) => {},
        Shape::Fork(l, r) => {
            if p[0] == q[0] {
                let child = if p[0] {
                    *r
                } else {
                    *l
                };
                lemma_put_apart(child, p.drop_first(), sub, q.drop_first());
            }
        },
    }
}

/// Two leaves of a tree stand at the same path or at paths apart.
pub proof fn lemma_leaves_apart(tree: Shape, p: Seq<bool>, q: Seq<bool>)
    requires
        tree.at(p) matches Some(Shape::Leaf(_)),
        tree.at(q) matches Some(Shape::Leaf(_)),
        p != q,
    ensures
        apart(p, q),
    decreases p.len(),
{
    match tree {
        Shape::Leaf(_) => {
            assert(p.len() == 0 && q.len() == 0);
            assert(p =~= q);
        },
        Shape::Fork(l, r) => {
            if p[0] == q[0] {
                let child = if p[0] {
                    *r
                } else {
                    *l
                };
                if p.drop_first() == q.drop_first() {
                    assert(p =~= seq![p[0]] + p.drop_first());
                    assert(q =~= seq![q[0]] + q.drop_first());
                }
                lemma_leaves_apart(child, p.drop_first(), q.drop_first());
            }
        },
    }
}

/// A weight that stands at a leaf is among the leaves, and the leaf is no
/// deeper than the tree is high.
pub proof fn lemma_at_leaf(tree: Shape, path: Seq<bool>)
    requires
        tree.at(path) matches Some(Shape::Leaf(_)),
    ensures
        tree.leaves().count(tree.at(path)->Some_0->Leaf_0) > 0,
        path.len() <= tree.height(),
    decreases path.len(),
{
    broadcast use vstd::multiset::group_multiset_axioms;

    if path.len() > 0 {
        match tree {
            Shape::Leaf(_) => {},
            Shape::Fork(l, r) => {
                let child = if path[0] {
                    *r
                } else {
                    *l
                };
                lemma_at_leaf(child, path.drop_first());
            },
        }
    }
}

/// The path to a leaf of weight `weight`, the leftmost of them.
pub open spec fn find(tree: Shape, weight: nat) -> Seq<bool>
    decreases tree,
{
    match tree {
        Shape::Leaf(_) => Seq::empty(),
        Shape::Fork(l, r) => if l.leaves().count(weight) > 0 {
            seq![false] + find(*l, weight)
        } else {
            seq![true] + find(*r, weight)
        },
    }
}

/// A weight among the leaves is found at a leaf.
pub proof fn lemma_find(tree: Shape, weight: nat)
    requires
        tree.leaves().count(weight) > 0,
    ensures
        tree.at(find(tree, weight)) == Some(Shape::Leaf(weight)),
    decreases tree,
{
    broadcast use vstd::multiset::group_multiset_axioms;

    match tree {
        Shape::Leaf(w) => {
            assert(w == weight);
        },
        Shape::Fork(l, r) => {
            let path = find(tree, weight);
            if l.leaves().count(weight) > 0 {
                lemma_find(*l, weight);
                assert(path.drop_first() =~= find(*l, weight));
            } else {
                lemma_find(*r, weight);
                assert(path.drop_first() =~= find(*r, weight));
            }
        },
    }
}

/// A fork of two leaves.
pub open spec fn is_pair(tree: Shape) -> bool {
    match tree {
        Shape::Leaf(_) => false,
        Shape::Fork(l, r) => (*l) is Leaf && (*r) is Leaf,
    }
}

/// The path to a fork of two leaves that lies deepest in a tree.
pub open spec fn deepest(tree: Shape) -> Seq<bool>
    decreases tree,
{
    match tree {
        Shape::Leaf(_) => Seq::empty(),
        Shape::Fork(l, r) => if l.height() == 0 && r.height() == 0 {
            Seq::empty()
        } else if l.height() >= r.height() {
            seq![false] + deepest(*l)
        } else {
            seq![true] + deepest(*r)
        },
    }
}

/// In a tree that is no leaf the deepest fork holds two leaves, and they
/// are as deep as the tree is high.
pub proof fn lemma_deepest(tree: Shape)
    requires
        tree is Fork,
    ensures
        tree.at(deepest(tree)) matches Some(sub) && is_pair(sub),
        deepest(tree).len() + 1 == tree.height(),
    decreases tree,
{
    match tree {
        Shape::Leaf(_) => {},
        Shape::Fork(l, r) => {
            let path = deepest(tree);
            if l.height() == 0 && r.height() == 0 {
            } else if l.height() >= r.height() {
                lemma_deepest(*l);
                assert(path.drop_first() =~= deepest(*l));
            } else {
                lemma_deepest(*r);
                assert(path.drop_first() =~= deepest(*r));
            }
        },
    }
}

/// What stands one step behind `path`.
pub proof fn lemma_at_push(tree: Shape, path: Seq<bool>, step: bool)
    ensures
        tree.at(path.push(step)) == match tree.at(path) {
            Some(Shape::Fork(l, r)) => Some(
                if step {
                    *r
                } else {
                    *l
                },
            ),
            _ => None::<Shape>,
        },
    decreases path.len(),
{
    let longer = path.push(step);
    if path.len() == 0 {
        assert(longer.drop_first() =~= Seq::<bool>::empty());
        match tree {
            Shape::Leaf(_) => {},
            Shape::Fork(l, r) => {
                assert(r.at(Seq::<bool>::empty()) == Some(*r));
                assert(l.at(Seq::<bool>::empty()) == Some(*l));
            },
        }
    } else {
        assert(longer.drop_first() =~= path.drop_first().push(step));
        match tree {
            Shape::Leaf(_) => {},
            Shape::Fork(l, r) => {
                let child = if path[0] {
                    *r
                } else {
                    *l
                };
                lemma_at_push(child, path.drop_first(), step);
            },
        }
    }
}

/// Paths that are apart are so from either side.
pub proof fn lemma_apart_symmetric(p: Seq<bool>, q: Seq<bool>)
    requires
        apart(p, q),
    ensures
        apart(q, p),
    decreases p.len(),
{
    if p[0] == q[0] {
        lemma_apart_symmetric(p.drop_first(), q.drop_first());
    }
}

/// A leaf in the place of a leaf leaves the height of the tree.
pub proof fn lemma_put_leaf_height(tree: Shape, path: Seq<bool>, weight: nat)
    requires
        tree.at(path) matches Some(Shape::Leaf(_)),
    ensures
        tree.put(path, Shape::Leaf(weight)).height() == tree.height(),
    decreases path.len(),
{
    if path.len() > 0 {
        match tree {
            Shape::Leaf(_) => {},
            Shape::Fork(l, r) => {
                let child = if path[0] {
                    *r
                } else {
                    *l
                };
                lemma_put_leaf_height(child, path.drop_first(), weight);
            },
        }
    }
}

/// The tree in which the leaves at `p` and `q` have changed places.
pub open spec fn swapped(tree: Shape, p: Seq<bool>, q: Seq<bool>) -> Shape {
    tree.put(p, tree.at(q)->Some_0).put(q, tree.at(p)->Some_0)
}

/// Two leaves that change places leave the leaves and the height of the
/// tree, and what stands apart from both; the cost changes by the
/// difference of the weights for each step between the depths.
pub proof fn lemma_swapped(tree: Shape, p: Seq<bool>, q: Seq<bool>, u: nat, v: nat)
    requires
        tree.at(p) == Some(Shape::Leaf(u)),
        tree.at(q) == Some(Shape::Leaf(v)),
        p != q,
    ensures
        swapped(tree, p, q).at(p) == Some(Shape::Leaf(v)),
        swapped(tree, p, q).at(q) == Some(Shape::Leaf(u)),
        swapped(tree, p, q).height() == tree.height(),
        swapped(tree, p, q).cost() + p.len() * u + q.len() * v == tree.cost() + p.len() * v
            + q.len() * u,
        forall|w: nat| #[trigger] swapped(tree, p, q).leaves().count(w) == tree.leaves().count(w),
        forall|r: Seq<bool>|
            apart(p, r) && apart(q, r) ==> #[trigger] swapped(tree, p, q).at(r) == tree.at(r),
{
    broadcast use vstd::multiset::group_multiset_axioms;

    let first = tree.put(p, Shape::Leaf(v));
    let second = first.put(q, Shape::Leaf(u));
    lemma_leaves_apart(tree, p, q);
    lemma_apart_symmetric(p, q);
    lemma_put(tree, p, Shape::Leaf(v));
    lemma_put_apart(tree, p, Shape::Leaf(v), q);
    lemma_put(first, q, Shape::Leaf(u));
    lemma_put_apart(first, q, Shape::Leaf(u), p);
    lemma_put_leaf_height(tree, p, v);
    lemma_put_leaf_height(first, q, u);
    assert forall|w: nat| #[trigger] second.leaves().count(w) == tree.leaves().count(w) by {
        assert(first.leaves().count(w) + Shape::Leaf(u).leaves().count(w) == tree.leaves().count(
            w,
        ) + Shape::Leaf(v).leaves().count(w));
        assert(second.leaves().count(w) + Shape::Leaf(v).leaves().count(w)
            == first.leaves().count(w) + Shape::Leaf(u).leaves().count(w));
    }
    assert forall|r: Seq<bool>| apart(p, r) && apart(q, r) implies #[trigger] second.at(r)
        == tree.at(r) by {
        lemma_put_apart(tree, p, Shape::Leaf(v), r);
        lemma_put_apart(first, q, Shape::Leaf(u), r);
    }
}

/// `weight` is among `weights`, and none of them is below it.
pub open spec fn least(weights: Multiset<nat>, weight: nat) -> bool {
    weights.count(weight) > 0 && forall|e: nat| weights.count(e) > 0 ==> weight <= e
}

/// A tree with the same leaves, no higher cost and the same height, in
/// which the least weight stands at the left leaf of the deepest fork.
pub proof fn lemma_bring_first(tree: Shape, a: nat) -> (better: Shape)
    requires
        tree is Fork,
        least(tree.leaves(), a),
    ensures
        better.at(deepest(tree).push(false)) == Some(Shape::Leaf(a)),
        better.at(deepest(tree).push(true)) matches Some(Shape::Leaf(_)),
        better.height() == tree.height(),
        better.cost() <= tree.cost(),
        forall|w: nat| #[trigger] better.leaves().count(w) == tree.leaves().count(w),
{
    let p = deepest(tree);
    let at_left = p.push(false);
    let at_right = p.push(true);
    lemma_deepest(tree);
    lemma_at_push(tree, p, false);
    lemma_at_push(tree, p, true);
    let x = tree.at(at_left)->Some_0->Leaf_0;
    if x == a {
        tree
    } else {
        let q = find(tree, a);
        lemma_find(tree, a);
        lemma_at_leaf(tree, q);
        lemma_at_leaf(tree, at_left);
        lemma_swapped(tree, at_left, q, x, a);
        let better = swapped(tree, at_left, q);
        assert(better.cost() <= tree.cost()) by (nonlinear_arith)
            requires
                better.cost() + at_left.len() * x + q.len() * a == tree.cost() + at_left.len() * a + q.len()
                    * x,
                a <= x,
                q.len() <= at_left.len(),
        ;
        if q != at_right {
            assert(at_left != at_right) by {
                assert(at_left[p.len() as int] != at_right[p.len() as int]);
            }
            lemma_leaves_apart(tree, at_left, at_right);
            lemma_leaves_apart(tree, q, at_right);
        }
        better
    }
}

/// A tree with the same leaves and no higher cost in which the least two
/// weights stand at the leaves of one fork, where the least one stands at
/// the left leaf of a deepest fork already.
pub proof fn lemma_bring_second(tree: Shape, p: Seq<bool>, a: nat, b: nat) -> (better: Shape)
    requires
        tree.at(p.push(false)) == Some(Shape::Leaf(a)),
        tree.at(p.push(true)) matches Some(Shape::Leaf(_)),
        p.len() + 1 == tree.height(),
        least(tree.leaves().remove(a), b),
    ensures
        better.at(p.push(false)) == Some(Shape::Leaf(a)),
        better.at(p.push(true)) == Some(Shape::Leaf(b)),
        better.cost() <= tree.cost(),
        forall|w: nat| #[trigger] better.leaves().count(w) == tree.leaves().count(w),
{
    broadcast use vstd::multiset::group_multiset_axioms;

    let at_left = p.push(false);
    let at_right = p.push(true);
    let z = tree.at(at_right)->Some_0->Leaf_0;
    assert(at_left != at_right) by {
        assert(at_left[p.len() as int] != at_right[p.len() as int]);
    }
    lemma_leaves_apart(tree, at_left, at_right);
    if z == b {
        tree
    } else {
        let mask = tree.put(at_left, Shape::Leaf(b + 1));
        lemma_put(tree, at_left, Shape::Leaf(b + 1));
        lemma_put_apart(tree, at_left, Shape::Leaf(b + 1), at_right);
        assert(mask.leaves().count(b) + Shape::Leaf(a).leaves().count(b) == tree.leaves().count(b)
            + Shape::Leaf(b + 1).leaves().count(b));
        assert(mask.leaves().count(z) + Shape::Leaf(a).leaves().count(z) == tree.leaves().count(z)
            + Shape::Leaf(b + 1).leaves().count(z));
        lemma_at_leaf(mask, at_right);
        assert(b <= z) by {
            if z != b + 1 {
                assert(tree.leaves().remove(a).count(z) > 0);
            }
        }
        let q = find(mask, b);
        lemma_find(mask, b);
        lemma_leaves_apart(mask, at_left, q);
        lemma_put_apart(tree, at_left, Shape::Leaf(b + 1), q);
        lemma_at_leaf(tree, q);
        lemma_swapped(tree, at_right, q, z, b);
        let better = swapped(tree, at_right, q);
        lemma_apart_symmetric(at_left, at_right);
        lemma_apart_symmetric(at_left, q);
        assert(better.at(at_left) == tree.at(at_left));
        assert(better.cost() <= tree.cost()) by (nonlinear_arith)
            requires
                better.cost() + at_right.len() * z + q.len() * b == tree.cost() + at_right.len() * b + q.len()
                    * z,
                b <= z,
                q.len() <= at_right.len(),
        ;
        better
    }
}

/// The weights with `a` and `b` taken out and their sum put in.
pub open spec fn merged(weights: Multiset<nat>, a: nat, b: nat) -> Multiset<nat> {
    weights.remove(a).remove(b).insert(a + b)
}

/// Exchange: for a tree of at least two leaves there is a tree whose
/// leaves are those of the first with the least two weights merged into
/// one, and whose cost is lower by at least the sum of the two.
pub proof fn lemma_exchange(tree: Shape, a: nat, b: nat) -> (better: Shape)
    requires
        tree is Fork,
        least(tree.leaves(), a),
        least(tree.leaves().remove(a), b),
    ensures
        better.cost() + a + b <= tree.cost(),
        better.leaves() == merged(tree.leaves(), a, b),
{
    broadcast use vstd::multiset::group_multiset_axioms;

    let p = deepest(tree);
    lemma_deepest(tree);
    let first = lemma_bring_first(tree, a);
    assert(first.leaves() =~= tree.leaves());
    let second = lemma_bring_second(first, p, a, b);
    lemma_at_push(second, p, false);
    lemma_at_push(second, p, true);
    let pair = second.at(p)->Some_0;
    assert(pair == Shape::Fork(Box::new(Shape::Leaf(a)), Box::new(Shape::Leaf(b))));
    let better = second.put(p, Shape::Leaf(a + b));
    lemma_put(second, p, Shape::Leaf(a + b));
    let left = Shape::Leaf(a);
    let right = Shape::Leaf(b);
    assert(left.cost() == 0 && right.cost() == 0 && left.weight() == a && right.weight() == b);
    assert(pair.cost() == a + b);
    assert(pair.weight() == a + b);
    assert(pair.leaves() == left.leaves().add(right.leaves()));
    assert forall|w: nat| better.leaves().count(w) == merged(tree.leaves(), a, b).count(w) by {
        assert(better.leaves().count(w) + pair.leaves().count(w) == second.leaves().count(w)
            + Shape::Leaf(a + b).leaves().count(w));
        assert(second.leaves().count(w) == first.leaves().count(w));
        assert(first.leaves().count(w) == tree.leaves().count(w));
    }
    assert(better.leaves() =~= merged(tree.leaves(), a, b));
    better
}

/// Index of the first of the lowest among `weights[..n]`.
pub open spec fn lowest_weight(weights: Seq<nat>, n: int) -> int
    decreases n,
{
    if n <= 1 {
        0
    } else {
        let best = lowest_weight(weights, n - 1);
        if weights[n - 1] < weights[best] {
            n - 1
        } else {
            best
        }
    }
}

/// One round of the construction, on weights alone: the first of the
/// lowest leaves, then the first of the lowest of the rest, and their sum
/// is appended.
pub open spec fn merge_weights(weights: Seq<nat>) -> Seq<nat> {
    let i = lowest_weight(weights, weights.len() as int);
    let rest = weights.remove(i);
    let j = lowest_weight(rest, rest.len() as int);
    rest.remove(j).push(weights[i] + rest[j])
}

/// The cost of the tree that the construction builds over `weights`: the
/// sums that its rounds append, all together.
pub open spec fn merge_cost(weights: Seq<nat>) -> nat
    decreases weights.len(),
    via merge_cost_terminates
{
    if weights.len() <= 1 {
        0
    } else {
        merge_weights(weights).last() + merge_cost(merge_weights(weights))
    }
}

#[via_fn]
proof fn merge_cost_terminates(weights: Seq<nat>) {
    if weights.len() > 1 {
        lemma_lowest_weight(weights, weights.len() as int);
        let rest = weights.remove(lowest_weight(weights, weights.len() as int));
        lemma_lowest_weight(rest, rest.len() as int);
    }
}

/// `lowest_weight` picks a position below `n`, and no weight before `n` is
/// lower.
pub proof fn lemma_lowest_weight(weights: Seq<nat>, n: int)
    requires
        0 < n <= weights.len(),
    ensures
        0 <= lowest_weight(weights, n) < n,
        forall|k: int| 0 <= k < n ==> weights[lowest_weight(weights, n)] <= #[trigger] weights[k],
    decreases n,
{
    if n > 1 {
        lemma_lowest_weight(weights, n - 1);
    }
}

/// The lowest of a sequence of weights is the least of them as a multiset.
pub proof fn lemma_lowest_is_least(weights: Seq<nat>)
    requires
        weights.len() > 0,
    ensures
        least(weights.to_multiset(), weights[lowest_weight(weights, weights.len() as int)]),
{
    broadcast use vstd::seq_lib::group_to_multiset_ensures;

    let i = lowest_weight(weights, weights.len() as int);
    lemma_lowest_weight(weights, weights.len() as int);
    assert(weights.contains(weights[i]));
    assert forall|e: nat| weights.to_multiset().count(e) > 0 implies weights[i] <= e by {
        assert(weights.contains(e));
        let k = choose|k: int| 0 <= k < weights.len() && weights[k] == e;
        assert(weights[i] <= weights[k]);
    }
}

/// Least cost: no tree over the same weights costs less than the tree of
/// the construction.
pub proof fn lemma_merge_cost_least(weights: Seq<nat>, tree: Shape)
    requires
        weights.len() > 0,
        tree.leaves() == weights.to_multiset(),
    ensures
        merge_cost(weights) <= tree.cost(),
    decreases weights.len(),
{
    broadcast use vstd::multiset::group_multiset_axioms;
    broadcast use vstd::seq_lib::group_to_multiset_ensures;

    if weights.len() > 1 {
        assert(tree is Fork) by {
            if tree is Leaf {
                assert(tree.leaves().len() == 1);
            }
        }
        let i = lowest_weight(weights, weights.len() as int);
        lemma_lowest_weight(weights, weights.len() as int);
        let rest = weights.remove(i);
        let j = lowest_weight(rest, rest.len() as int);
        lemma_lowest_weight(rest, rest.len() as int);
        let a = weights[i];
        let b = rest[j];
        let next = merge_weights(weights);
        lemma_lowest_is_least(weights);
        lemma_lowest_is_least(rest);
        assert(rest.to_multiset() =~= weights.to_multiset().remove(a));
        assert(rest.remove(j).to_multiset() =~= rest.to_multiset().remove(b));
        assert(next.to_multiset() =~= merged(weights.to_multiset(), a, b));
        let better = lemma_exchange(tree, a, b);
        lemma_merge_cost_least(next, better);
    }
}

/// The weights of a Huffman tree: its shape with the frequencies of its
/// leaves.
pub open spec fn shape_of(node: Node) -> Shape
    decreases node,
{
    match (node.left, node.right) {
        (Some(l), Some(r)) => Shape::Fork(Box::new(shape_of(*l)), Box::new(shape_of(*r))),
        _ => Shape::Leaf(node.frequency as nat),
    }
}

/// Sum over the leaves below `node` of the leaf's frequency times its
/// depth, where `node` itself lies at `depth`: the number of bits that the
/// symbols below `node` take under the codes of the tree.
pub open spec fn weighted_length(node: Node, depth: nat) -> nat
    decreases node,
{
    match (node.left, node.right) {
        (Some(l), Some(r)) => weighted_length(*l, depth + 1) + weighted_length(*r, depth + 1),
        _ => node.frequency as nat * depth,
    }
}

/// A well-formed node carries the weight of its shape, and its weighted
/// length is the cost of its shape and its frequency for each step above.
pub proof fn lemma_shape_of(node: Node, depth: nat)
    requires
        node.wf(),
    ensures
        shape_of(node).weight() == node.frequency,
        weighted_length(node, depth) == shape_of(node).cost() + depth * node.frequency,
    decreases node,
{
    match (node.left, node.right) {
        (Some(l), Some(r)) => {
            lemma_shape_of(*l, depth + 1);
            lemma_shape_of(*r, depth + 1);
            assert((depth + 1) * l.frequency + (depth + 1) * r.frequency == depth * (l.frequency
                + r.frequency) + l.frequency + r.frequency) by (nonlinear_arith);
        },
        _ => {
            assert(node.frequency * depth == depth * node.frequency) by (nonlinear_arith);
        },
    }
}

/// The frequencies of the nodes of a queue.
pub open spec fn weights_of(queue: Seq<Node>) -> Seq<nat> {
    Seq::new(queue.len(), |k: int| queue[k].frequency as nat)
}

/// Sum of the costs of the shapes of the nodes of a queue.
pub open spec fn forest_cost(queue: Seq<Node>) -> nat
    decreases queue.len(),
{
    if queue.len() == 0 {
        0
    } else {
        forest_cost(queue.drop_last()) + shape_of(queue.last()).cost()
    }
}

/// Taking a node out of a queue takes the cost of its shape out of the sum.
pub proof fn lemma_forest_remove(queue: Seq<Node>, i: int)
    requires
        0 <= i < queue.len(),
    ensures
        forest_cost(queue) == forest_cost(queue.remove(i)) + shape_of(queue[i]).cost(),
    decreases queue.len(),
{
    if i == queue.len() - 1 {
        assert(queue.remove(i) =~= queue.drop_last());
    } else {
        lemma_forest_remove(queue.drop_last(), i);
        assert(queue.remove(i).drop_last() =~= queue.drop_last().remove(i));
        assert(queue.remove(i).last() == queue.last());
    }
}

/// The lowest node of a queue is the lowest of its weights.
pub proof fn lemma_lowest_same(queue: Seq<Node>, n: int)
    requires
        0 < n <= queue.len(),
    ensures
        lowest(queue, n) == lowest_weight(weights_of(queue), n),
    decreases n,
{
    if n > 1 {
        lemma_lowest_same(queue, n - 1);
        lemma_lowest_in_range(queue, n - 1);
    }
}

/// One round on a queue is one round on its weights, and adds the sum that
/// it appends to the cost of the shapes.
pub proof fn lemma_merge_step_weights(queue: Seq<Node>)
    requires
        queue.len() > 1,
        queue_wf(queue),
        total_frequency(queue) <= usize::MAX,
    ensures
        weights_of(merge_step(queue)) == merge_weights(weights_of(queue)),
        forest_cost(merge_step(queue)) == forest_cost(queue) + merge_weights(
            weights_of(queue),
        ).last(),
{
    let weights = weights_of(queue);
    let i = lowest(queue, queue.len() as int);
    lemma_lowest_in_range(queue, queue.len() as int);
    lemma_lowest_same(queue, queue.len() as int);
    let rest = queue.remove(i);
    assert(weights_of(rest) =~= weights.remove(i));
    let j = lowest(rest, rest.len() as int);
    lemma_lowest_in_range(rest, rest.len() as int);
    lemma_lowest_same(rest, rest.len() as int);
    let joined = Node::join(queue[i], rest[j]);
    lemma_remove(queue, i);
    lemma_remove(rest, j);
    assert(weights_of(rest.remove(j)) =~= weights.remove(i).remove(j));
    assert(joined.frequency == queue[i].frequency + rest[j].frequency);
    assert(weights_of(merge_step(queue)) =~= merge_weights(weights));
    lemma_forest_remove(queue, i);
    lemma_forest_remove(rest, j);
    assert(rest[j] == queue[if j < i {
        j
    } else {
        j + 1
    }]);
    lemma_shape_of(queue[i], 0);
    lemma_shape_of(rest[j], 0);
    assert(merge_step(queue).drop_last() =~= rest.remove(j));
    assert(merge_step(queue).last() == joined);
}

/// The shape of the tree that the construction builds from a queue costs
/// what the shapes of the queue cost and what the rounds add.
pub proof fn lemma_merge_all_cost(queue: Seq<Node>)
    requires
        queue.len() > 0,
        queue_wf(queue),
        total_frequency(queue) <= usize::MAX,
    ensures
        shape_of(merge_all(queue)).cost() == forest_cost(queue) + merge_cost(weights_of(queue)),
    decreases queue.len(),
{
    if queue.len() == 1 {
        assert(forest_cost(queue.drop_last()) == 0);
        assert(queue.last() == queue[0]);
    } else {
        lemma_merge_step(queue);
        lemma_merge_step_weights(queue);
        lemma_merge_all_cost(merge_step(queue));
    }
}

/// Leaves cost nothing.
pub proof fn lemma_leaves_cost(frequencies: Seq<(char, usize)>)
    ensures
        forest_cost(leaves_of(frequencies)) == 0,
    decreases frequencies.len(),
{
    if frequencies.len() > 0 {
        lemma_leaves_cost(frequencies.drop_last());
        assert(leaves_of(frequencies).drop_last() =~= leaves_of(frequencies.drop_last()));
    }
}

/// The weights of the leaves of the nodes of a queue, all together.
pub open spec fn forest_leaves(queue: Seq<Node>) -> Multiset<nat>
    decreases queue.len(),
{
    if queue.len() == 0 {
        Multiset::empty()
    } else {
        forest_leaves(queue.drop_last()).add(shape_of(queue.last()).leaves())
    }
}

/// Taking a node out of a queue takes its leaves out of the queue's.
pub proof fn lemma_forest_leaves_remove(queue: Seq<Node>, i: int)
    requires
        0 <= i < queue.len(),
    ensures
        forest_leaves(queue) == forest_leaves(queue.remove(i)).add(shape_of(queue[i]).leaves()),
    decreases queue.len(),
{
    broadcast use vstd::multiset::group_multiset_axioms;

    if i == queue.len() - 1 {
        assert(queue.remove(i) =~= queue.drop_last());
    } else {
        lemma_forest_leaves_remove(queue.drop_last(), i);
        assert(queue.remove(i).drop_last() =~= queue.drop_last().remove(i));
        assert(queue.remove(i).last() == queue.last());
        assert(forest_leaves(queue) =~= forest_leaves(queue.remove(i)).add(
            shape_of(queue[i]).leaves(),
        ));
    }
}

/// The tree that the construction builds from a queue has the leaves of
/// the queue.
pub proof fn lemma_merge_all_forest(queue: Seq<Node>)
    requires
        queue.len() > 0,
    ensures
        shape_of(merge_all(queue)).leaves() == forest_leaves(queue),
    decreases queue.len(),
{
    broadcast use vstd::multiset::group_multiset_axioms;

    if queue.len() == 1 {
        assert(queue.drop_last().len() == 0);
        assert(forest_leaves(queue.drop_last()) == Multiset::<nat>::empty());
        assert(queue.last() == queue[0]);
        assert(forest_leaves(queue) =~= shape_of(queue[0]).leaves());
    } else {
        let i = lowest(queue, queue.len() as int);
        lemma_lowest_in_range(queue, queue.len() as int);
        let rest = queue.remove(i);
        let j = lowest(rest, rest.len() as int);
        lemma_lowest_in_range(rest, rest.len() as int);
        let joined = Node::join(queue[i], rest[j]);
        let next = merge_step(queue);
        lemma_forest_leaves_remove(queue, i);
        lemma_forest_leaves_remove(rest, j);
        assert(next.drop_last() =~= rest.remove(j));
        assert(next.last() == joined);
        assert(shape_of(joined).leaves() == shape_of(queue[i]).leaves().add(
            shape_of(rest[j]).leaves(),
        ));
        assert(forest_leaves(next) =~= forest_leaves(queue));
        lemma_merge_all_forest(next);
    }
}

/// The leaves of a frequency table carry its counts.
pub proof fn lemma_leaves_forest(frequencies: Seq<(char, usize)>)
    ensures
        forest_leaves(leaves_of(frequencies)) == weights_of(leaves_of(frequencies)).to_multiset(),
    decreases frequencies.len(),
{
    broadcast use vstd::multiset::group_multiset_axioms;
    broadcast use vstd::seq_lib::group_to_multiset_ensures;

    let leaves = leaves_of(frequencies);
    let weights = weights_of(leaves);
    if frequencies.len() > 0 {
        let front = frequencies.drop_last();
        lemma_leaves_forest(front);
        assert(leaves.drop_last() =~= leaves_of(front));
        assert(weights =~= weights_of(leaves_of(front)).push(frequencies.last().1 as nat));
        assert(forest_leaves(leaves) =~= weights.to_multiset());
    } else {
        assert(weights =~= Seq::empty());
        assert(forest_leaves(leaves) =~= weights.to_multiset());
    }
}

/// The Huffman tree of a frequency table is one of the trees that carry its
/// counts.
pub proof fn lemma_huffman_carries(frequencies: Seq<(char, usize)>)
    requires
        frequencies.len() > 0,
        table_total(frequencies) <= usize::MAX,
    ensures
        carries(merge_all(leaves_of(frequencies)), frequencies),
{
    lemma_leaves_of(frequencies);
    crate::tree::lemma_merge_all(leaves_of(frequencies));
    lemma_merge_all_forest(leaves_of(frequencies));
    lemma_leaves_forest(frequencies);
}

/// In a tree of least cost a leaf of lower weight lies no higher than a
/// leaf of higher weight.
pub proof fn lemma_lighter_deeper(weights: Seq<nat>, tree: Shape, p: Seq<bool>, q: Seq<bool>)
    requires
        weights.len() > 0,
        tree.leaves() == weights.to_multiset(),
        tree.cost() == merge_cost(weights),
        tree.at(p) matches Some(Shape::Leaf(u)) && tree.at(q) matches Some(Shape::Leaf(v)) && u < v,
    ensures
        p.len() >= q.len(),
{
    let u = tree.at(p)->Some_0->Leaf_0;
    let v = tree.at(q)->Some_0->Leaf_0;
    if p.len() < q.len() {
        lemma_swapped(tree, p, q, u, v);
        let other = swapped(tree, p, q);
        assert(other.leaves() =~= tree.leaves());
        lemma_merge_cost_least(weights, other);
        assert(other.cost() < tree.cost()) by (nonlinear_arith)
            requires
                other.cost() + p.len() * u + q.len() * v == tree.cost() + p.len() * v + q.len()
                    * u,
                u < v,
                p.len() < q.len(),
        ;
    }
}

/// `node` is a well-formed tree whose leaves carry the counts of
/// `frequencies`, each count at one leaf.
pub open spec fn carries(node: Node, frequencies: Seq<(char, usize)>) -> bool {
    node.wf() && shape_of(node).leaves() == weights_of(leaves_of(frequencies)).to_multiset()
}

/// No tree that carries the counts of `frequencies` has a lower weighted
/// length than `node`.
pub open spec fn lightest(node: Node, frequencies: Seq<(char, usize)>) -> bool {
    forall|other: Node|
        carries(other, frequencies) ==> weighted_length(node, 0) <= #[trigger] weighted_length(
            other,
            0,
        )
}

/// Minimum weight: the Huffman tree of a frequency table has the least
/// weighted length of all well-formed trees whose leaves carry the counts
/// of the table.
pub proof fn lemma_huffman_optimal(frequencies: Seq<(char, usize)>, other: Node)
    requires
        frequencies.len() > 0,
        table_total(frequencies) <= usize::MAX,
        carries(other, frequencies),
    ensures
        weighted_length(merge_all(leaves_of(frequencies)), 0) <= weighted_length(other, 0),
{
    let leaves = leaves_of(frequencies);
    let root = merge_all(leaves);
    lemma_leaves_of(frequencies);
    lemma_leaves_cost(frequencies);
    lemma_merge_all_cost(leaves);
    crate::tree::lemma_merge_all(leaves);
    lemma_shape_of(root, 0);
    lemma_shape_of(other, 0);
    lemma_merge_cost_least(weights_of(leaves), shape_of(other));
}

} // verus!
