//! Breadth-first views of a plain binary tree of `i32` values: the
//! rows of a level-order walk, and the rightmost value of each level.

use vstd::prelude::*;

verus! {

/// A tree node with a value and two optional subtrees.
pub struct TreeNode {
    pub val: i32,
    pub left: Option<Box<TreeNode>>,
    pub right: Option<Box<TreeNode>>,
}

impl TreeNode {
    #[inline]
    pub fn new(val: i32) -> (r: Self)
        ensures
            r.val == val,
            r.left is None,
            r.right is None,
    {
        TreeNode { val, left: None, right: None }
    }
}

/// How many nodes the subtree under `link` holds.
pub open spec fn opt_weight(link: Option<Box<TreeNode>>) -> nat
    decreases link,
{
    match link {
        None => 0,
        Some(n) => 1 + opt_weight(n.left) + opt_weight(n.right),
    }
}

/// How many nodes the tree rooted at `n` holds.
pub open spec fn weight(n: TreeNode) -> nat {
    1 + opt_weight(n.left) + opt_weight(n.right)
}

/// How many nodes a wave of pending subtrees still holds.
pub open spec fn wave_weight(q: Seq<TreeNode>) -> nat
    decreases q.len(),
{
    if q.len() == 0 {
        0
    } else {
        weight(q[0]) + wave_weight(q.drop_first())
    }
}

/// The present children of `n`, left before right.
pub open spec fn kids_lr(n: TreeNode) -> Seq<TreeNode> {
    match (n.left, n.right) {
        (None, None) => seq![],
        (Some(l), None) => seq![*l],
        (None, Some(r)) => seq![*r],
        (Some(l), Some(r)) => seq![*l, *r],
    }
}

/// The present children of `n`, right before left.
pub open spec fn kids_rl(n: TreeNode) -> Seq<TreeNode> {
    match (n.left, n.right) {
        (None, None) => seq![],
        (Some(l), None) => seq![*l],
        (None, Some(r)) => seq![*r],
        (Some(l), Some(r)) => seq![*r, *l],
    }
}

/// The next level of a walk: every node's children, left before right.
pub open spec fn next_wave_lr(q: Seq<TreeNode>) -> Seq<TreeNode>
    decreases q.len(),
{
    if q.len() == 0 {
        seq![]
    } else {
        kids_lr(q[0]) + next_wave_lr(q.drop_first())
    }
}

/// The next level of a walk: every node's children, right before left.
pub open spec fn next_wave_rl(q: Seq<TreeNode>) -> Seq<TreeNode>
    decreases q.len(),
{
    if q.len() == 0 {
        seq![]
    } else {
        kids_rl(q[0]) + next_wave_rl(q.drop_first())
    }
}

/// The values of one level, in wave order.
pub open spec fn wave_vals(q: Seq<TreeNode>) -> Seq<i32>
    decreases q.len(),
{
    if q.len() == 0 {
        seq![]
    } else {
        seq![q[0].val] + wave_vals(q.drop_first())
    }
}

proof fn lemma_wave_weight_concat(a: Seq<TreeNode>, b: Seq<TreeNode>)
    ensures
        wave_weight(a + b) == wave_weight(a) + wave_weight(b),
    decreases a.len(),
{
    if a.len() == 0 {
        assert(a + b =~= b);
    } else {
        assert((a + b).drop_first() =~= a.drop_first() + b);
        lemma_wave_weight_concat(a.drop_first(), b);
    }
}

proof fn lemma_kids_weight(n: TreeNode)
    ensures
        wave_weight(kids_lr(n)) == weight(n) - 1,
        wave_weight(kids_rl(n)) == weight(n) - 1,
{
    assert(wave_weight(Seq::<TreeNode>::empty()) == 0);
    match (n.left, n.right) {
        (None, None) => {},
        (Some(l), None) => {
            assert(seq![*l].drop_first() =~= Seq::<TreeNode>::empty());
            assert(wave_weight(seq![*l]) == weight(*l));
        },
        (None, Some(r)) => {
            assert(seq![*r].drop_first() =~= Seq::<TreeNode>::empty());
            assert(wave_weight(seq![*r]) == weight(*r));
        },
        (Some(l), Some(r)) => {
            assert(seq![*l, *r].drop_first() =~= seq![*r]);
            assert(seq![*r, *l].drop_first() =~= seq![*l]);
            assert(seq![*r].drop_first() =~= Seq::<TreeNode>::empty());
            assert(seq![*l].drop_first() =~= Seq::<TreeNode>::empty());
            assert(wave_weight(seq![*l]) == weight(*l));
            assert(wave_weight(seq![*r]) == weight(*r));
            assert(wave_weight(seq![*l, *r]) == weight(*l) + weight(*r));
            assert(wave_weight(seq![*r, *l]) == weight(*r) + weight(*l));
        },
    }
}

/// A full level holds one node fewer than its wave, per wave entry.
proof fn lemma_next_wave_weight(q: Seq<TreeNode>)
    ensures
        wave_weight(next_wave_lr(q)) == wave_weight(q) - q.len(),
        wave_weight(next_wave_rl(q)) == wave_weight(q) - q.len(),
    decreases q.len(),
{
    if q.len() > 0 {
        lemma_next_wave_weight(q.drop_first());
        lemma_kids_weight(q[0]);
        lemma_wave_weight_concat(kids_lr(q[0]), next_wave_lr(q.drop_first()));
        lemma_wave_weight_concat(kids_rl(q[0]), next_wave_rl(q.drop_first()));
    }
}

/// The rows of a level-order walk: the current wave's values, then the
/// rows of the next wave. A wave never holds an absent child, so no
/// row is ever empty.
pub open spec fn levels_from(q: Seq<TreeNode>) -> Seq<Seq<i32>>
    decreases wave_weight(q),
    via levels_from_decreases
{
    if q.len() == 0 {
        seq![]
    } else {
        seq![wave_vals(q)] + levels_from(next_wave_lr(q))
    }
}

#[via_fn]
proof fn levels_from_decreases(q: Seq<TreeNode>) {
    if q.len() > 0 {
        lemma_next_wave_weight(q);
    }
}

/// The rightmost value of each level: the front of a right-first wave.
pub open spec fn right_profile_from(q: Seq<TreeNode>) -> Seq<i32>
    decreases wave_weight(q),
    via right_profile_decreases
{
    if q.len() == 0 {
        seq![]
    } else {
        seq![q[0].val] + right_profile_from(next_wave_rl(q))
    }
}

#[via_fn]
proof fn right_profile_decreases(q: Seq<TreeNode>) {
    if q.len() > 0 {
        lemma_next_wave_weight(q);
    }
}

/// The wave a walk starts from: the root alone, if there is one.
pub open spec fn root_wave(root: Option<Box<TreeNode>>) -> Seq<TreeNode> {
    match root {
        None => seq![],
        Some(n) => seq![*n],
    }
}

fn levels_walk(q: Vec<&TreeNode>) -> (r: Vec<Vec<i32>>)
    ensures
        r@.map_values(|v: Vec<i32>| v@) == levels_from(q@.map_values(|p: &TreeNode| *p)),
    decreases wave_weight(q@.map_values(|p: &TreeNode| *p)),
{
    let ghost mq = q@.map_values(|p: &TreeNode| *p);
    if q.len() == 0 {
        let r: Vec<Vec<i32>> = Vec::new();
        proof {
            assert(r@.map_values(|v: Vec<i32>| v@) =~= levels_from(mq));
        }
        return r;
    }
    let mut vals: Vec<i32> = Vec::new();
    let mut next: Vec<&TreeNode> = Vec::new();
    let mut i: usize = 0;
    proof {
        assert(mq.skip(0) =~= mq);
        assert(vals@ + wave_vals(mq) =~= wave_vals(mq));
        assert(next@.map_values(|p: &TreeNode| *p) =~= Seq::<TreeNode>::empty());
        assert(Seq::<TreeNode>::empty() + next_wave_lr(mq) =~= next_wave_lr(mq));
    }
    while i < q.len()
        invariant
            i <= q.len(),
            mq == q@.map_values(|p: &TreeNode| *p),
            vals@ + wave_vals(mq.skip(i as int)) == wave_vals(mq),
            next@.map_values(|p: &TreeNode| *p) + next_wave_lr(mq.skip(i as int)) == next_wave_lr(
                mq,
            ),
        decreases q.len() - i,
    {
        let ghost rest0 = mq.skip(i as int);
        let ghost next0 = next@.map_values(|p: &TreeNode| *p);
        let n = q[i];
        vals.push(n.val);
        match &n.left {
            None => {},
            Some(l) => next.push(&**l),
        }
        match &n.right {
            None => {},
            Some(r) => next.push(&**r),
        }
        i = i + 1;
        proof {
            assert(rest0[0] == *n);
            assert(rest0.drop_first() =~= mq.skip(i as int));
            assert(wave_vals(rest0) == seq![n.val] + wave_vals(mq.skip(i as int)));
            assert(vals@ =~= vals@.drop_last() + seq![n.val]);
            assert((vals@.drop_last() + seq![n.val]) + wave_vals(mq.skip(i as int))
                =~= vals@.drop_last() + (seq![n.val] + wave_vals(mq.skip(i as int))));
            assert(next@.map_values(|p: &TreeNode| *p) =~= next0 + kids_lr(*n));
            assert(next_wave_lr(rest0) == kids_lr(*n) + next_wave_lr(mq.skip(i as int)));
            assert((next0 + kids_lr(*n)) + next_wave_lr(mq.skip(i as int)) =~= next0 + (kids_lr(
                *n,
            ) + next_wave_lr(mq.skip(i as int))));
        }
    }
    proof {
        assert(mq.skip(i as int) =~= Seq::<TreeNode>::empty());
        assert(wave_vals(Seq::<TreeNode>::empty()) == Seq::<i32>::empty());
        assert(next_wave_lr(Seq::<TreeNode>::empty()) == Seq::<TreeNode>::empty());
        assert(vals@ =~= vals@ + Seq::<i32>::empty());
        assert(next@.map_values(|p: &TreeNode| *p) =~= next@.map_values(|p: &TreeNode| *p)
            + Seq::<TreeNode>::empty());
        lemma_next_wave_weight(mq);
    }
    let mut rest = levels_walk(next);
    let mut r: Vec<Vec<i32>> = Vec::new();
    r.push(vals);
    r.append(&mut rest);
    proof {
        assert(r@.map_values(|v: Vec<i32>| v@) =~= seq![vals@] + levels_from(next_wave_lr(mq)));
        assert(levels_from(mq) == seq![wave_vals(mq)] + levels_from(next_wave_lr(mq)));
    }
    r
}

/// The values of the tree grouped by depth, each row left to right;
/// no row stands for an empty level.
pub fn level_order(root: Option<Box<TreeNode>>) -> (r: Vec<Vec<i32>>)
    ensures
        r@.map_values(|v: Vec<i32>| v@) == levels_from(root_wave(root)),
{
    let mut q: Vec<&TreeNode> = Vec::new();
    match &root {
        None => {},
        Some(n) => q.push(&**n),
    }
    proof {
        assert(q@.map_values(|p: &TreeNode| *p) =~= root_wave(root));
    }
    levels_walk(q)
}

fn right_profile_walk(q: Vec<&TreeNode>) -> (r: Vec<i32>)
    ensures
        r@ == right_profile_from(q@.map_values(|p: &TreeNode| *p)),
    decreases wave_weight(q@.map_values(|p: &TreeNode| *p)),
{
    let ghost mq = q@.map_values(|p: &TreeNode| *p);
    if q.len() == 0 {
        let r: Vec<i32> = Vec::new();
        proof {
            assert(r@ =~= right_profile_from(mq));
        }
        return r;
    }
    let mut next: Vec<&TreeNode> = Vec::new();
    let mut i: usize = 0;
    proof {
        assert(mq.skip(0) =~= mq);
        assert(next@.map_values(|p: &TreeNode| *p) =~= Seq::<TreeNode>::empty());
        assert(Seq::<TreeNode>::empty() + next_wave_rl(mq) =~= next_wave_rl(mq));
    }
    while i < q.len()
        invariant
            i <= q.len(),
            mq == q@.map_values(|p: &TreeNode| *p),
            next@.map_values(|p: &TreeNode| *p) + next_wave_rl(mq.skip(i as int)) == next_wave_rl(
                mq,
            ),
        decreases q.len() - i,
    {
        let ghost rest0 = mq.skip(i as int);
        let ghost next0 = next@.map_values(|p: &TreeNode| *p);
        let n = q[i];
        match &n.right {
            None => {},
            Some(r) => next.push(&**r),
        }
        match &n.left {
            None => {},
            Some(l) => next.push(&**l),
        }
        i = i + 1;
        proof {
            assert(rest0[0] == *n);
            assert(rest0.drop_first() =~= mq.skip(i as int));
            assert(next@.map_values(|p: &TreeNode| *p) =~= next0 + kids_rl(*n));
            assert(next_wave_rl(rest0) == kids_rl(*n) + next_wave_rl(mq.skip(i as int)));
            assert((next0 + kids_rl(*n)) + next_wave_rl(mq.skip(i as int)) =~= next0 + (kids_rl(
                *n,
            ) + next_wave_rl(mq.skip(i as int))));
        }
    }
    proof {
        assert(mq.skip(i as int) =~= Seq::<TreeNode>::empty());
        assert(next_wave_rl(Seq::<TreeNode>::empty()) == Seq::<TreeNode>::empty());
        assert(next@.map_values(|p: &TreeNode| *p) =~= next@.map_values(|p: &TreeNode| *p)
            + Seq::<TreeNode>::empty());
        lemma_next_wave_weight(mq);
    }
    let first = q[0];
    let mut rest = right_profile_walk(next);
    let mut r: Vec<i32> = Vec::new();
    r.push(first.val);
    r.append(&mut rest);
    proof {
        assert(mq[0] == *first);
        assert(r@ =~= seq![first.val] + right_profile_from(next_wave_rl(mq)));
        assert(right_profile_from(mq) == seq![mq[0].val] + right_profile_from(next_wave_rl(mq)));
    }
    r
}

/// The value of the rightmost node of each level, top to bottom: what
/// an onlooker standing to the right of the tree would see.
pub fn right_side_view(root: Option<Box<TreeNode>>) -> (r: Vec<i32>)
    ensures
        r@ == right_profile_from(root_wave(root)),
{
    let mut q: Vec<&TreeNode> = Vec::new();
    match &root {
        None => {},
        Some(n) => q.push(&**n),
    }
    proof {
        assert(q@.map_values(|p: &TreeNode| *p) =~= root_wave(root));
    }
    right_profile_walk(q)
}

} // verus!
