//! The red-black tree itself: the recursive entity, its color tag, the
//! mathematical model (in-order sequence and the three structural
//! invariants), and the non-deleting operations.

use vstd::prelude::*;

verus! {

/// Per-node color bit of a red-black tree.
#[derive(Debug, Copy, Clone, PartialEq, Eq, Structural)]
pub enum Color {
    R,
    B,
}

/// A persistent red-black tree mapping `i32` keys to `i32` values.
/// `E` is the empty tree; `T(color, left, key, value, right)` is a node.
#[derive(Debug, PartialEq, Eq)]
pub enum Tree {
    E,
    T(Color, Box<Tree>, i32, i32, Box<Tree>),
}

impl Clone for Tree {
    /// Structure-preserving deep copy.
    fn clone(&self) -> (res: Self)
        ensures
            res == *self,
        decreases *self,
    {
        match self {
            Tree::E => Tree::E,
            Tree::T(c, l, k, v, r) => Tree::T(
                *c,
                Box::new((&**l).clone()),
                *k,
                *v,
                Box::new((&**r).clone()),
            ),
        }
    }
}

/// Builds a node from plain subtrees; spec-level convenience.
pub open spec fn node_s(c: Color, l: Tree, k: i32, v: i32, r: Tree) -> Tree {
    Tree::T(c, Box::new(l), k, v, Box::new(r))
}

/// The in-order key/value sequence of a tree: the canonical list model.
pub open spec fn inorder(t: Tree) -> Seq<(i32, i32)>
    decreases t,
{
    match t {
        Tree::E => Seq::empty(),
        Tree::T(_, l, k, v, r) => inorder(*l) + seq![(k, v)] + inorder(*r),
    }
}

/// Every key in `t` is strictly below `x`.
pub open spec fn all_keys_lt(t: Tree, x: i32) -> bool
    decreases t,
{
    match t {
        Tree::E => true,
        Tree::T(_, a, y, _, b) => all_keys_lt(*a, x) && y < x && all_keys_lt(*b, x),
    }
}

/// Every key in `t` is strictly above `x`.
pub open spec fn all_keys_gt(t: Tree, x: i32) -> bool
    decreases t,
{
    match t {
        Tree::E => true,
        Tree::T(_, a, y, _, b) => all_keys_gt(*a, x) && y > x && all_keys_gt(*b, x),
    }
}

/// The strict search-tree order invariant: at every node, all keys on the
/// left are smaller and all keys on the right are larger, so no key repeats.
pub open spec fn is_bst_s(t: Tree) -> bool
    decreases t,
{
    match t {
        Tree::E => true,
        Tree::T(_, a, x, _, b) => all_keys_lt(*a, x) && all_keys_gt(*b, x) && is_bst_s(*a)
            && is_bst_s(*b),
    }
}

/// The root of `t` is red.
pub open spec fn is_red(t: Tree) -> bool {
    t matches Tree::T(Color::R, ..)
}

/// The root of `t` is not red (an empty tree counts as black-rooted).
pub open spec fn black_root_s(t: Tree) -> bool {
    !is_red(t)
}

/// The no-red-red invariant: a red node never has a red child.
pub open spec fn no_red_red_s(t: Tree) -> bool
    decreases t,
{
    match t {
        Tree::E => true,
        Tree::T(c, a, _, _, b) => (c == Color::R ==> black_root_s(*a) && black_root_s(*b))
            && no_red_red_s(*a) && no_red_red_s(*b),
    }
}

/// The no-red-red invariant on both children, with the root itself exempt:
/// the relaxed form that intermediate rebalancing states satisfy.
pub open spec fn no_red_red_sub(t: Tree) -> bool {
    match t {
        Tree::E => true,
        Tree::T(_, a, _, _, b) => no_red_red_s(*a) && no_red_red_s(*b),
    }
}

/// Black height of the leftmost path: the number of black nodes down to
/// (and excluding) the empty leaf.
pub open spec fn bh(t: Tree) -> nat
    decreases t,
{
    match t {
        Tree::E => 0,
        Tree::T(c, a, _, _, _) => bh(*a) + if c == Color::B {
            1nat
        } else {
            0nat
        },
    }
}

/// The black-height invariant: below every node, both children carry the
/// same number of black nodes on every path to an empty leaf.
pub open spec fn bh_ok(t: Tree) -> bool
    decreases t,
{
    match t {
        Tree::E => true,
        Tree::T(_, a, _, _, b) => bh_ok(*a) && bh_ok(*b) && bh(*a) == bh(*b),
    }
}

/// The ground-truth validity predicate: order, black height and no-red-red.
pub open spec fn is_rbt_s(t: Tree) -> bool {
    is_bst_s(t) && bh_ok(t) && no_red_red_s(t)
}

/// Number of nodes.
pub open spec fn size_s(t: Tree) -> nat
    decreases t,
{
    match t {
        Tree::E => 0,
        Tree::T(_, l, _, _, r) => 1 + size_s(*l) + size_s(*r),
    }
}


/// Height of the tree: the longest root-to-empty-leaf path, in nodes.
pub open spec fn height_s(t: Tree) -> nat
    decreases t,
{
    match t {
        Tree::E => 0,
        Tree::T(_, l, _, _, r) => 1 + if height_s(*l) >= height_s(*r) {
            height_s(*l)
        } else {
            height_s(*r)
        },
    }
}

/// `t` is a red node whose left child is also red.
pub open spec fn red_red_left(t: Tree) -> bool {
    match t {
        Tree::T(Color::R, l, _, _, _) => is_red(*l),
        _ => false,
    }
}

/// `t` is a red node whose right child is also red.
pub open spec fn red_red_right(t: Tree) -> bool {
    match t {
        Tree::T(Color::R, _, _, _, r) => is_red(*r),
        _ => false,
    }
}

/// What `balance` returns: under a black root, each of the four double-red
/// patterns is rewritten to a red root with two black children carrying the
/// same five keys in order; any other shape is reassembled unchanged.
pub open spec fn spec_balance(col: Color, tl: Tree, key: i32, val: i32, tr: Tree) -> Tree {
    if col == Color::B && red_red_left(tl) {
        match tl {
            Tree::T(_, l1, y, vy, c) => match *l1 {
                Tree::T(_, a, x, vx, b) => node_s(
                    Color::R,
                    Tree::T(Color::B, a, x, vx, b),
                    y,
                    vy,
                    node_s(Color::B, *c, key, val, tr),
                ),
                _ => Tree::E,
            },
            _ => Tree::E,
        }
    } else if col == Color::B && red_red_right(tl) {
        match tl {
            Tree::T(_, a, x, vx, r1) => match *r1 {
                Tree::T(_, b, y, vy, c) => node_s(
                    Color::R,
                    Tree::T(Color::B, a, x, vx, b),
                    y,
                    vy,
                    node_s(Color::B, *c, key, val, tr),
                ),
                _ => Tree::E,
            },
            _ => Tree::E,
        }
    } else if col == Color::B && red_red_left(tr) {
        match tr {
            Tree::T(_, l2, z, vz, d) => match *l2 {
                Tree::T(_, b, y, vy, c) => node_s(
                    Color::R,
                    node_s(Color::B, tl, key, val, *b),
                    y,
                    vy,
                    Tree::T(Color::B, c, z, vz, d),
                ),
                _ => Tree::E,
            },
            _ => Tree::E,
        }
    } else if col == Color::B && red_red_right(tr) {
        match tr {
            Tree::T(_, b, y, vy, r2) => match *r2 {
                Tree::T(_, c, z, vz, d) => node_s(
                    Color::R,
                    node_s(Color::B, tl, key, val, *b),
                    y,
                    vy,
                    Tree::T(Color::B, c, z, vz, d),
                ),
                _ => Tree::E,
            },
            _ => Tree::E,
        }
    } else {
        node_s(col, tl, key, val, tr)
    }
}

/// What `blacken` returns: the same tree with a black root.
pub open spec fn spec_blacken(t: Tree) -> Tree {
    match t {
        Tree::E => Tree::E,
        Tree::T(_, a, x, vx, b) => Tree::T(Color::B, a, x, vx, b),
    }
}

/// What `redden` returns: a black node re-reddened; red or empty trees are
/// refused, since a correct delete never asks for them.
pub open spec fn spec_redden(t: Tree) -> Option<Tree> {
    match t {
        Tree::T(Color::B, a, x, vx, b) => Some(Tree::T(Color::R, a, x, vx, b)),
        _ => None,
    }
}

/// What the insertion descent returns before the final re-blackening.
pub open spec fn spec_ins(x: i32, vx: i32, s: Tree) -> Tree
    decreases s,
{
    match s {
        Tree::E => node_s(Color::R, Tree::E, x, vx, Tree::E),
        Tree::T(rb, a, y, vy, b) => if x < y {
            spec_balance(rb, spec_ins(x, vx, *a), y, vy, *b)
        } else if y < x {
            spec_balance(rb, *a, y, vy, spec_ins(x, vx, *b))
        } else {
            Tree::T(rb, a, y, vx, b)
        },
    }
}

/// What `insert` returns: the insertion descent, re-blackened at the root.
pub open spec fn spec_insert(key: i32, val: i32, t: Tree) -> Tree {
    spec_blacken(spec_ins(key, val, t))
}

/// What `find` returns: descend by key order; the value at the key, if any.
pub open spec fn spec_find(x: i32, t: Tree) -> Option<i32>
    decreases t,
{
    match t {
        Tree::E => None,
        Tree::T(_, l, y, vy, r) => if x < y {
            spec_find(x, *l)
        } else if y < x {
            spec_find(x, *r)
        } else {
            Some(vy)
        },
    }
}

/// Tests whether the root of `t` is red.
pub(crate) fn red_root(t: &Tree) -> (b: bool)
    ensures
        b == is_red(*t),
{
    match t {
        Tree::T(Color::R, ..) => true,
        _ => false,
    }
}

/// Tests for a red root with a red left child.
pub(crate) fn red_red_left_root(t: &Tree) -> (b: bool)
    ensures
        b == red_red_left(*t),
{
    match t {
        Tree::T(Color::R, l, _, _, _) => red_root(l),
        _ => false,
    }
}

/// Tests for a red root with a red right child.
pub(crate) fn red_red_right_root(t: &Tree) -> (b: bool)
    ensures
        b == red_red_right(*t),
{
    match t {
        Tree::T(Color::R, _, _, _, r) => red_root(r),
        _ => false,
    }
}

/// Forces the root color to black.
pub fn blacken(t: Tree) -> (res: Tree)
    ensures
        res == spec_blacken(t),
{
    match t {
        Tree::E => Tree::E,
        Tree::T(_, a, x, vx, b) => Tree::T(Color::B, a, x, vx, b),
    }
}

/// Re-reddens a black node; fails on a red or empty tree, a state that only
/// a defective delete can reach.
pub fn redden(t: Tree) -> (res: Option<Tree>)
    ensures
        res == spec_redden(t),
{
    match t {
        Tree::T(Color::B, a, x, vx, b) => Some(Tree::T(Color::R, a, x, vx, b)),
        _ => None,
    }
}

/// The sole rotation primitive: rewrites any of the four double-red
/// patterns under a black root, and otherwise reassembles the node.
pub fn balance(col: Color, tl: Tree, key: i32, val: i32, tr: Tree) -> (res: Tree)
    ensures
        res == spec_balance(col, tl, key, val, tr),
{
    let col_black = matches!(col, Color::B);
    if col_black && red_red_left_root(&tl) {
        match tl {
            Tree::T(_, l1, y, vy, c) => match *l1 {
                Tree::T(_, a, x, vx, b) => Tree::T(
                    Color::R,
                    Box::new(Tree::T(Color::B, a, x, vx, b)),
                    y,
                    vy,
                    Box::new(Tree::T(Color::B, c, key, val, Box::new(tr))),
                ),
                _ => unreached(),
            },
            _ => unreached(),
        }
    } else if col_black && red_red_right_root(&tl) {
        match tl {
            Tree::T(_, a, x, vx, r1) => match *r1 {
                Tree::T(_, b, y, vy, c) => Tree::T(
                    Color::R,
                    Box::new(Tree::T(Color::B, a, x, vx, b)),
                    y,
                    vy,
                    Box::new(Tree::T(Color::B, c, key, val, Box::new(tr))),
                ),
                _ => unreached(),
            },
            _ => unreached(),
        }
    } else if col_black && red_red_left_root(&tr) {
        match tr {
            Tree::T(_, l2, z, vz, d) => match *l2 {
                Tree::T(_, b, y, vy, c) => Tree::T(
                    Color::R,
                    Box::new(Tree::T(Color::B, Box::new(tl), key, val, b)),
                    y,
                    vy,
                    Box::new(Tree::T(Color::B, c, z, vz, d)),
                ),
                _ => unreached(),
            },
            _ => unreached(),
        }
    } else if col_black && red_red_right_root(&tr) {
        match tr {
            Tree::T(_, b, y, vy, r2) => match *r2 {
                Tree::T(_, c, z, vz, d) => Tree::T(
                    Color::R,
                    Box::new(Tree::T(Color::B, Box::new(tl), key, val, b)),
                    y,
                    vy,
                    Box::new(Tree::T(Color::B, c, z, vz, d)),
                ),
                _ => unreached(),
            },
            _ => unreached(),
        }
    } else {
        Tree::T(col, Box::new(tl), key, val, Box::new(tr))
    }
}

/// The insertion descent: a new red leaf at an empty position, a value
/// replacement at an equal key, and a `balance` around every rebuilt
/// ancestor.
fn ins(x: i32, vx: i32, s: Tree) -> (res: Tree)
    ensures
        res == spec_ins(x, vx, s),
    decreases s,
{
    match s {
        Tree::E => Tree::T(Color::R, Box::new(Tree::E), x, vx, Box::new(Tree::E)),
        Tree::T(rb, a, y, vy, b) => if x < y {
            balance(rb, ins(x, vx, *a), y, vy, *b)
        } else if y < x {
            balance(rb, *a, y, vy, ins(x, vx, *b))
        } else {
            Tree::T(rb, a, y, vx, b)
        },
    }
}

/// Structural insertion: replaces the value at an existing key, otherwise
/// adds a leaf and rebalances on the way back up; the root is forced black.
pub fn insert(key: i32, val: i32, t: Tree) -> (res: Tree)
    ensures
        res == spec_insert(key, val, t),
{
    blacken(ins(key, val, t))
}

/// Looks a key up by the search-tree order.
pub fn find(x: i32, t: Tree) -> (res: Option<i32>)
    ensures
        res == spec_find(x, t),
    decreases t,
{
    match t {
        Tree::E => None,
        Tree::T(_, l, y, vy, r) => if x < y {
            find(x, *l)
        } else if y < x {
            find(x, *r)
        } else {
            Some(vy)
        },
    }
}

/// Number of nodes in the tree.
pub fn size(t: Tree) -> (n: usize)
    requires
        size_s(t) <= usize::MAX,
    ensures
        n == size_s(t),
    decreases t,
{
    match t {
        Tree::E => 0,
        Tree::T(_, l, _, _, r) => {
            proof {
                assert(size_s(*l) <= size_s(t) && size_s(*r) <= size_s(t));
            }
            1 + size(*l) + size(*r)
        },
    }
}

/// Appends the in-order entries of `t` to `acc`.
fn elems_into(t: &Tree, acc: &mut Vec<(i32, i32)>)
    ensures
        final(acc)@ == old(acc)@ + inorder(*t),
    decreases *t,
{
    match t {
        Tree::E => {
            proof {
                assert(acc@ =~= old(acc)@ + inorder(*t));
            }
        },
        Tree::T(_, a, x, vx, b) => {
            elems_into(a, acc);
            acc.push((*x, *vx));
            elems_into(b, acc);
            proof {
                assert(acc@ =~= old(acc)@ + inorder(*t));
            }
        },
    }
}

/// The in-order key/value entries as a vector.
pub fn elems(t: &Tree) -> (kvs: Vec<(i32, i32)>)
    ensures
        kvs@ == inorder(*t),
{
    let mut kvs: Vec<(i32, i32)> = Vec::new();
    elems_into(t, &mut kvs);
    proof {
        assert(kvs@ =~= inorder(*t));
    }
    kvs
}

} // verus!

