//! The invariant oracle: executable, read-only checks of the three
//! structural invariants, each proved to decide exactly the corresponding
//! spec-level predicate, and their conjunction `is_rbt`.

use vstd::prelude::*;

use crate::rbt_tree::{
    all_keys_gt, all_keys_lt, bh, bh_ok, elems, inorder, is_bst_s, is_rbt_s, no_red_red_s,
    red_root, size_s, Color, Tree,
};

verus! {

/// The in-order sequence has exactly one entry per node.
pub proof fn lemma_inorder_len(t: Tree)
    ensures
        inorder(t).len() == size_s(t),
    decreases t,
{
    match t {
        Tree::E => {},
        Tree::T(_, l, _, _, r) => {
            lemma_inorder_len(*l);
            lemma_inorder_len(*r);
        },
    }
}

/// Every key of `t` is strictly below `x`.
fn keys_below(t: &Tree, x: i32) -> (b: bool)
    ensures
        b == all_keys_lt(*t, x),
    decreases *t,
{
    match t {
        Tree::E => true,
        Tree::T(_, a, y, _, b) => keys_below(a, x) && *y < x && keys_below(b, x),
    }
}

/// Every key of `t` is strictly above `x`.
fn keys_above(t: &Tree, x: i32) -> (b: bool)
    ensures
        b == all_keys_gt(*t, x),
    decreases *t,
{
    match t {
        Tree::E => true,
        Tree::T(_, a, y, _, b) => keys_above(a, x) && *y > x && keys_above(b, x),
    }
}

/// Checks the strict order invariant: left keys below, right keys above,
/// recursively, so no key repeats anywhere.
pub fn is_bst(t: &Tree) -> (b: bool)
    ensures
        b == is_bst_s(*t),
    decreases *t,
{
    match t {
        Tree::E => true,
        Tree::T(_, a, x, _, b) => keys_below(a, *x) && keys_above(b, *x) && is_bst(a) && is_bst(
            b,
        ),
    }
}

/// Checks that no red node has a red child.
pub fn no_red_red(t: &Tree) -> (b: bool)
    ensures
        b == no_red_red_s(*t),
    decreases *t,
{
    match t {
        Tree::E => true,
        Tree::T(Color::B, a, _, _, b) => no_red_red(a) && no_red_red(b),
        Tree::T(Color::R, a, _, _, b) => !red_root(a) && !red_root(b) && no_red_red(a)
            && no_red_red(b),
    }
}

/// Bottom-up black-height check: whether both children of every node agree,
/// and the black height of the whole subtree.
fn cbh_go(t: &Tree) -> (res: (bool, usize))
    requires
        size_s(*t) <= usize::MAX,
    ensures
        res.0 == bh_ok(*t),
        res.0 ==> res.1 == bh(*t),
        res.1 <= size_s(*t),
    decreases *t,
{
    match t {
        Tree::E => (true, 0),
        Tree::T(rb, a, _, _, b) => {
            proof {
                assert(size_s(**a) < size_s(*t) && size_s(**b) < size_s(*t));
            }
            let (a_ok, a_h) = cbh_go(a);
            let (b_ok, b_h) = cbh_go(b);
            let is_black: usize = match rb {
                Color::B => 1,
                Color::R => 0,
            };
            (a_ok && b_ok && a_h == b_h, a_h + is_black)
        },
    }
}

/// Checks the black-height invariant: every root-to-empty-leaf path below
/// each node passes the same count of black nodes.
pub fn consistent_black_height(t: &Tree) -> (b: bool)
    ensures
        b == bh_ok(*t),
{
    // The in-order vector's length witnesses that the node count fits in
    // `usize`, which bounds every height computed below.
    let kvs = elems(t);
    let n = kvs.len();
    proof {
        lemma_inorder_len(*t);
    }
    let (ok, _h) = cbh_go(t);
    ok
}

/// The ground-truth validity oracle: order, black height and no-red-red.
pub fn is_rbt(t: &Tree) -> (res: Option<bool>)
    ensures
        res == Some(is_rbt_s(*t)),
{
    Some(is_bst(t) && consistent_black_height(t) && no_red_red(t))
}

} // verus!
