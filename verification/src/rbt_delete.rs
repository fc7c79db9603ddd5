//! The join-based delete pipeline: the two generalized rebalances, the
//! fuel-bounded spine join, and the fuel-bounded deletion descent.
//!
//! Every recursive function here threads an explicit recursion budget and
//! reports exhaustion as `None` instead of looping, so a defective variant
//! turns into a detectable failure rather than a hang.

use vstd::prelude::*;

use crate::rbt_tree::{
    balance, blacken, node_s, redden, red_root, Color, Tree, is_red, spec_balance, spec_blacken,
    spec_redden,
};

verus! {

/// Recursion budget supplied to every fuel-bounded operation.
pub const FUEL: usize = 10000;

/// The root of `t` is a black interior node.
pub open spec fn is_black_node(t: Tree) -> bool {
    t matches Tree::T(Color::B, ..)
}

/// `t` is a red node whose left child is a black node.
pub open spec fn red_black_left(t: Tree) -> bool {
    match t {
        Tree::T(Color::R, l, _, _, _) => is_black_node(*l),
        _ => false,
    }
}

/// `t` is a red node whose right child is a black node.
pub open spec fn red_black_right(t: Tree) -> bool {
    match t {
        Tree::T(Color::R, _, _, _, r) => is_black_node(*r),
        _ => false,
    }
}

/// What `bal_left` returns: restores black height after the left subtree
/// lost one black level, using the double-red rotations plus a controlled
/// re-reddening; shapes outside its three cases are refused.
pub open spec fn spec_bal_left(tl: Tree, k: i32, v: i32, tr: Tree) -> Option<Tree> {
    if is_red(tl) {
        match tl {
            Tree::T(_, a, x, vx, b) => Some(
                node_s(Color::R, Tree::T(Color::B, a, x, vx, b), k, v, tr),
            ),
            _ => None,
        }
    } else if is_black_node(tr) {
        match tr {
            Tree::T(_, a, y, vy, b) => Some(
                spec_balance(Color::B, tl, k, v, Tree::T(Color::R, a, y, vy, b)),
            ),
            _ => None,
        }
    } else if red_black_left(tr) {
        match tr {
            Tree::T(_, l2, z, vz, c) => match *l2 {
                Tree::T(_, a, y, vy, b) => match spec_redden(*c) {
                    None => None,
                    Some(cp) => Some(
                        node_s(
                            Color::R,
                            Tree::T(Color::B, Box::new(tl), k, v, a),
                            y,
                            vy,
                            spec_balance(Color::B, *b, z, vz, cp),
                        ),
                    ),
                },
                _ => None,
            },
            _ => None,
        }
    } else {
        None
    }
}

/// What `bal_right` returns: the mirror image of `spec_bal_left`, for a
/// right subtree that lost one black level.
pub open spec fn spec_bal_right(tl: Tree, k: i32, v: i32, tr: Tree) -> Option<Tree> {
    if is_red(tr) {
        match tr {
            Tree::T(_, b, y, vy, c) => Some(
                node_s(Color::R, tl, k, v, Tree::T(Color::B, b, y, vy, c)),
            ),
            _ => None,
        }
    } else if is_black_node(tl) {
        match tl {
            Tree::T(_, a, x, vx, b) => Some(
                spec_balance(Color::B, Tree::T(Color::R, a, x, vx, b), k, v, tr),
            ),
            _ => None,
        }
    } else if red_black_right(tl) {
        match tl {
            Tree::T(_, a, x, vx, r1) => match *r1 {
                Tree::T(_, b, y, vy, c) => match spec_redden(*a) {
                    None => None,
                    Some(ap) => Some(
                        node_s(
                            Color::R,
                            spec_balance(Color::B, ap, x, vx, *b),
                            y,
                            vy,
                            Tree::T(Color::B, c, k, v, Box::new(tr)),
                        ),
                    ),
                },
                _ => None,
            },
            _ => None,
        }
    } else {
        None
    }
}

/// What the fuel-bounded join returns: recurses down the facing spines of
/// the two trees and recombines by the colors of the adjacent roots.
pub open spec fn spec_join(t1: Tree, t2: Tree, f: nat) -> Option<Tree>
    decreases f,
{
    if f == 0 {
        None
    } else {
        let fp = (f - 1) as nat;
        match t1 {
            Tree::E => Some(t2),
            Tree::T(c1, a1, x1, v1, b1) => match t2 {
                Tree::E => Some(t1),
                Tree::T(c2, a2, x2, v2, b2) => match (c1, c2) {
                    (Color::R, Color::R) => match spec_join(*b1, *a2, fp) {
                        None => None,
                        Some(m) => if is_red(m) {
                            match m {
                                Tree::T(_, bp, z, vz, cp) => Some(
                                    node_s(
                                        Color::R,
                                        Tree::T(Color::R, a1, x1, v1, bp),
                                        z,
                                        vz,
                                        Tree::T(Color::R, cp, x2, v2, b2),
                                    ),
                                ),
                                _ => None,
                            }
                        } else {
                            Some(
                                Tree::T(
                                    Color::R,
                                    a1,
                                    x1,
                                    v1,
                                    Box::new(node_s(Color::R, m, x2, v2, *b2)),
                                ),
                            )
                        },
                    },
                    (Color::B, Color::B) => match spec_join(*b1, *a2, fp) {
                        None => None,
                        Some(m) => if is_red(m) {
                            match m {
                                Tree::T(_, bp, z, vz, cp) => Some(
                                    node_s(
                                        Color::R,
                                        Tree::T(Color::B, a1, x1, v1, bp),
                                        z,
                                        vz,
                                        Tree::T(Color::B, cp, x2, v2, b2),
                                    ),
                                ),
                                _ => None,
                            }
                        } else {
                            spec_bal_left(*a1, x1, v1, node_s(Color::B, m, x2, v2, *b2))
                        },
                    },
                    (Color::B, Color::R) => match spec_join(t1, *a2, fp) {
                        None => None,
                        Some(tp) => Some(node_s(Color::R, tp, x2, v2, *b2)),
                    },
                    (Color::R, Color::B) => match spec_join(*b1, t2, fp) {
                        None => None,
                        Some(tp) => Some(node_s(Color::R, *a1, x1, v1, tp)),
                    },
                },
            },
        }
    }
}

/// What the fuel-bounded deletion descent returns.
pub open spec fn spec_del(x: i32, s: Tree, f: nat) -> Option<Tree>
    decreases f,
{
    if f == 0 {
        None
    } else {
        let fp = (f - 1) as nat;
        match s {
            Tree::E => Some(Tree::E),
            Tree::T(_, a, y, vy, b) => if x < y {
                spec_del_left(x, *a, y, vy, *b, fp)
            } else if y < x {
                spec_del_right(x, *a, y, vy, *b, fp)
            } else {
                spec_join(*a, *b, FUEL as nat)
            },
        }
    }
}

/// What `del_left` returns: delete in the left child, then restore black
/// height with `bal_left` when that child was a black node.
pub open spec fn spec_del_left(x: i32, dl: Tree, dy: i32, dvy: i32, dr: Tree, f: nat) -> Option<
    Tree,
>
    decreases f,
{
    if f == 0 {
        None
    } else {
        let fp = (f - 1) as nat;
        match spec_del(x, dl, fp) {
            None => None,
            Some(tp) => if is_black_node(dl) {
                spec_bal_left(tp, dy, dvy, dr)
            } else {
                Some(node_s(Color::R, tp, dy, dvy, dr))
            },
        }
    }
}

/// What `del_right` returns: the mirror image of `spec_del_left`.
pub open spec fn spec_del_right(x: i32, dl: Tree, dy: i32, dvy: i32, dr: Tree, f: nat) -> Option<
    Tree,
>
    decreases f,
{
    if f == 0 {
        None
    } else {
        let fp = (f - 1) as nat;
        match spec_del(x, dr, fp) {
            None => None,
            Some(tp) => if is_black_node(dr) {
                spec_bal_right(dl, dy, dvy, tp)
            } else {
                Some(node_s(Color::R, dl, dy, dvy, tp))
            },
        }
    }
}

/// What `delete` returns: the deletion descent under the standard budget,
/// re-blackened at the root on success.
pub open spec fn spec_delete(x: i32, t: Tree) -> Option<Tree> {
    match spec_del(x, t, FUEL as nat) {
        None => None,
        Some(tp) => Some(spec_blacken(tp)),
    }
}

/// The root of `t` is a black interior node.
pub(crate) fn black_node_root(t: &Tree) -> (b: bool)
    ensures
        b == is_black_node(*t),
{
    match t {
        Tree::T(Color::B, ..) => true,
        _ => false,
    }
}

/// Tests for a red root over a black left child.
fn red_black_left_root(t: &Tree) -> (b: bool)
    ensures
        b == red_black_left(*t),
{
    match t {
        Tree::T(Color::R, l, _, _, _) => black_node_root(l),
        _ => false,
    }
}

/// Tests for a red root over a black right child.
fn red_black_right_root(t: &Tree) -> (b: bool)
    ensures
        b == red_black_right(*t),
{
    match t {
        Tree::T(Color::R, _, _, _, r) => black_node_root(r),
        _ => false,
    }
}

/// Rebalance after the left subtree lost one black level.
pub fn bal_left(tl: Tree, k: i32, v: i32, tr: Tree) -> (res: Option<Tree>)
    ensures
        res == spec_bal_left(tl, k, v, tr),
{
    if red_root(&tl) {
        match tl {
            Tree::T(_, a, x, vx, b) => Some(
                Tree::T(
                    Color::R,
                    Box::new(Tree::T(Color::B, a, x, vx, b)),
                    k,
                    v,
                    Box::new(tr),
                ),
            ),
            _ => unreached(),
        }
    } else if black_node_root(&tr) {
        match tr {
            Tree::T(_, a, y, vy, b) => Some(balance(Color::B, tl, k, v, Tree::T(Color::R, a, y, vy, b))),
            _ => unreached(),
        }
    } else if red_black_left_root(&tr) {
        match tr {
            Tree::T(_, l2, z, vz, c) => match *l2 {
                Tree::T(_, a, y, vy, b) => match redden(*c) {
                    None => None,
                    Some(cp) => Some(
                        Tree::T(
                            Color::R,
                            Box::new(Tree::T(Color::B, Box::new(tl), k, v, a)),
                            y,
                            vy,
                            Box::new(balance(Color::B, *b, z, vz, cp)),
                        ),
                    ),
                },
                _ => unreached(),
            },
            _ => unreached(),
        }
    } else {
        None
    }
}

/// Rebalance after the right subtree lost one black level.
pub fn bal_right(tl: Tree, k: i32, v: i32, tr: Tree) -> (res: Option<Tree>)
    ensures
        res == spec_bal_right(tl, k, v, tr),
{
    if red_root(&tr) {
        match tr {
            Tree::T(_, b, y, vy, c) => Some(
                Tree::T(
                    Color::R,
                    Box::new(tl),
                    k,
                    v,
                    Box::new(Tree::T(Color::B, b, y, vy, c)),
                ),
            ),
            _ => unreached(),
        }
    } else if black_node_root(&tl) {
        match tl {
            Tree::T(_, a, x, vx, b) => Some(balance(Color::B, Tree::T(Color::R, a, x, vx, b), k, v, tr)),
            _ => unreached(),
        }
    } else if red_black_right_root(&tl) {
        match tl {
            Tree::T(_, a, x, vx, r1) => match *r1 {
                Tree::T(_, b, y, vy, c) => match redden(*a) {
                    None => None,
                    Some(ap) => Some(
                        Tree::T(
                            Color::R,
                            Box::new(balance(Color::B, ap, x, vx, *b)),
                            y,
                            vy,
                            Box::new(Tree::T(Color::B, c, k, v, Box::new(tr))),
                        ),
                    ),
                },
                _ => unreached(),
            },
            _ => unreached(),
        }
    } else {
        None
    }
}

/// Fuel-bounded spine join of two order-disjoint trees.
pub fn _join(t1: Tree, t2: Tree, f: usize) -> (res: Option<Tree>)
    ensures
        res == spec_join(t1, t2, f as nat),
    decreases f,
{
    if f == 0 {
        return None;
    }
    let fp = f - 1;
    match t1 {
        Tree::E => Some(t2),
        Tree::T(c1, a1, x1, v1, b1) => match t2 {
            Tree::E => Some(Tree::T(c1, a1, x1, v1, b1)),
            Tree::T(c2, a2, x2, v2, b2) => match (c1, c2) {
                (Color::R, Color::R) => match _join(*b1, *a2, fp) {
                    None => None,
                    Some(m) => if red_root(&m) {
                        match m {
                            Tree::T(_, bp, z, vz, cp) => Some(
                                Tree::T(
                                    Color::R,
                                    Box::new(Tree::T(Color::R, a1, x1, v1, bp)),
                                    z,
                                    vz,
                                    Box::new(Tree::T(Color::R, cp, x2, v2, b2)),
                                ),
                            ),
                            _ => unreached(),
                        }
                    } else {
                        Some(
                            Tree::T(
                                Color::R,
                                a1,
                                x1,
                                v1,
                                Box::new(Tree::T(Color::R, Box::new(m), x2, v2, b2)),
                            ),
                        )
                    },
                },
                (Color::B, Color::B) => match _join(*b1, *a2, fp) {
                    None => None,
                    Some(m) => if red_root(&m) {
                        match m {
                            Tree::T(_, bp, z, vz, cp) => Some(
                                Tree::T(
                                    Color::R,
                                    Box::new(Tree::T(Color::B, a1, x1, v1, bp)),
                                    z,
                                    vz,
                                    Box::new(Tree::T(Color::B, cp, x2, v2, b2)),
                                ),
                            ),
                            _ => unreached(),
                        }
                    } else {
                        bal_left(*a1, x1, v1, Tree::T(Color::B, Box::new(m), x2, v2, b2))
                    },
                },
                (Color::B, Color::R) => match _join(Tree::T(c1, a1, x1, v1, b1), *a2, fp) {
                    None => None,
                    Some(tp) => Some(Tree::T(Color::R, Box::new(tp), x2, v2, b2)),
                },
                (Color::R, Color::B) => match _join(*b1, Tree::T(c2, a2, x2, v2, b2), fp) {
                    None => None,
                    Some(tp) => Some(Tree::T(Color::R, a1, x1, v1, Box::new(tp))),
                },
            },
        },
    }
}

/// Joins two order-disjoint trees under the standard budget.
pub fn join(t1: Tree, t2: Tree) -> (res: Option<Tree>)
    ensures
        res == spec_join(t1, t2, FUEL as nat),
{
    _join(t1, t2, FUEL)
}

/// Fuel-bounded deletion descent.
pub fn del(x: i32, s: Tree, f: usize) -> (res: Option<Tree>)
    ensures
        res == spec_del(x, s, f as nat),
    decreases f,
{
    if f == 0 {
        return None;
    }
    let fp = f - 1;
    match s {
        Tree::E => Some(Tree::E),
        Tree::T(_, a, y, vy, b) => if x < y {
            del_left(x, *a, y, vy, *b, fp)
        } else if y < x {
            del_right(x, *a, y, vy, *b, fp)
        } else {
            join(*a, *b)
        },
    }
}

/// Delete in the left child, then rebalance when it was a black node.
fn del_left(x: i32, dl: Tree, dy: i32, dvy: i32, dr: Tree, f: usize) -> (res: Option<Tree>)
    ensures
        res == spec_del_left(x, dl, dy, dvy, dr, f as nat),
    decreases f,
{
    if f == 0 {
        return None;
    }
    let fp = f - 1;
    let dl_black = black_node_root(&dl);
    match del(x, dl, fp) {
        None => None,
        Some(tp) => if dl_black {
            bal_left(tp, dy, dvy, dr)
        } else {
            Some(Tree::T(Color::R, Box::new(tp), dy, dvy, Box::new(dr)))
        },
    }
}

/// Delete in the right child, then rebalance when it was a black node.
fn del_right(x: i32, dl: Tree, dy: i32, dvy: i32, dr: Tree, f: usize) -> (res: Option<Tree>)
    ensures
        res == spec_del_right(x, dl, dy, dvy, dr, f as nat),
    decreases f,
{
    if f == 0 {
        return None;
    }
    let fp = f - 1;
    let dr_black = black_node_root(&dr);
    match del(x, dr, fp) {
        None => None,
        Some(tp) => if dr_black {
            bal_right(dl, dy, dvy, tp)
        } else {
            Some(Tree::T(Color::R, Box::new(dl), dy, dvy, Box::new(tp)))
        },
    }
}

/// Removes `x` if present (a no-op otherwise); `None` only when the
/// recursion budget ran out or a rebalance met a shape that a correct
/// run never produces. On a valid tree whose height fits inside the
/// budget, it always returns a tree.
pub fn delete(x: i32, t: Tree) -> (res: Option<Tree>)
    ensures
        res == spec_delete(x, t),
        crate::rbt_tree::no_red_red_s(t) && crate::rbt_tree::bh_ok(t) && 2
            * crate::rbt_tree::height_s(t) + 2 <= FUEL ==> res is Some,
{
    proof {
        if crate::rbt_tree::no_red_red_s(t) && crate::rbt_tree::bh_ok(t) && 2
            * crate::rbt_tree::height_s(t) + 2 <= FUEL {
            crate::rbt_inv::lemma_delete_some(x, t);
        }
    }
    match del(x, t, FUEL) {
        None => None,
        Some(tp) => Some(blacken(tp)),
    }
}

} // verus!
