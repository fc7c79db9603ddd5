//! Preservation of the three structural invariants by the tree operations:
//! the balance lemmas, the insertion lemmas, and the delete-pipeline
//! lemmas, culminating in validity of `insert` and `delete`.

use vstd::prelude::*;

use crate::rbt_tree::{
    bh, bh_ok, black_root_s, height_s, is_red, is_rbt_s, no_red_red_s, no_red_red_sub, node_s,
    spec_balance, spec_blacken, spec_ins, spec_insert, spec_redden, Color, Tree,
};
use crate::rbt_delete::{
    is_black_node, red_black_left, red_black_right, spec_bal_left, spec_bal_right, spec_del,
    spec_del_left, spec_del_right, spec_delete, spec_join, FUEL,
};
use crate::rbt_model::{lemma_delete_model, lemma_insert_inorder};

verus! {

/// `balance` keeps the black-height invariant and the height of the node
/// it replaces, whenever its two inputs agree.
#[verifier::rlimit(60)]
pub proof fn lemma_balance_bh(col: Color, tl: Tree, key: i32, val: i32, tr: Tree)
    requires
        bh_ok(tl),
        bh_ok(tr),
        bh(tl) == bh(tr),
    ensures
        bh_ok(spec_balance(col, tl, key, val, tr)),
        bh(spec_balance(col, tl, key, val, tr)) == bh(node_s(col, tl, key, val, tr)),
{
    reveal_with_fuel(bh, 4);
    reveal_with_fuel(bh_ok, 4);
}

/// Under a black root, `balance` absorbs one double-red violation on
/// either side and yields a tree with no red-red pair at all.
#[verifier::rlimit(60)]
pub proof fn lemma_balance_color(col: Color, tl: Tree, key: i32, val: i32, tr: Tree)
    requires
        col == Color::B,
        (no_red_red_sub(tl) && no_red_red_s(tr)) || (no_red_red_s(tl) && no_red_red_sub(tr)),
    ensures
        no_red_red_s(spec_balance(col, tl, key, val, tr)),
{
    reveal_with_fuel(no_red_red_s, 4);
}

/// The insertion descent keeps the black height exactly, never introduces
/// a red-red pair below the root, and keeps the root clean when the input
/// root was not red.
pub proof fn lemma_ins_inv(x: i32, vx: i32, t: Tree)
    requires
        no_red_red_s(t),
        bh_ok(t),
    ensures
        bh_ok(spec_ins(x, vx, t)),
        bh(spec_ins(x, vx, t)) == bh(t),
        no_red_red_sub(spec_ins(x, vx, t)),
        black_root_s(t) ==> no_red_red_s(spec_ins(x, vx, t)),
    decreases t,
{
    match t {
        Tree::E => {},
        Tree::T(rb, a, y, vy, b) => {
            if x < y {
                lemma_ins_inv(x, vx, *a);
                let u = spec_ins(x, vx, *a);
                lemma_balance_bh(rb, u, y, vy, *b);
                if rb == Color::B {
                    lemma_balance_color(rb, u, y, vy, *b);
                } else {
                    // A red node has black-rooted children, so the descent
                    // returns a clean subtree and balance reassembles.
                    assert(black_root_s(*a));
                    assert(spec_balance(rb, u, y, vy, *b) == node_s(Color::R, u, y, vy, *b));
                }
            } else if y < x {
                lemma_ins_inv(x, vx, *b);
                let u = spec_ins(x, vx, *b);
                lemma_balance_bh(rb, *a, y, vy, u);
                if rb == Color::B {
                    lemma_balance_color(rb, *a, y, vy, u);
                } else {
                    assert(black_root_s(*b));
                    assert(spec_balance(rb, *a, y, vy, u) == node_s(Color::R, *a, y, vy, u));
                }
            } else {
            }
        },
    }
}

/// Re-blackening the root restores the full no-red-red invariant and
/// never breaks order or black height.
pub proof fn lemma_blacken_inv(t: Tree)
    requires
        no_red_red_sub(t),
        bh_ok(t),
    ensures
        no_red_red_s(spec_blacken(t)),
        bh_ok(spec_blacken(t)),
{
}

/// Inserting into a valid red-black tree yields a valid red-black tree.
pub proof fn lemma_insert_rbt(key: i32, val: i32, t: Tree)
    requires
        is_rbt_s(t),
    ensures
        is_rbt_s(spec_insert(key, val, t)),
{
    lemma_ins_inv(key, val, t);
    lemma_blacken_inv(spec_ins(key, val, t));
    lemma_insert_inorder(key, val, t);
}

/// `bal_left` repairs a left subtree one black level short: it always
/// succeeds on such inputs, restores the height of the right side, and
/// keeps red-red pairs out below the root (everywhere, if the right side
/// had a black root).
#[verifier::rlimit(100)]
pub proof fn lemma_bal_left_inv(l: Tree, k: i32, v: i32, r: Tree)
    requires
        bh_ok(l),
        bh_ok(r),
        bh(l) + 1 == bh(r),
        no_red_red_sub(l),
        no_red_red_s(r),
    ensures
        spec_bal_left(l, k, v, r) matches Some(u) && bh_ok(u) && bh(u) == bh(r)
            && no_red_red_sub(u) && (black_root_s(r) ==> no_red_red_s(u)),
{
    reveal_with_fuel(bh, 4);
    reveal_with_fuel(bh_ok, 4);
    reveal_with_fuel(no_red_red_s, 4);
    if is_red(l) {
    } else if is_black_node(r) {
        match r {
            Tree::T(_, ra, ry, rvy, rb) => {
                let rp = Tree::T(Color::R, ra, ry, rvy, rb);
                lemma_balance_bh(Color::B, l, k, v, rp);
                lemma_balance_color(Color::B, l, k, v, rp);
            },
            _ => {},
        }
    } else if red_black_left(r) {
        match r {
            Tree::T(_, l2, z, vz, c) => match *l2 {
                Tree::T(_, a, y, vy, b) => {
                    assert(black_root_s(*c) && bh(*c) == bh(*l2) && bh(*l2) >= 1);
                    assert(is_black_node(*c));
                    match spec_redden(*c) {
                        Some(cp) => {
                            lemma_balance_bh(Color::B, *b, z, vz, cp);
                            lemma_balance_color(Color::B, *b, z, vz, cp);
                        },
                        None => {},
                    }
                },
                _ => {},
            },
            _ => {},
        }
    } else {
        // No case applies only if the taller right tree is empty or a red
        // node over an empty left child, both excluded by the heights.
        assert(bh(r) >= 1);
        match r {
            Tree::T(c2, rl, _, _, _) => {
                assert(c2 == Color::R && black_root_s(*rl));
                assert(bh(*rl) == bh(r));
                assert(is_black_node(*rl));
            },
            Tree::E => {},
        }
        assert(false);
    }
}

/// `bal_right` repairs a right subtree one black level short; the mirror
/// image of `lemma_bal_left_inv`.
#[verifier::rlimit(100)]
pub proof fn lemma_bal_right_inv(l: Tree, k: i32, v: i32, r: Tree)
    requires
        bh_ok(l),
        bh_ok(r),
        bh(r) + 1 == bh(l),
        no_red_red_s(l),
        no_red_red_sub(r),
    ensures
        spec_bal_right(l, k, v, r) matches Some(u) && bh_ok(u) && bh(u) == bh(l)
            && no_red_red_sub(u) && (black_root_s(l) ==> no_red_red_s(u)),
{
    reveal_with_fuel(bh, 4);
    reveal_with_fuel(bh_ok, 4);
    reveal_with_fuel(no_red_red_s, 4);
    if is_red(r) {
    } else if is_black_node(l) {
        match l {
            Tree::T(_, la, ly, lvy, lb) => {
                let lp = Tree::T(Color::R, la, ly, lvy, lb);
                lemma_balance_bh(Color::B, lp, k, v, r);
                lemma_balance_color(Color::B, lp, k, v, r);
            },
            _ => {},
        }
    } else if red_black_right(l) {
        match l {
            Tree::T(_, a, x, vx, r1) => match *r1 {
                Tree::T(_, b, y, vy, c) => {
                    assert(black_root_s(*a) && bh(*a) == bh(*r1) && bh(*r1) >= 1);
                    assert(is_black_node(*a));
                    match spec_redden(*a) {
                        Some(ap) => {
                            lemma_balance_bh(Color::B, ap, x, vx, *b);
                            lemma_balance_color(Color::B, ap, x, vx, *b);
                        },
                        None => {},
                    }
                },
                _ => {},
            },
            _ => {},
        }
    } else {
        assert(bh(l) >= 1);
        match l {
            Tree::T(c1, _, _, _, lr) => {
                assert(c1 == Color::R && black_root_s(*lr));
                assert(bh(*lr) >= 1);
                assert(is_black_node(*lr));
            },
            Tree::E => {},
        }
        assert(false);
    }
}

/// The fuel-bounded join of two equal-height valid trees: when it returns
/// at all, the result keeps the height, has no red-red pair below the
/// root, and none at all when both roots were black.
#[verifier::rlimit(100)]
pub proof fn lemma_join_inv(t1: Tree, t2: Tree, f: nat)
    requires
        no_red_red_s(t1),
        no_red_red_s(t2),
        bh_ok(t1),
        bh_ok(t2),
        bh(t1) == bh(t2),
    ensures
        spec_join(t1, t2, f) matches Some(u) ==> bh_ok(u) && bh(u) == bh(t1)
            && no_red_red_sub(u) && ((black_root_s(t1) && black_root_s(t2))
            ==> no_red_red_s(u)),
    decreases f,
{
    reveal_with_fuel(bh, 4);
    reveal_with_fuel(bh_ok, 4);
    reveal_with_fuel(no_red_red_s, 4);
    if f == 0 {
    } else {
        let fp = (f - 1) as nat;
        match t1 {
            Tree::E => {},
            Tree::T(c1, a1, x1, v1, b1) => match t2 {
                Tree::E => {},
                Tree::T(c2, a2, x2, v2, b2) => match (c1, c2) {
                    (Color::R, Color::R) => {
                        lemma_join_inv(*b1, *a2, fp);
                    },
                    (Color::B, Color::B) => {
                        lemma_join_inv(*b1, *a2, fp);
                        match spec_join(*b1, *a2, fp) {
                            Some(m) => {
                                if !is_red(m) {
                                    lemma_bal_left_inv(
                                        *a1,
                                        x1,
                                        v1,
                                        node_s(Color::B, m, x2, v2, *b2),
                                    );
                                }
                            },
                            None => {},
                        }
                    },
                    (Color::B, Color::R) => {
                        lemma_join_inv(t1, *a2, fp);
                    },
                    (Color::R, Color::B) => {
                        lemma_join_inv(*b1, t2, fp);
                    },
                },
            },
        }
    }
}

/// The deletion descent: when it returns a tree, black height is kept on
/// a red root, lost by exactly one level on a black root, and red-red
/// pairs stay out below the root (everywhere, on a red root).
pub proof fn lemma_del_inv(x: i32, s: Tree, f: nat)
    requires
        no_red_red_s(s),
        bh_ok(s),
    ensures
        spec_del(x, s, f) matches Some(u) ==> bh_ok(u) && no_red_red_sub(u) && (is_red(s)
            ==> bh(u) == bh(s) && no_red_red_s(u)) && (is_black_node(s) ==> bh(u) + 1 == bh(
            s,
        )) && (s matches Tree::E ==> u == Tree::E),
    decreases f,
{
    if f == 0 {
    } else {
        let fp = (f - 1) as nat;
        match s {
            Tree::E => {},
            Tree::T(_, a, y, vy, b) => {
                if x < y {
                    lemma_del_left_inv(x, *a, y, vy, *b, fp);
                } else if y < x {
                    lemma_del_right_inv(x, *a, y, vy, *b, fp);
                } else {
                    lemma_join_inv(*a, *b, FUEL as nat);
                }
            },
        }
    }
}

/// Deleting in the left child of a node and repairing: the result keeps
/// the left child's black height; fully clean when both children had
/// black roots.
pub proof fn lemma_del_left_inv(x: i32, a: Tree, y: i32, vy: i32, b: Tree, f: nat)
    requires
        no_red_red_s(a),
        no_red_red_s(b),
        bh_ok(a),
        bh_ok(b),
        bh(a) == bh(b),
    ensures
        spec_del_left(x, a, y, vy, b, f) matches Some(u) ==> bh_ok(u) && bh(u) == bh(a)
            && no_red_red_sub(u) && ((black_root_s(a) && black_root_s(b)) ==> no_red_red_s(
            u,
        )),
    decreases f,
{
    if f == 0 {
    } else {
        let fp = (f - 1) as nat;
        lemma_del_inv(x, a, fp);
        match spec_del(x, a, fp) {
            None => {},
            Some(tp) => {
                if is_black_node(a) {
                    lemma_bal_left_inv(tp, y, vy, b);
                } else if is_red(a) {
                } else {
                    // `a` is empty, so the height is zero and `b` is either
                    // empty or a red node over empty children.
                    assert(tp == Tree::E);
                    if black_root_s(b) {
                        assert(bh(b) == 0);
                        assert(b matches Tree::E);
                    }
                }
            },
        }
    }
}

/// The mirror image of `lemma_del_left_inv`.
pub proof fn lemma_del_right_inv(x: i32, a: Tree, y: i32, vy: i32, b: Tree, f: nat)
    requires
        no_red_red_s(a),
        no_red_red_s(b),
        bh_ok(a),
        bh_ok(b),
        bh(a) == bh(b),
    ensures
        spec_del_right(x, a, y, vy, b, f) matches Some(u) ==> bh_ok(u) && bh(u) == bh(a)
            && no_red_red_sub(u) && ((black_root_s(a) && black_root_s(b)) ==> no_red_red_s(
            u,
        )),
    decreases f,
{
    if f == 0 {
    } else {
        let fp = (f - 1) as nat;
        lemma_del_inv(x, b, fp);
        match spec_del(x, b, fp) {
            None => {},
            Some(tp) => {
                if is_black_node(b) {
                    lemma_bal_right_inv(a, y, vy, tp);
                } else if is_red(b) {
                } else {
                    assert(tp == Tree::E);
                    if black_root_s(a) {
                        assert(bh(a) == 0);
                        assert(a matches Tree::E);
                    }
                }
            },
        }
    }
}

/// Deleting from a valid red-black tree either runs out of fuel or yields
/// a valid red-black tree.
pub proof fn lemma_delete_rbt(x: i32, t: Tree)
    requires
        is_rbt_s(t),
    ensures
        spec_delete(x, t) matches Some(u) ==> is_rbt_s(u),
{
    lemma_del_inv(x, t, FUEL as nat);
    lemma_delete_model(x, t);
    match spec_del(x, t, FUEL as nat) {
        None => {},
        Some(tp) => {
            lemma_blacken_inv(tp);
        },
    }
}

/// With enough fuel for the two facing spines, the join of two
/// equal-black-height valid trees returns a tree.
pub proof fn lemma_join_some(t1: Tree, t2: Tree, f: nat)
    requires
        no_red_red_s(t1),
        no_red_red_s(t2),
        bh_ok(t1),
        bh_ok(t2),
        bh(t1) == bh(t2),
        f >= height_s(t1) + height_s(t2) + 1,
    ensures
        spec_join(t1, t2, f) is Some,
    decreases f,
{
    reveal_with_fuel(bh, 3);
    reveal_with_fuel(bh_ok, 3);
    reveal_with_fuel(no_red_red_s, 3);
    lemma_join_inv(t1, t2, f);
    let fp = (f - 1) as nat;
    match t1 {
        Tree::E => {},
        Tree::T(c1, a1, x1, v1, b1) => match t2 {
            Tree::E => {},
            Tree::T(c2, a2, x2, v2, b2) => {
                match (c1, c2) {
                    (Color::R, Color::R) => {
                        lemma_join_some(*b1, *a2, fp);
                    },
                    (Color::B, Color::B) => {
                        lemma_join_some(*b1, *a2, fp);
                        lemma_join_inv(*b1, *a2, fp);
                        match spec_join(*b1, *a2, fp) {
                            Some(m) => {
                                if !is_red(m) {
                                    assert(no_red_red_sub(*a1));
                                    lemma_bal_left_inv(
                                        *a1,
                                        x1,
                                        v1,
                                        node_s(Color::B, m, x2, v2, *b2),
                                    );
                                }
                            },
                            None => {},
                        }
                    },
                    (Color::B, Color::R) => {
                        lemma_join_some(t1, *a2, fp);
                    },
                    (Color::R, Color::B) => {
                        lemma_join_some(*b1, t2, fp);
                    },
                }
            },
        },
    }
}

/// With enough fuel for twice the tree's height, and the height within
/// the inner join budget, the deletion descent returns a tree.
pub proof fn lemma_del_some(x: i32, s: Tree, f: nat)
    requires
        no_red_red_s(s),
        bh_ok(s),
        f >= 2 * height_s(s) + 2,
        2 * height_s(s) <= FUEL,
    ensures
        spec_del(x, s, f) is Some,
    decreases f,
{
    let fp = (f - 1) as nat;
    match s {
        Tree::E => {},
        Tree::T(_, a, y, vy, b) => {
            if x < y {
                lemma_del_left_some(x, *a, y, vy, *b, fp);
            } else if y < x {
                lemma_del_right_some(x, *a, y, vy, *b, fp);
            } else {
                lemma_join_some(*a, *b, FUEL as nat);
            }
        },
    }
}

/// Fuel sufficiency for a delete that descends left.
pub proof fn lemma_del_left_some(x: i32, a: Tree, y: i32, vy: i32, b: Tree, f: nat)
    requires
        no_red_red_s(a),
        no_red_red_s(b),
        bh_ok(a),
        bh_ok(b),
        bh(a) == bh(b),
        f >= 2 * height_s(a) + 3,
        2 * height_s(a) <= FUEL,
    ensures
        spec_del_left(x, a, y, vy, b, f) is Some,
    decreases f,
{
    let fp = (f - 1) as nat;
    lemma_del_some(x, a, fp);
    lemma_del_inv(x, a, fp);
    match spec_del(x, a, fp) {
        None => {},
        Some(tp) => {
            if is_black_node(a) {
                lemma_bal_left_inv(tp, y, vy, b);
            }
        },
    }
}

/// Fuel sufficiency for a delete that descends right.
pub proof fn lemma_del_right_some(x: i32, a: Tree, y: i32, vy: i32, b: Tree, f: nat)
    requires
        no_red_red_s(a),
        no_red_red_s(b),
        bh_ok(a),
        bh_ok(b),
        bh(a) == bh(b),
        f >= 2 * height_s(b) + 3,
        2 * height_s(b) <= FUEL,
    ensures
        spec_del_right(x, a, y, vy, b, f) is Some,
    decreases f,
{
    let fp = (f - 1) as nat;
    lemma_del_some(x, b, fp);
    lemma_del_inv(x, b, fp);
    match spec_del(x, b, fp) {
        None => {},
        Some(tp) => {
            if is_black_node(b) {
                lemma_bal_right_inv(a, y, vy, tp);
            }
        },
    }
}

/// On a valid tree whose recursion needs fit inside the standard budget,
/// `delete` never fails: its only failures are fuel exhaustion on
/// oversized trees or invariant breakage on invalid ones. Since a valid
/// tree's height is at most twice its black height plus one, the budget
/// covers every tree of black height below five thousand.
pub proof fn lemma_delete_some(x: i32, t: Tree)
    requires
        no_red_red_s(t),
        bh_ok(t),
        2 * height_s(t) + 2 <= FUEL,
    ensures
        spec_delete(x, t) is Some,
{
    lemma_del_some(x, t, FUEL as nat);
}

/// Totality of deletion in black-height terms: on a valid tree of black
/// height at most a quarter of the budget, `delete` returns a tree. Any
/// tree a machine can hold is far below that bound, since the node count
/// grows exponentially in the black height.
pub proof fn lemma_delete_total(x: i32, t: Tree)
    requires
        no_red_red_s(t),
        bh_ok(t),
        4 * bh(t) + 4 <= FUEL,
    ensures
        spec_delete(x, t) is Some,
{
    lemma_rbt_height(t);
    lemma_delete_some(x, t);
}

/// A valid tree is never taller than twice its black height, plus one
/// for a red root.
pub proof fn lemma_rbt_height(t: Tree)
    requires
        no_red_red_s(t),
        bh_ok(t),
    ensures
        height_s(t) <= 2 * bh(t) + 1,
        black_root_s(t) ==> height_s(t) <= 2 * bh(t),
    decreases t,
{
    match t {
        Tree::E => {},
        Tree::T(c, l, _, _, r) => {
            lemma_rbt_height(*l);
            lemma_rbt_height(*r);
        },
    }
}

} // verus!
