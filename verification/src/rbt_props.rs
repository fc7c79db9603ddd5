//! The property predicates: each takes an arbitrary starting tree plus
//! operation arguments and reports `None` (discarded: the start was not a
//! valid red-black tree), `Some(true)` (pass) or `Some(false)` (fail).
//! Their contracts carry the proved laws: on valid input each check that
//! holds of the operations is pinned to its verdict.

use vstd::prelude::*;

use crate::rbt_tree::{elems, find, height_s, insert, inorder, is_rbt_s, spec_insert, Tree};
use crate::rbt_delete::{delete, spec_delete, FUEL};
use crate::rbt_oracle::is_rbt;
use crate::rbt_model::{
    del_list, has_key, lemma_assoc_del, lemma_assoc_upd, lemma_bst_iff_sorted, lemma_del_absent,
    lemma_del_del, lemma_del_sorted,
    lemma_del_upd_commute, lemma_del_upd_same, lemma_delete_model, lemma_find_assoc,
    lemma_insert_inorder, lemma_upd_is_l_insert, lemma_upd_sorted, lemma_upd_upd_commute,
    lemma_upd_upd_same, spec_l_insert,
};
use crate::rbt_inv::{lemma_delete_rbt, lemma_delete_some, lemma_insert_rbt};

verus! {

/// The in-order key/value entries of a tree, left to right.
pub fn to_list(t: &Tree) -> (kvs: Vec<(i32, i32)>)
    ensures
        kvs@ == inorder(*t),
{
    elems(t)
}

/// Removes every entry at key `k` from an association list.
pub fn delete_key(k: i32, l: &[(i32, i32)]) -> (out: Vec<(i32, i32)>)
    ensures
        out@ == del_list(k, l@),
    decreases l@.len(),
{
    if l.len() == 0 {
        let out: Vec<(i32, i32)> = Vec::new();
        proof {
            assert(out@ =~= del_list(k, l@));
        }
        out
    } else {
        let rest = vstd::slice::slice_subrange(l, 1, l.len());
        proof {
            assert(rest@ =~= l@.skip(1));
        }
        let tail = delete_key(k, rest);
        let head = *vstd::slice::slice_index_get(l, 0);
        if head.0 == k {
            tail
        } else {
            let mut out: Vec<(i32, i32)> = Vec::new();
            out.push(head);
            let mut tail = tail;
            out.append(&mut tail);
            proof {
                assert(out@ =~= seq![l@[0]] + del_list(k, l@.skip(1)));
            }
            out
        }
    }
}

/// Sorted insertion into an association list, replacing the first entry
/// with an equal key.
pub fn l_insert(kv: (i32, i32), l: &[(i32, i32)]) -> (out: Vec<(i32, i32)>)
    ensures
        out@ == spec_l_insert(kv, l@),
    decreases l@.len(),
{
    if l.len() == 0 {
        let mut out: Vec<(i32, i32)> = Vec::new();
        out.push(kv);
        proof {
            assert(out@ =~= seq![kv]);
        }
        out
    } else {
        let head = *vstd::slice::slice_index_get(l, 0);
        if kv.0 == head.0 {
            let rest = vstd::slice::slice_subrange(l, 1, l.len());
            let mut out = vstd::slice::slice_to_vec(rest);
            out.insert(0, kv);
            proof {
                assert(out@ =~= seq![kv] + l@.skip(1));
            }
            out
        } else if kv.0 < head.0 {
            let mut out = vstd::slice::slice_to_vec(l);
            out.insert(0, kv);
            proof {
                assert(out@ =~= seq![kv] + l@);
            }
            out
        } else {
            let rest = vstd::slice::slice_subrange(l, 1, l.len());
            proof {
                assert(rest@ =~= l@.skip(1));
            }
            let mut out = l_insert(kv, rest);
            out.insert(0, head);
            proof {
                assert(out@ =~= seq![l@[0]] + spec_l_insert(kv, l@.skip(1)));
            }
            out
        }
    }
}

/// Element-wise equality of two entry lists.
fn list_eq(a: &Vec<(i32, i32)>, b: &Vec<(i32, i32)>) -> (r: bool)
    ensures
        r == (a@ == b@),
{
    if a.len() != b.len() {
        proof {
            assert(a@.len() != b@.len());
        }
        return false;
    }
    let mut i: usize = 0;
    while i < a.len()
        invariant
            0 <= i <= a.len(),
            a@.len() == b@.len(),
            forall|j: int| 0 <= j < i ==> a@[j] == b@[j],
        decreases a.len() - i,
    {
        let x = a[i];
        let y = b[i];
        if x.0 != y.0 || x.1 != y.1 {
            proof {
                assert(a@[i as int] != b@[i as int]);
            }
            return false;
        }
        i = i + 1;
    }
    proof {
        assert(a@ =~= b@);
    }
    true
}

/// Equality of two optional values.
fn opt_eq(a: &Option<i32>, b: &Option<i32>) -> (r: bool)
    ensures
        r == (a == b),
{
    match (a, b) {
        (None, None) => true,
        (Some(x), Some(y)) => x == y,
        _ => false,
    }
}

/// Validity preservation of insertion: on a valid tree the verdict is
/// always a pass.
pub fn prop_insert_valid(t: Tree, k: i32, v: i32) -> (res: Option<bool>)
    ensures
        !is_rbt_s(t) ==> res == None::<bool>,
        is_rbt_s(t) ==> res == Some(true),
{
    match is_rbt(&t) {
        Some(true) => {
            proof {
                lemma_insert_rbt(k, v, t);
            }
            let t2 = insert(k, v, t.clone());
            is_rbt(&t2)
        },
        _ => None,
    }
}

/// Validity preservation of deletion: on a valid tree the verdict is a
/// pass whenever the deletion returns at all; a fuel-exhausted deletion
/// is a hard failure, never a discard, and cannot occur below the proved
/// height bound. Only an invalid starting tree is discarded.
pub fn prop_delete_valid(t: Tree, k: i32) -> (res: Option<bool>)
    ensures
        !is_rbt_s(t) ==> res == None::<bool>,
        is_rbt_s(t) && spec_delete(k, t) is None ==> res == Some(false),
        is_rbt_s(t) && spec_delete(k, t) is Some ==> res == Some(true),
        is_rbt_s(t) && 2 * height_s(t) + 2 <= FUEL ==> res == Some(true),
{
    match is_rbt(&t) {
        Some(true) => {
            proof {
                lemma_delete_rbt(k, t);
                if 2 * height_s(t) + 2 <= FUEL {
                    lemma_delete_some(k, t);
                }
            }
            match delete(k, t.clone()) {
                None => Some(false),
                Some(tp) => is_rbt(&tp),
            }
        },
        _ => None,
    }
}

/// Postcondition of insertion: on a valid tree, looking up any key after
/// an insert gives the inserted value at that key and the old answer at
/// every other key; the verdict is always a pass.
pub fn prop_insert_post(t: Tree, k: i32, k2: i32, v: i32) -> (res: Option<bool>)
    ensures
        !is_rbt_s(t) ==> res == None::<bool>,
        is_rbt_s(t) ==> res == Some(true),
{
    match is_rbt(&t) {
        Some(true) => {
            proof {
                lemma_insert_inorder(k, v, t);
                lemma_find_assoc(k2, spec_insert(k, v, t));
                lemma_find_assoc(k2, t);
                lemma_assoc_upd(k, v, k2, inorder(t));
            }
            let found = find(k2, insert(k, v, t.clone()));
            let expected = if k == k2 {
                Some(v)
            } else {
                find(k2, t.clone())
            };
            Some(opt_eq(&found, &expected))
        },
        _ => None,
    }
}

/// Postcondition of deletion: on a valid tree, after a successful delete
/// the key reads back as absent and every other key is unchanged; a
/// fuel-exhausted deletion is a hard failure, never a discard.
pub fn prop_delete_post(t: Tree, k: i32, k2: i32) -> (res: Option<bool>)
    ensures
        !is_rbt_s(t) ==> res == None::<bool>,
        is_rbt_s(t) && spec_delete(k, t) is None ==> res == Some(false),
        is_rbt_s(t) && spec_delete(k, t) is Some ==> res == Some(true),
{
    match is_rbt(&t) {
        Some(true) => {
            match delete(k, t.clone()) {
                None => Some(false),
                Some(tp) => {
                    proof {
                        lemma_delete_model(k, t);
                        lemma_find_assoc(k2, tp);
                        lemma_find_assoc(k2, t);
                        lemma_assoc_del(k, k2, inorder(t));
                    }
                    let found = find(k2, tp);
                    let expected = if k == k2 {
                        None
                    } else {
                        find(k2, t.clone())
                    };
                    Some(opt_eq(&found, &expected))
                },
            }
        },
        _ => None,
    }
}

/// Model equivalence of insertion: the in-order entries after an insert
/// are exactly a sorted association-list insert after removing the key;
/// on a valid tree the verdict is always a pass.
pub fn prop_insert_model(t: Tree, k: i32, v: i32) -> (res: Option<bool>)
    ensures
        !is_rbt_s(t) ==> res == None::<bool>,
        is_rbt_s(t) ==> res == Some(true),
{
    match is_rbt(&t) {
        Some(true) => {
            proof {
                lemma_insert_inorder(k, v, t);
                lemma_bst_iff_sorted(t);
                lemma_upd_is_l_insert(k, v, inorder(t));
            }
            let lhs = to_list(&insert(k, v, t.clone()));
            let base = to_list(&t);
            let rhs = l_insert((k, v), delete_key(k, base.as_slice()).as_slice());
            Some(list_eq(&lhs, &rhs))
        },
        _ => None,
    }
}

/// Model equivalence of deletion: a successful delete removes exactly the
/// entries at the key from the in-order sequence; a fuel-exhausted
/// deletion is a hard failure, never a discard.
pub fn prop_delete_model(t: Tree, k: i32) -> (res: Option<bool>)
    ensures
        !is_rbt_s(t) ==> res == None::<bool>,
        is_rbt_s(t) && spec_delete(k, t) is None ==> res == Some(false),
        is_rbt_s(t) && spec_delete(k, t) is Some ==> res == Some(true),
{
    match is_rbt(&t) {
        Some(true) => {
            match delete(k, t.clone()) {
                None => Some(false),
                Some(tp) => {
                    proof {
                        lemma_delete_model(k, t);
                    }
                    let lhs = to_list(&tp);
                    let base = to_list(&t);
                    let rhs = delete_key(k, base.as_slice());
                    Some(list_eq(&lhs, &rhs))
                },
            }
        },
        _ => None,
    }
}

/// Insert/insert commutation: re-inserting a key keeps the later value,
/// and inserts at distinct keys commute in-order; on a valid tree the
/// verdict is always a pass.
pub fn prop_insert_insert(t: Tree, k: i32, kp: i32, v: i32, vp: i32) -> (res: Option<bool>)
    ensures
        !is_rbt_s(t) ==> res == None::<bool>,
        is_rbt_s(t) ==> res == Some(true),
{
    match is_rbt(&t) {
        Some(true) => {
            proof {
                lemma_bst_iff_sorted(t);
                lemma_insert_inorder(kp, vp, t);
                lemma_insert_inorder(k, v, t);
                lemma_upd_sorted(kp, vp, inorder(t));
                lemma_upd_sorted(k, v, inorder(t));
                lemma_bst_iff_sorted(spec_insert(kp, vp, t));
                lemma_bst_iff_sorted(spec_insert(k, v, t));
                lemma_insert_inorder(k, v, spec_insert(kp, vp, t));
                lemma_insert_inorder(kp, vp, spec_insert(k, v, t));
                if k == kp {
                    lemma_upd_upd_same(k, v, vp, inorder(t));
                } else {
                    lemma_upd_upd_commute(k, v, kp, vp, inorder(t));
                }
            }
            let t1 = insert(k, v, t.clone());
            let t2 = insert(kp, vp, insert(k, v, t.clone()));
            let lhs = to_list(&insert(k, v, insert(kp, vp, t.clone())));
            let rhs = to_list(if k == kp {
                &t1
            } else {
                &t2
            });
            Some(list_eq(&lhs, &rhs))
        },
        _ => None,
    }
}

/// Insert/delete commutation, with the insert applied after the delete:
/// on a valid tree, inserting `k` into the tree with `kp` deleted gives
/// the same in-order entries as the plain insert when the keys coincide,
/// and as deleting `kp` from the inserted tree otherwise; the verdict is
/// always a pass when the deletions return, and a fuel-exhausted
/// deletion is a hard failure, never a discard.
pub fn prop_insert_delete(t: Tree, k: i32, kp: i32, v: i32) -> (res: Option<bool>)
    ensures
        !is_rbt_s(t) ==> res == None::<bool>,
        is_rbt_s(t) && spec_delete(kp, t) is None ==> res == Some(false),
        is_rbt_s(t) && spec_delete(kp, t) is Some && k != kp && spec_delete(
            kp,
            spec_insert(k, v, t),
        ) is None ==> res == Some(false),
        is_rbt_s(t) && spec_delete(kp, t) is Some && (k == kp || spec_delete(
            kp,
            spec_insert(k, v, t),
        ) is Some) ==> res == Some(true),
{
    match is_rbt(&t) {
        Some(true) => {
            match delete(kp, t.clone()) {
                None => Some(false),
                Some(t2) => {
                    proof {
                        lemma_bst_iff_sorted(t);
                        lemma_delete_model(kp, t);
                        lemma_insert_inorder(k, v, t2);
                        lemma_insert_inorder(k, v, t);
                        if k == kp {
                            // Deleting the key first and re-inserting it is
                            // the plain sorted update.
                            let s0 = inorder(t);
                            lemma_del_sorted(k, s0);
                            lemma_upd_is_l_insert(k, v, del_list(k, s0));
                            assert(!has_key(del_list(k, s0), k)) by {
                                if has_key(del_list(k, s0), k) {
                                    let w = choose|w: int|
                                        0 <= w < del_list(k, s0).len() && del_list(
                                            k,
                                            s0,
                                        )[w].0 == k;
                                    assert(del_list(k, s0)[w].0 != k);
                                }
                            }
                            lemma_del_absent(k, del_list(k, s0));
                            lemma_upd_is_l_insert(k, v, s0);
                        } else {
                            lemma_delete_model(kp, spec_insert(k, v, t));
                            lemma_del_upd_commute(kp, k, v, inorder(t));
                        }
                    }
                    let lhs = to_list(&insert(k, v, t2));
                    if k == kp {
                        let rhs = to_list(&insert(k, v, t.clone()));
                        Some(list_eq(&lhs, &rhs))
                    } else {
                        match delete(kp, insert(k, v, t.clone())) {
                            None => Some(false),
                            Some(d) => {
                                let rhs = to_list(&d);
                                Some(list_eq(&lhs, &rhs))
                            },
                        }
                    }
                },
            }
        },
        _ => None,
    }
}

/// Delete/insert commutation: deleting a key just inserted undoes the
/// insert, and a delete commutes with an insert at a different key; on a
/// valid tree the verdict is a pass whenever both deletions return, and a
/// fail when one runs out of fuel.
pub fn prop_delete_insert(t: Tree, k: i32, kp: i32, v: i32) -> (res: Option<bool>)
    ensures
        !is_rbt_s(t) ==> res == None::<bool>,
        is_rbt_s(t) && spec_delete(k, spec_insert(kp, v, t)) is None ==> res == Some(false),
        is_rbt_s(t) && spec_delete(k, spec_insert(kp, v, t)) is Some && spec_delete(k, t)
            is None ==> res == Some(false),
        is_rbt_s(t) && spec_delete(k, spec_insert(kp, v, t)) is Some && spec_delete(k, t)
            is Some ==> res == Some(true),
{
    match is_rbt(&t) {
        Some(true) => {
            proof {
                lemma_bst_iff_sorted(t);
                lemma_insert_inorder(kp, v, t);
                lemma_upd_sorted(kp, v, inorder(t));
                lemma_bst_iff_sorted(spec_insert(kp, v, t));
                lemma_delete_model(k, spec_insert(kp, v, t));
                lemma_delete_model(k, t);
                if k == kp {
                    lemma_del_upd_same(k, v, inorder(t));
                } else {
                    lemma_del_upd_commute(k, kp, v, inorder(t));
                    match spec_delete(k, t) {
                        Some(tpp) => {
                            lemma_insert_inorder(kp, v, tpp);
                        },
                        None => {},
                    }
                }
            }
            match delete(k, insert(kp, v, t.clone())) {
                None => Some(false),
                Some(tp) => match delete(k, t.clone()) {
                    None => Some(false),
                    Some(tpp) => {
                        let tppp = insert(kp, v, tpp.clone());
                        let lhs = to_list(&tp);
                        let rhs = to_list(if k == kp {
                            &tpp
                        } else {
                            &tppp
                        });
                        Some(list_eq(&lhs, &rhs))
                    },
                },
            }
        },
        _ => None,
    }
}

/// Delete/delete commutation: deleting two keys in either order gives the
/// same in-order entries; on a valid tree the verdict is a pass whenever
/// all four deletions return, and a fuel-exhausted deletion is a hard
/// failure, never a discard.
pub fn prop_delete_delete(t: Tree, k: i32, kp: i32) -> (res: Option<bool>)
    ensures
        !is_rbt_s(t) ==> res == None::<bool>,
        is_rbt_s(t) ==> match spec_delete(kp, t) {
            None => res == Some(false),
            Some(tp) => match spec_delete(k, tp) {
                None => res == Some(false),
                Some(_) => match spec_delete(k, t) {
                    None => res == Some(false),
                    Some(t1p) => match spec_delete(kp, t1p) {
                        None => res == Some(false),
                        Some(_) => res == Some(true),
                    },
                },
            },
        },
{
    match is_rbt(&t) {
        Some(true) => {
            proof {
                lemma_bst_iff_sorted(t);
                lemma_delete_model(kp, t);
                lemma_delete_model(k, t);
                lemma_del_del(k, kp, inorder(t));
                match spec_delete(kp, t) {
                    Some(tp) => {
                        lemma_delete_model(k, tp);
                    },
                    None => {},
                }
                match spec_delete(k, t) {
                    Some(t1p) => {
                        lemma_delete_model(kp, t1p);
                    },
                    None => {},
                }
            }
            match delete(kp, t.clone()) {
                None => Some(false),
                Some(tp) => match delete(k, tp) {
                    None => Some(false),
                    Some(tpp) => match delete(k, t.clone()) {
                        None => Some(false),
                        Some(t1p) => match delete(kp, t1p) {
                            None => Some(false),
                            Some(t1pp) => {
                                let lhs = to_list(&tpp);
                                let rhs = to_list(&t1pp);
                                Some(list_eq(&lhs, &rhs))
                            },
                        },
                    },
                },
            }
        },
        _ => None,
    }
}

} // verus!
