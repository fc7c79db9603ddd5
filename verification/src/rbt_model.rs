//! The sorted association-list model: what each tree operation does to the
//! in-order sequence, and the list-level laws that the property predicates
//! rest on.

use vstd::prelude::*;

use crate::rbt_tree::{
    all_keys_gt, all_keys_lt, inorder, is_bst_s, is_red, node_s, red_red_left, red_red_right,
    spec_balance, spec_blacken, spec_ins, spec_insert, spec_redden, spec_find, Color, Tree,
};
use crate::rbt_delete::{
    is_black_node, red_black_left, red_black_right, spec_bal_left, spec_bal_right, spec_del,
    spec_del_left, spec_del_right, spec_delete, spec_join, FUEL,
};

verus! {

/// Keys strictly increase along the sequence; in particular no key repeats.
pub open spec fn sorted_kv(s: Seq<(i32, i32)>) -> bool {
    forall|i: int, j: int| 0 <= i < j < s.len() ==> s[i].0 < s[j].0
}

/// Every key in the sequence is strictly below `x`.
pub open spec fn keys_all_lt(s: Seq<(i32, i32)>, x: i32) -> bool {
    forall|i: int| 0 <= i < s.len() ==> s[i].0 < x
}

/// Every key in the sequence is strictly above `x`.
pub open spec fn keys_all_gt(s: Seq<(i32, i32)>, x: i32) -> bool {
    forall|i: int| 0 <= i < s.len() ==> s[i].0 > x
}

/// Some entry carries key `k`.
pub open spec fn has_key(s: Seq<(i32, i32)>, k: i32) -> bool {
    exists|i: int| 0 <= i < s.len() && s[i].0 == k
}

/// Removes every entry whose key is `k`, keeping the order of the rest.
pub open spec fn del_list(k: i32, s: Seq<(i32, i32)>) -> Seq<(i32, i32)>
    decreases s.len(),
{
    if s.len() == 0 {
        Seq::empty()
    } else if s[0].0 == k {
        del_list(k, s.skip(1))
    } else {
        seq![s[0]] + del_list(k, s.skip(1))
    }
}

/// Inserts `(k, v)` into a sorted sequence, replacing the entry at an equal
/// key: keys below `k` stay in front, the rest moves behind.
pub open spec fn upd_list(k: i32, v: i32, s: Seq<(i32, i32)>) -> Seq<(i32, i32)>
    decreases s.len(),
{
    if s.len() == 0 {
        seq![(k, v)]
    } else if s[0].0 < k {
        seq![s[0]] + upd_list(k, v, s.skip(1))
    } else if s[0].0 == k {
        seq![(k, v)] + s.skip(1)
    } else {
        seq![(k, v)] + s
    }
}

/// What `l_insert` returns: sorted insertion into an association list,
/// replacing the first entry with an equal key.
pub open spec fn spec_l_insert(kv: (i32, i32), s: Seq<(i32, i32)>) -> Seq<(i32, i32)>
    decreases s.len(),
{
    if s.len() == 0 {
        seq![kv]
    } else if kv.0 == s[0].0 {
        seq![kv] + s.skip(1)
    } else if kv.0 < s[0].0 {
        seq![kv] + s
    } else {
        seq![s[0]] + spec_l_insert(kv, s.skip(1))
    }
}

/// First-match association lookup.
pub open spec fn assoc(k: i32, s: Seq<(i32, i32)>) -> Option<i32>
    decreases s.len(),
{
    if s.len() == 0 {
        None
    } else if s[0].0 == k {
        Some(s[0].1)
    } else {
        assoc(k, s.skip(1))
    }
}

/// Splitting off an absent key changes nothing.
pub proof fn lemma_del_absent(k: i32, s: Seq<(i32, i32)>)
    requires
        !has_key(s, k),
    ensures
        del_list(k, s) == s,
    decreases s.len(),
{
    if s.len() > 0 {
        assert(s[0].0 != k);
        lemma_del_absent(k, s.skip(1));
        assert(seq![s[0]] + s.skip(1) =~= s);
    } else {
        assert(del_list(k, s) =~= s);
    }
}

/// Key removal distributes over concatenation.
pub proof fn lemma_del_concat(k: i32, s1: Seq<(i32, i32)>, s2: Seq<(i32, i32)>)
    ensures
        del_list(k, s1 + s2) == del_list(k, s1) + del_list(k, s2),
    decreases s1.len(),
{
    if s1.len() == 0 {
        assert(s1 + s2 =~= s2);
        assert(del_list(k, s1) + del_list(k, s2) =~= del_list(k, s2));
    } else {
        assert((s1 + s2).skip(1) =~= s1.skip(1) + s2);
        lemma_del_concat(k, s1.skip(1), s2);
        if s1[0].0 == k {
        } else {
            assert(seq![s1[0]] + (del_list(k, s1.skip(1)) + del_list(k, s2)) =~= (seq![s1[0]]
                + del_list(k, s1.skip(1))) + del_list(k, s2));
        }
    }
}

/// Key removal keeps the sorted order.
pub proof fn lemma_del_sorted(k: i32, s: Seq<(i32, i32)>)
    requires
        sorted_kv(s),
    ensures
        sorted_kv(del_list(k, s)),
        forall|i: int|
            0 <= i < del_list(k, s).len() ==> has_key(s, #[trigger] del_list(k, s)[i].0),
        forall|i: int| 0 <= i < del_list(k, s).len() ==> #[trigger] del_list(k, s)[i].0 != k,
    decreases s.len(),
{
    if s.len() > 0 {
        assert(forall|i: int| 0 <= i < s.skip(1).len() ==> #[trigger] s.skip(1)[i] == s[i + 1]);
        lemma_del_sorted(k, s.skip(1));
        let d = del_list(k, s);
        let dt = del_list(k, s.skip(1));
        assert(forall|i: int|
            0 <= i < dt.len() && has_key(s.skip(1), #[trigger] dt[i].0) ==> has_key(
                s,
                dt[i].0,
            ));
        if s[0].0 != k {
            assert(forall|i: int| 1 <= i < d.len() ==> #[trigger] d[i] == dt[i - 1]);
            assert(forall|j: int|
                0 <= j < dt.len() ==> s[0].0 < #[trigger] dt[j].0) by {
                assert forall|j: int| 0 <= j < dt.len() implies s[0].0 < #[trigger] dt[j].0 by {
                    assert(has_key(s.skip(1), dt[j].0));
                    let w = choose|w: int|
                        0 <= w < s.skip(1).len() && s.skip(1)[w].0 == dt[j].0;
                    assert(s[w + 1].0 == dt[j].0);
                }
            }
        }
    }
}

/// Looking a key up after removing a different one is unchanged; the
/// removed key is gone.
pub proof fn lemma_assoc_del(k: i32, k2: i32, s: Seq<(i32, i32)>)
    ensures
        k2 == k ==> assoc(k2, del_list(k, s)) == None::<i32>,
        k2 != k ==> assoc(k2, del_list(k, s)) == assoc(k2, s),
    decreases s.len(),
{
    if s.len() > 0 {
        lemma_assoc_del(k, k2, s.skip(1));
        if s[0].0 != k {
            let d = del_list(k, s);
            assert(d == seq![s[0]] + del_list(k, s.skip(1)));
            assert(d[0] == s[0]);
            assert(d.skip(1) =~= del_list(k, s.skip(1)));
        }
    }
}

/// Removing two keys commutes.
pub proof fn lemma_del_del(k: i32, kp: i32, s: Seq<(i32, i32)>)
    ensures
        del_list(k, del_list(kp, s)) == del_list(kp, del_list(k, s)),
    decreases s.len(),
{
    if s.len() == 0 {
    } else {
        lemma_del_del(k, kp, s.skip(1));
        let h = s[0];
        if h.0 == k && h.0 == kp {
        } else if h.0 == k {
            assert(del_list(kp, s) == seq![h] + del_list(kp, s.skip(1)));
            assert((seq![h] + del_list(kp, s.skip(1))).skip(1) =~= del_list(kp, s.skip(1)));
        } else if h.0 == kp {
            assert(del_list(k, s) == seq![h] + del_list(k, s.skip(1)));
            assert((seq![h] + del_list(k, s.skip(1))).skip(1) =~= del_list(k, s.skip(1)));
        } else {
            let dk = del_list(k, s.skip(1));
            let dp = del_list(kp, s.skip(1));
            assert((seq![h] + dp).skip(1) =~= dp);
            assert((seq![h] + dk).skip(1) =~= dk);
            assert(del_list(k, seq![h] + dp) == seq![h] + del_list(k, dp));
            assert(del_list(kp, seq![h] + dk) == seq![h] + del_list(kp, dk));
        }
    }
}

/// With every key of the prefix below `k`, updating skips over it.
pub proof fn lemma_upd_concat_left(k: i32, v: i32, s1: Seq<(i32, i32)>, s2: Seq<(i32, i32)>)
    requires
        keys_all_lt(s1, k),
    ensures
        upd_list(k, v, s1 + s2) == s1 + upd_list(k, v, s2),
    decreases s1.len(),
{
    if s1.len() == 0 {
        assert(s1 + s2 =~= s2);
        assert(s1 + upd_list(k, v, s2) =~= upd_list(k, v, s2));
    } else {
        let s = s1 + s2;
        assert(s[0] == s1[0] && s1[0].0 < k);
        assert(s.skip(1) =~= s1.skip(1) + s2);
        assert(forall|i: int| 0 <= i < s1.skip(1).len() ==> #[trigger] s1.skip(1)[i] == s1[i + 1]);
        lemma_upd_concat_left(k, v, s1.skip(1), s2);
        assert(seq![s1[0]] + (s1.skip(1) + upd_list(k, v, s2)) =~= s1 + upd_list(k, v, s2));
    }
}

/// With every key of the suffix above `k`, updating never reaches it.
pub proof fn lemma_upd_concat_right(k: i32, v: i32, s1: Seq<(i32, i32)>, s2: Seq<(i32, i32)>)
    requires
        keys_all_gt(s2, k),
    ensures
        upd_list(k, v, s1 + s2) == upd_list(k, v, s1) + s2,
    decreases s1.len(),
{
    let s = s1 + s2;
    if s1.len() == 0 {
        assert(s =~= s2);
        if s2.len() == 0 {
            assert(upd_list(k, v, s1) + s2 =~= seq![(k, v)]);
        } else {
            assert(s2[0].0 > k);
            assert(upd_list(k, v, s1) + s2 =~= seq![(k, v)] + s2);
        }
    } else {
        assert(s[0] == s1[0]);
        assert(s.skip(1) =~= s1.skip(1) + s2);
        if s1[0].0 < k {
            lemma_upd_concat_right(k, v, s1.skip(1), s2);
            assert(seq![s1[0]] + (upd_list(k, v, s1.skip(1)) + s2) =~= (seq![s1[0]] + upd_list(
                k,
                v,
                s1.skip(1),
            )) + s2);
        } else if s1[0].0 == k {
            assert((seq![(k, v)] + s.skip(1)) =~= (seq![(k, v)] + s1.skip(1)) + s2);
        } else {
            assert((seq![(k, v)] + s) =~= (seq![(k, v)] + s1) + s2);
        }
    }
}

/// Updating keeps the sorted order, places the key, and leaves other keys.
pub proof fn lemma_upd_sorted(k: i32, v: i32, s: Seq<(i32, i32)>)
    requires
        sorted_kv(s),
    ensures
        sorted_kv(upd_list(k, v, s)),
        forall|i: int|
            0 <= i < upd_list(k, v, s).len() ==> (#[trigger] upd_list(k, v, s)[i].0 == k
                || has_key(s, upd_list(k, v, s)[i].0)),
        has_key(upd_list(k, v, s), k),
    decreases s.len(),
{
    let u = upd_list(k, v, s);
    if s.len() == 0 {
        assert(u[0].0 == k);
    } else if s[0].0 < k {
        assert(forall|i: int| 0 <= i < s.skip(1).len() ==> #[trigger] s.skip(1)[i] == s[i + 1]);
        lemma_upd_sorted(k, v, s.skip(1));
        let ut = upd_list(k, v, s.skip(1));
        assert(forall|i: int| 1 <= i < u.len() ==> #[trigger] u[i] == ut[i - 1]);
        assert(u[0] == s[0]);
        assert forall|j: int| 0 <= j < ut.len() implies s[0].0 < #[trigger] ut[j].0 by {
            if ut[j].0 == k {
            } else {
                assert(has_key(s.skip(1), ut[j].0));
                let w = choose|w: int| 0 <= w < s.skip(1).len() && s.skip(1)[w].0 == ut[j].0;
                assert(s[w + 1].0 == ut[j].0);
            }
        }
        let w = choose|w: int| 0 <= w < ut.len() && ut[w].0 == k;
        assert(u[w + 1].0 == k);
    } else if s[0].0 == k {
        assert(forall|i: int| 0 <= i < s.skip(1).len() ==> #[trigger] s.skip(1)[i] == s[i + 1]);
        assert(forall|i: int| 1 <= i < u.len() ==> #[trigger] u[i] == s[i]);
        assert(u[0].0 == k);
    } else {
        assert(forall|i: int| 1 <= i < u.len() ==> #[trigger] u[i] == s[i - 1]);
        assert(u[0].0 == k);
    }
}

/// Looking up after an update: the updated key reads back the new value,
/// every other key is unchanged.
pub proof fn lemma_assoc_upd(k: i32, v: i32, k2: i32, s: Seq<(i32, i32)>)
    ensures
        k2 == k ==> assoc(k2, upd_list(k, v, s)) == Some(v),
        k2 != k ==> assoc(k2, upd_list(k, v, s)) == assoc(k2, s),
    decreases s.len(),
{
    reveal_with_fuel(assoc, 3);
    let u = upd_list(k, v, s);
    if s.len() == 0 {
        assert(u == seq![(k, v)]);
        assert(u.skip(1) =~= Seq::<(i32, i32)>::empty());
    } else if s[0].0 < k {
        lemma_assoc_upd(k, v, k2, s.skip(1));
        assert(u == seq![s[0]] + upd_list(k, v, s.skip(1)));
        assert(u[0] == s[0]);
        assert(u.skip(1) =~= upd_list(k, v, s.skip(1)));
    } else if s[0].0 == k {
        assert(u == seq![(k, v)] + s.skip(1));
        assert(u[0] == (k, v));
        assert(u.skip(1) =~= s.skip(1));
    } else {
        assert(u == seq![(k, v)] + s);
        assert(u[0] == (k, v));
        assert(u.skip(1) =~= s);
    }
}

/// On a sorted sequence, the sorted update is exactly an `l_insert` after
/// removing the key.
pub proof fn lemma_upd_is_l_insert(k: i32, v: i32, s: Seq<(i32, i32)>)
    requires
        sorted_kv(s),
    ensures
        upd_list(k, v, s) == spec_l_insert((k, v), del_list(k, s)),
    decreases s.len(),
{
    if s.len() == 0 {
        assert(del_list(k, s) =~= Seq::<(i32, i32)>::empty());
    } else {
        let h = s[0];
        assert(forall|i: int| 0 <= i < s.skip(1).len() ==> #[trigger] s.skip(1)[i] == s[i + 1]);
        if h.0 < k {
            lemma_upd_is_l_insert(k, v, s.skip(1));
            let d = del_list(k, s);
            assert(d == seq![h] + del_list(k, s.skip(1)));
            assert(d[0] == h);
            assert(d.skip(1) =~= del_list(k, s.skip(1)));
            assert(d.len() > 0 && !((k, v).0 == d[0].0) && !((k, v).0 < d[0].0));
            assert(spec_l_insert((k, v), d) == seq![h] + spec_l_insert((k, v), del_list(k, s.skip(1))));
        } else if h.0 == k {
            assert(!has_key(s.skip(1), k)) by {
                if has_key(s.skip(1), k) {
                    let w = choose|w: int| 0 <= w < s.skip(1).len() && s.skip(1)[w].0 == k;
                    assert(s[w + 1].0 == k && s[0].0 == k);
                }
            }
            lemma_del_absent(k, s.skip(1));
            let d = del_list(k, s);
            assert(d =~= s.skip(1));
            if d.len() == 0 {
                assert(upd_list(k, v, s) =~= seq![(k, v)] + s.skip(1));
                assert(spec_l_insert((k, v), d) =~= seq![(k, v)]);
                assert(seq![(k, v)] + s.skip(1) =~= seq![(k, v)]);
            } else {
                assert(d[0] == s[1]);
                assert(s[1].0 > k);
                assert(spec_l_insert((k, v), d) == seq![(k, v)] + d);
            }
        } else {
            assert(!has_key(s, k)) by {
                if has_key(s, k) {
                    let w = choose|w: int| 0 <= w < s.len() && s[w].0 == k;
                    assert(w > 0 ==> s[0].0 < s[w].0);
                }
            }
            lemma_del_absent(k, s);
            assert(spec_l_insert((k, v), s) == seq![(k, v)] + s);
        }
    }
}

/// Re-updating the same key keeps only the later value.
pub proof fn lemma_upd_upd_same(k: i32, v: i32, v1: i32, s: Seq<(i32, i32)>)
    ensures
        upd_list(k, v, upd_list(k, v1, s)) == upd_list(k, v, s),
    decreases s.len(),
{
    let u1 = upd_list(k, v1, s);
    if s.len() == 0 {
        assert(u1 == seq![(k, v1)]);
        assert(u1[0].0 == k);
        assert(upd_list(k, v, u1) == seq![(k, v)] + u1.skip(1));
        assert(seq![(k, v)] + u1.skip(1) =~= seq![(k, v)]);
    } else if s[0].0 < k {
        lemma_upd_upd_same(k, v, v1, s.skip(1));
        assert(u1 == seq![s[0]] + upd_list(k, v1, s.skip(1)));
        assert(u1[0] == s[0]);
        assert(u1.skip(1) =~= upd_list(k, v1, s.skip(1)));
        assert(upd_list(k, v, u1) == seq![s[0]] + upd_list(k, v, upd_list(k, v1, s.skip(1))));
    } else if s[0].0 == k {
        assert(u1 == seq![(k, v1)] + s.skip(1));
        assert(u1[0] == (k, v1));
        assert(u1.skip(1) =~= s.skip(1));
        assert(upd_list(k, v, u1) == seq![(k, v)] + s.skip(1));
    } else {
        assert(u1 == seq![(k, v1)] + s);
        assert(u1[0] == (k, v1));
        assert(u1.skip(1) =~= s);
        assert(upd_list(k, v, u1) == seq![(k, v)] + s);
    }
}

/// Updates at distinct keys commute.
pub proof fn lemma_upd_upd_commute(k: i32, v: i32, kp: i32, vp: i32, s: Seq<(i32, i32)>)
    requires
        k != kp,
        sorted_kv(s),
    ensures
        upd_list(k, v, upd_list(kp, vp, s)) == upd_list(kp, vp, upd_list(k, v, s)),
    decreases s.len(),
{
    if s.len() == 0 {
        if kp < k {
            assert(upd_list(kp, vp, s) == seq![(kp, vp)]);
            assert(upd_list(k, v, seq![(kp, vp)]) == seq![(kp, vp)] + upd_list(k, v, seq![(kp, vp)].skip(1)));
            assert(seq![(kp, vp)].skip(1) =~= Seq::<(i32, i32)>::empty());
            assert(upd_list(k, v, s) == seq![(k, v)]);
            assert(upd_list(kp, vp, seq![(k, v)]) == seq![(kp, vp)] + seq![(k, v)]);
            assert(seq![(kp, vp)] + seq![(k, v)] =~= seq![(kp, vp)] + upd_list(k, v, Seq::<(i32, i32)>::empty()));
        } else {
            assert(upd_list(k, v, s) == seq![(k, v)]);
            assert(upd_list(kp, vp, seq![(k, v)]) == seq![(k, v)] + upd_list(kp, vp, seq![(k, v)].skip(1)));
            assert(seq![(k, v)].skip(1) =~= Seq::<(i32, i32)>::empty());
            assert(upd_list(kp, vp, s) == seq![(kp, vp)]);
            assert(upd_list(k, v, seq![(kp, vp)]) == seq![(k, v)] + seq![(kp, vp)]);
            assert(seq![(k, v)] + seq![(kp, vp)] =~= seq![(k, v)] + upd_list(kp, vp, Seq::<(i32, i32)>::empty()));
        }
    } else {
        let h = s[0];
        assert(forall|i: int| 0 <= i < s.skip(1).len() ==> #[trigger] s.skip(1)[i] == s[i + 1]);
        let a = upd_list(kp, vp, s);
        let b = upd_list(k, v, s);
        if h.0 < k && h.0 < kp {
            lemma_upd_upd_commute(k, v, kp, vp, s.skip(1));
            assert(a == seq![h] + upd_list(kp, vp, s.skip(1)));
            assert(a[0] == h && a.skip(1) =~= upd_list(kp, vp, s.skip(1)));
            assert(b == seq![h] + upd_list(k, v, s.skip(1)));
            assert(b[0] == h && b.skip(1) =~= upd_list(k, v, s.skip(1)));
            assert(upd_list(k, v, a) == seq![h] + upd_list(k, v, upd_list(kp, vp, s.skip(1))));
            assert(upd_list(kp, vp, b) == seq![h] + upd_list(kp, vp, upd_list(k, v, s.skip(1))));
        } else {
            // At most one of the two keys reaches past the head; settle the
            // remaining shapes by unfolding both orders of application.
            lemma_upd_both_orders(k, v, kp, vp, s);
        }
    }
}

/// Helper for the head-bound cases of `lemma_upd_upd_commute`: both orders
/// of two distinct-key updates agree when at least one key stops at the
/// head of a sorted sequence.
proof fn lemma_upd_both_orders(k: i32, v: i32, kp: i32, vp: i32, s: Seq<(i32, i32)>)
    requires
        k != kp,
        sorted_kv(s),
        s.len() > 0,
        !(s[0].0 < k && s[0].0 < kp),
    ensures
        upd_list(k, v, upd_list(kp, vp, s)) == upd_list(kp, vp, upd_list(k, v, s)),
{
    let h = s[0];
    assert(forall|i: int| 0 <= i < s.skip(1).len() ==> #[trigger] s.skip(1)[i] == s[i + 1]);
    // Symmetric cases: handle k-side and kp-side by the same unfoldings.
    if h.0 == k {
        // b = [(k,v)] + tail; kp inserts into it.
        assert(upd_list(k, v, s) == seq![(k, v)] + s.skip(1));
        lemma_upd_head_replaced(k, v, kp, vp, s);
    } else if h.0 == kp {
        assert(upd_list(kp, vp, s) == seq![(kp, vp)] + s.skip(1));
        lemma_upd_head_replaced(kp, vp, k, v, s);
    } else if h.0 > k && h.0 > kp {
        // Both inserted in front, order by key comparison of the two.
        let a = upd_list(kp, vp, s);
        let b = upd_list(k, v, s);
        assert(a == seq![(kp, vp)] + s && b == seq![(k, v)] + s);
        assert(a[0] == (kp, vp) && b[0] == (k, v));
        assert(a.skip(1) =~= s && b.skip(1) =~= s);
        if k < kp {
            assert(upd_list(k, v, a) == seq![(k, v)] + a);
            assert(upd_list(kp, vp, b) == seq![(k, v)] + upd_list(kp, vp, s));
            assert(seq![(k, v)] + a =~= seq![(k, v)] + upd_list(kp, vp, s));
        } else {
            assert(upd_list(kp, vp, b) == seq![(kp, vp)] + b);
            assert(upd_list(k, v, a) == seq![(kp, vp)] + upd_list(k, v, s));
            assert(seq![(kp, vp)] + b =~= seq![(kp, vp)] + upd_list(k, v, s));
        }
    } else if h.0 > k {
        // h.0 < kp impossible here, so h.0 == kp was handled; remaining:
        // k goes in front, kp replaces or passes the head.
        assert(h.0 < kp);
        lemma_upd_front_and_deep(k, v, kp, vp, s);
    } else {
        assert(h.0 > kp && h.0 < k);
        lemma_upd_front_and_deep(kp, vp, k, v, s);
    }
}

/// One key replaces the head, the other is distinct: both orders agree.
proof fn lemma_upd_head_replaced(k: i32, v: i32, kp: i32, vp: i32, s: Seq<(i32, i32)>)
    requires
        k != kp,
        sorted_kv(s),
        s.len() > 0,
        s[0].0 == k,
    ensures
        upd_list(k, v, upd_list(kp, vp, s)) == upd_list(kp, vp, upd_list(k, v, s)),
{
    let h = s[0];
    assert(forall|i: int| 0 <= i < s.skip(1).len() ==> #[trigger] s.skip(1)[i] == s[i + 1]);
    let b = upd_list(k, v, s);
    assert(b == seq![(k, v)] + s.skip(1));
    assert(b[0] == (k, v) && b.skip(1) =~= s.skip(1));
    if kp < k {
        // kp goes in front on both sides.
        let a = upd_list(kp, vp, s);
        assert(a == seq![(kp, vp)] + s);
        assert(a[0] == (kp, vp) && a.skip(1) =~= s);
        assert(upd_list(k, v, a) == seq![(kp, vp)] + upd_list(k, v, s));
        assert(upd_list(kp, vp, b) == seq![(kp, vp)] + b);
        assert(seq![(kp, vp)] + upd_list(k, v, s) =~= seq![(kp, vp)] + b);
    } else {
        // kp > k: kp walks past the head into the tail on both sides.
        assert(keys_all_gt(s.skip(1), k));
        let a = upd_list(kp, vp, s);
        assert(a == seq![h] + upd_list(kp, vp, s.skip(1)));
        assert(a[0] == h && a.skip(1) =~= upd_list(kp, vp, s.skip(1)));
        assert(upd_list(k, v, a) == seq![(k, v)] + upd_list(kp, vp, s.skip(1)));
        assert(upd_list(kp, vp, b) == seq![(k, v)] + upd_list(kp, vp, s.skip(1)));
    }
}

/// One key lands strictly in front of the head, the other strictly past
/// it: both orders agree.
proof fn lemma_upd_front_and_deep(k: i32, v: i32, kp: i32, vp: i32, s: Seq<(i32, i32)>)
    requires
        k != kp,
        sorted_kv(s),
        s.len() > 0,
        k < s[0].0,
        s[0].0 < kp,
    ensures
        upd_list(k, v, upd_list(kp, vp, s)) == upd_list(kp, vp, upd_list(k, v, s)),
{
    let h = s[0];
    assert(forall|i: int| 0 <= i < s.skip(1).len() ==> #[trigger] s.skip(1)[i] == s[i + 1]);
    let a = upd_list(kp, vp, s);
    assert(a == seq![h] + upd_list(kp, vp, s.skip(1)));
    assert(a[0] == h && a.skip(1) =~= upd_list(kp, vp, s.skip(1)));
    let b = upd_list(k, v, s);
    assert(b == seq![(k, v)] + s);
    assert(b[0] == (k, v) && b.skip(1) =~= s);
    assert(upd_list(k, v, a) == seq![(k, v)] + a);
    assert(upd_list(kp, vp, b) == seq![(k, v)] + upd_list(kp, vp, s));
    assert(seq![(k, v)] + a =~= seq![(k, v)] + upd_list(kp, vp, s));
}

/// Deleting one key and updating a different one commute.
pub proof fn lemma_del_upd_commute(k: i32, kp: i32, vp: i32, s: Seq<(i32, i32)>)
    requires
        k != kp,
        sorted_kv(s),
    ensures
        del_list(k, upd_list(kp, vp, s)) == upd_list(kp, vp, del_list(k, s)),
    decreases s.len(),
{
    if s.len() == 0 {
        assert(upd_list(kp, vp, s) == seq![(kp, vp)]);
        assert(del_list(k, s) =~= Seq::<(i32, i32)>::empty());
        assert(del_list(k, seq![(kp, vp)]) == seq![(kp, vp)] + del_list(k, seq![(kp, vp)].skip(1)));
        assert(seq![(kp, vp)].skip(1) =~= Seq::<(i32, i32)>::empty());
        assert(seq![(kp, vp)] + del_list(k, Seq::<(i32, i32)>::empty()) =~= seq![(kp, vp)]);
    } else {
        let h = s[0];
        assert(forall|i: int| 0 <= i < s.skip(1).len() ==> #[trigger] s.skip(1)[i] == s[i + 1]);
        lemma_del_upd_commute(k, kp, vp, s.skip(1));
        lemma_del_sorted(k, s);
        let d = del_list(k, s);
        let u = upd_list(kp, vp, s);
        if h.0 == k {
            // k's entry is unique in a sorted list, so the tail has no k.
            assert(!has_key(s.skip(1), k)) by {
                if has_key(s.skip(1), k) {
                    let w = choose|w: int| 0 <= w < s.skip(1).len() && s.skip(1)[w].0 == k;
                    assert(s[w + 1].0 == k);
                }
            }
            lemma_del_absent(k, s.skip(1));
            assert(d =~= s.skip(1));
            if h.0 < kp {
                assert(u == seq![h] + upd_list(kp, vp, s.skip(1)));
                assert(u[0] == h && u.skip(1) =~= upd_list(kp, vp, s.skip(1)));
                // k is absent from upd_list(kp, vp, s.skip(1)).
                lemma_upd_sorted(kp, vp, s.skip(1));
                assert(!has_key(upd_list(kp, vp, s.skip(1)), k)) by {
                    if has_key(upd_list(kp, vp, s.skip(1)), k) {
                        let w = choose|w: int|
                            0 <= w < upd_list(kp, vp, s.skip(1)).len() && upd_list(
                                kp,
                                vp,
                                s.skip(1),
                            )[w].0 == k;
                        assert(has_key(s.skip(1), k));
                        let w2 = choose|w2: int|
                            0 <= w2 < s.skip(1).len() && s.skip(1)[w2].0 == k;
                        assert(s[w2 + 1].0 == k);
                    }
                }
                lemma_del_absent(k, upd_list(kp, vp, s.skip(1)));
                assert(del_list(k, u) == del_list(k, upd_list(kp, vp, s.skip(1))));
            } else {
                // kp < k == h.0: kp goes in front, head (key k) deleted after.
                assert(u == seq![(kp, vp)] + s);
                assert(u[0] == (kp, vp) && u.skip(1) =~= s);
                assert(del_list(k, u) == seq![(kp, vp)] + del_list(k, s));
                // d = s.skip(1), all keys above k > kp? Not necessarily: but
                // d's head (if any) has key > h.0 == k > kp, so kp prepends.
                if d.len() == 0 {
                    assert(upd_list(kp, vp, d) == seq![(kp, vp)]);
                    assert(seq![(kp, vp)] + d =~= seq![(kp, vp)]);
                } else {
                    assert(d[0].0 > kp);
                    assert(upd_list(kp, vp, d) == seq![(kp, vp)] + d);
                }
            }
        } else {
            assert(d == seq![h] + del_list(k, s.skip(1)));
            assert(d[0] == h && d.skip(1) =~= del_list(k, s.skip(1)));
            if h.0 < kp {
                assert(u == seq![h] + upd_list(kp, vp, s.skip(1)));
                assert(u[0] == h && u.skip(1) =~= upd_list(kp, vp, s.skip(1)));
                assert(del_list(k, u) == seq![h] + del_list(k, upd_list(kp, vp, s.skip(1))));
                assert(upd_list(kp, vp, d) == seq![h] + upd_list(kp, vp, del_list(k, s.skip(1))));
            } else if h.0 == kp {
                assert(u == seq![(kp, vp)] + s.skip(1));
                assert(u[0] == (kp, vp) && u.skip(1) =~= s.skip(1));
                assert(kp != k);
                assert(del_list(k, u) == seq![(kp, vp)] + del_list(k, s.skip(1)));
                assert(upd_list(kp, vp, d) == seq![(kp, vp)] + d.skip(1));
                assert(seq![(kp, vp)] + d.skip(1) =~= seq![(kp, vp)] + del_list(k, s.skip(1)));
            } else {
                assert(u == seq![(kp, vp)] + s);
                assert(u[0] == (kp, vp) && u.skip(1) =~= s);
                assert(del_list(k, u) == seq![(kp, vp)] + del_list(k, s));
                assert(upd_list(kp, vp, d) == seq![(kp, vp)] + d);
            }
        }
    }
}

/// Deleting a key right after updating it undoes the update entirely.
pub proof fn lemma_del_upd_same(k: i32, v: i32, s: Seq<(i32, i32)>)
    ensures
        del_list(k, upd_list(k, v, s)) == del_list(k, s),
    decreases s.len(),
{
    reveal_with_fuel(del_list, 3);
    let u = upd_list(k, v, s);
    if s.len() == 0 {
        assert(u == seq![(k, v)]);
        assert(u[0].0 == k && u.skip(1) =~= Seq::<(i32, i32)>::empty());
    } else if s[0].0 < k {
        lemma_del_upd_same(k, v, s.skip(1));
        assert(u == seq![s[0]] + upd_list(k, v, s.skip(1)));
        assert(u[0] == s[0] && u.skip(1) =~= upd_list(k, v, s.skip(1)));
        assert(del_list(k, u) == seq![s[0]] + del_list(k, upd_list(k, v, s.skip(1))));
        assert(del_list(k, s) == seq![s[0]] + del_list(k, s.skip(1)));
    } else if s[0].0 == k {
        assert(u == seq![(k, v)] + s.skip(1));
        assert(u[0] == (k, v) && u.skip(1) =~= s.skip(1));
    } else {
        assert(u == seq![(k, v)] + s);
        assert(u[0] == (k, v) && u.skip(1) =~= s);
    }
}

/// The tree bound predicates say exactly that every in-order key is bounded.
pub proof fn lemma_bounds_iff(t: Tree, x: i32)
    ensures
        all_keys_lt(t, x) <==> keys_all_lt(inorder(t), x),
        all_keys_gt(t, x) <==> keys_all_gt(inorder(t), x),
    decreases t,
{
    match t {
        Tree::E => {},
        Tree::T(_, a, y, vy, b) => {
            lemma_bounds_iff(*a, x);
            lemma_bounds_iff(*b, x);
            let sa = inorder(*a);
            let sb = inorder(*b);
            let s = inorder(t);
            let n = sa.len() as int;
            assert(s == sa + seq![(y, vy)] + sb);
            assert(forall|i: int| 0 <= i < sa.len() ==> #[trigger] s[i] == sa[i]);
            assert(s[n] == (y, vy));
            assert(forall|i: int|
                0 <= i < sb.len() ==> #[trigger] sb[i] == s[n + 1 + i]);
            if keys_all_lt(s, x) {
                assert forall|i: int| 0 <= i < sa.len() implies #[trigger] sa[i].0 < x by {
                    assert(sa[i] == s[i]);
                }
                assert forall|i: int| 0 <= i < sb.len() implies #[trigger] sb[i].0 < x by {
                    assert(sb[i] == s[n + 1 + i]);
                }
                assert(s[n].0 < x);
            }
            if keys_all_gt(s, x) {
                assert forall|i: int| 0 <= i < sa.len() implies #[trigger] sa[i].0 > x by {
                    assert(sa[i] == s[i]);
                }
                assert forall|i: int| 0 <= i < sb.len() implies #[trigger] sb[i].0 > x by {
                    assert(sb[i] == s[n + 1 + i]);
                }
                assert(s[n].0 > x);
            }
            if all_keys_lt(t, x) {
                assert forall|i: int| 0 <= i < s.len() implies #[trigger] s[i].0 < x by {
                    if i < n {
                        assert(s[i] == sa[i]);
                    } else if i > n {
                        assert(s[i] == sb[i - n - 1]);
                    }
                }
            }
            if all_keys_gt(t, x) {
                assert forall|i: int| 0 <= i < s.len() implies #[trigger] s[i].0 > x by {
                    if i < n {
                        assert(s[i] == sa[i]);
                    } else if i > n {
                        assert(s[i] == sb[i - n - 1]);
                    }
                }
            }
        },
    }
}

/// A tree satisfies the search-tree order exactly when its in-order
/// sequence is strictly sorted by key.
pub proof fn lemma_bst_iff_sorted(t: Tree)
    ensures
        is_bst_s(t) <==> sorted_kv(inorder(t)),
    decreases t,
{
    match t {
        Tree::E => {},
        Tree::T(_, a, y, vy, b) => {
            lemma_bst_iff_sorted(*a);
            lemma_bst_iff_sorted(*b);
            lemma_bounds_iff(*a, y);
            lemma_bounds_iff(*b, y);
            let sa = inorder(*a);
            let sb = inorder(*b);
            let s = inorder(t);
            let n = sa.len() as int;
            assert(s == sa + seq![(y, vy)] + sb);
            assert(forall|i: int| 0 <= i < sa.len() ==> #[trigger] s[i] == sa[i]);
            assert(s[n] == (y, vy));
            assert(forall|i: int| 0 <= i < sb.len() ==> #[trigger] sb[i] == s[n + 1 + i]);
            if is_bst_s(t) {
                assert forall|i: int, j: int| 0 <= i < j < s.len() implies s[i].0 < s[j].0 by {
                    if j < n {
                    } else if i < n && j == n {
                        assert(s[i] == sa[i]);
                    } else if i < n && j > n {
                        assert(s[i].0 < y && s[j] == sb[j - n - 1] && s[j].0 > y);
                    } else if i == n && j > n {
                        assert(s[j] == sb[j - n - 1]);
                    } else {
                        assert(s[i] == sb[i - n - 1] && s[j] == sb[j - n - 1]);
                    }
                }
            }
            if sorted_kv(s) {
                assert forall|i: int| 0 <= i < sa.len() implies #[trigger] sa[i].0 < y by {
                    assert(sa[i] == s[i] && s[i].0 < s[n].0);
                }
                assert forall|i: int| 0 <= i < sb.len() implies #[trigger] sb[i].0 > y by {
                    assert(sb[i] == s[n + 1 + i] && s[n].0 < s[n + 1 + i].0);
                }
                assert forall|i: int, j: int| 0 <= i < j < sa.len() implies sa[i].0 < sa[j].0 by {
                    assert(sa[i] == s[i] && sa[j] == s[j]);
                }
                assert forall|i: int, j: int| 0 <= i < j < sb.len() implies sb[i].0 < sb[j].0 by {
                    assert(sb[i] == s[n + 1 + i] && sb[j] == s[n + 1 + j]);
                }
            }
        },
    }
}

/// `balance` only rearranges: the in-order sequence of its result is the
/// left sequence, the pivot entry, then the right sequence.
#[verifier::rlimit(60)]
pub proof fn lemma_balance_inorder(col: Color, tl: Tree, key: i32, val: i32, tr: Tree)
    ensures
        inorder(spec_balance(col, tl, key, val, tr)) == inorder(tl) + seq![(key, val)] + inorder(
            tr,
        ),
{
    reveal_with_fuel(inorder, 4);
    let goal = inorder(tl) + seq![(key, val)] + inorder(tr);
    if col == Color::B && red_red_left(tl) {
        match tl {
            Tree::T(_, l1, y, vy, c) => match *l1 {
                Tree::T(_, a, x, vx, b) => {
                    assert(inorder(spec_balance(col, tl, key, val, tr)) =~= goal);
                },
                _ => {},
            },
            _ => {},
        }
    } else if col == Color::B && red_red_right(tl) {
        match tl {
            Tree::T(_, a, x, vx, r1) => match *r1 {
                Tree::T(_, b, y, vy, c) => {
                    assert(inorder(spec_balance(col, tl, key, val, tr)) =~= goal);
                },
                _ => {},
            },
            _ => {},
        }
    } else if col == Color::B && red_red_left(tr) {
        match tr {
            Tree::T(_, l2, z, vz, d) => match *l2 {
                Tree::T(_, b, y, vy, c) => {
                    assert(inorder(spec_balance(col, tl, key, val, tr)) =~= goal);
                },
                _ => {},
            },
            _ => {},
        }
    } else if col == Color::B && red_red_right(tr) {
        match tr {
            Tree::T(_, b, y, vy, r2) => match *r2 {
                Tree::T(_, c, z, vz, d) => {
                    assert(inorder(spec_balance(col, tl, key, val, tr)) =~= goal);
                },
                _ => {},
            },
            _ => {},
        }
    } else {
        assert(inorder(spec_balance(col, tl, key, val, tr)) =~= goal);
    }
}

/// Re-coloring the root keeps the in-order sequence.
pub proof fn lemma_blacken_inorder(t: Tree)
    ensures
        inorder(spec_blacken(t)) == inorder(t),
{
    match t {
        Tree::E => {},
        Tree::T(_, a, x, vx, b) => {
            assert(inorder(spec_blacken(t)) =~= inorder(t));
        },
    }
}

/// The insertion descent performs exactly the sorted update on the
/// in-order sequence.
pub proof fn lemma_ins_inorder(x: i32, vx: i32, t: Tree)
    requires
        is_bst_s(t),
    ensures
        inorder(spec_ins(x, vx, t)) == upd_list(x, vx, inorder(t)),
    decreases t,
{
    match t {
        Tree::E => {
            assert(inorder(spec_ins(x, vx, t)) =~= seq![(x, vx)]);
        },
        Tree::T(rb, a, y, vy, b) => {
            let sa = inorder(*a);
            let sb = inorder(*b);
            let s = inorder(t);
            assert(s == sa + seq![(y, vy)] + sb);
            lemma_bounds_iff(*a, y);
            lemma_bounds_iff(*b, y);
            if x < y {
                lemma_ins_inorder(x, vx, *a);
                lemma_balance_inorder(rb, spec_ins(x, vx, *a), y, vy, *b);
                assert(keys_all_gt(seq![(y, vy)] + sb, x)) by {
                    assert((seq![(y, vy)] + sb)[0].0 == y);
                    assert(forall|i: int|
                        1 <= i < (seq![(y, vy)] + sb).len() ==> (seq![(y, vy)] + sb)[i]
                            == sb[i - 1]);
                }
                lemma_upd_concat_right(x, vx, sa, seq![(y, vy)] + sb);
                assert(sa + (seq![(y, vy)] + sb) =~= s);
                assert(inorder(spec_ins(x, vx, t)) =~= upd_list(x, vx, sa) + (seq![(y, vy)]
                    + sb));
            } else if y < x {
                lemma_ins_inorder(x, vx, *b);
                lemma_balance_inorder(rb, *a, y, vy, spec_ins(x, vx, *b));
                assert(keys_all_lt(sa + seq![(y, vy)], x)) by {
                    assert(forall|i: int| 0 <= i < sa.len() ==> (sa + seq![(y, vy)])[i] == sa[i]);
                    assert((sa + seq![(y, vy)])[sa.len() as int].0 == y);
                }
                lemma_upd_concat_left(x, vx, sa + seq![(y, vy)], sb);
                assert((sa + seq![(y, vy)]) + sb =~= s);
                assert(inorder(spec_ins(x, vx, t)) =~= (sa + seq![(y, vy)]) + upd_list(
                    x,
                    vx,
                    sb,
                ));
            } else {
                assert(keys_all_lt(sa, x));
                lemma_upd_concat_left(x, vx, sa, seq![(y, vy)] + sb);
                assert(sa + (seq![(y, vy)] + sb) =~= s);
                assert((seq![(y, vy)] + sb)[0].0 == x);
                assert(upd_list(x, vx, seq![(y, vy)] + sb) == seq![(x, vx)] + (seq![(y, vy)]
                    + sb).skip(1));
                assert((seq![(y, vy)] + sb).skip(1) =~= sb);
                assert(inorder(spec_ins(x, vx, t)) =~= sa + (seq![(x, vx)] + sb));
                assert(sa + (seq![(x, vx)] + sb) =~= sa + upd_list(x, vx, seq![(y, vy)] + sb));
            }
        },
    }
}

/// `insert` performs exactly the sorted update on the in-order sequence,
/// and keeps the order invariant.
pub proof fn lemma_insert_inorder(key: i32, val: i32, t: Tree)
    requires
        is_bst_s(t),
    ensures
        inorder(spec_insert(key, val, t)) == upd_list(key, val, inorder(t)),
        is_bst_s(spec_insert(key, val, t)),
{
    lemma_ins_inorder(key, val, t);
    lemma_blacken_inorder(spec_ins(key, val, t));
    lemma_bst_iff_sorted(t);
    lemma_upd_sorted(key, val, inorder(t));
    lemma_bst_iff_sorted(spec_insert(key, val, t));
}

/// On an ordered tree, `find` is the association-list lookup on the
/// in-order sequence.
pub proof fn lemma_find_assoc(x: i32, t: Tree)
    requires
        is_bst_s(t),
    ensures
        spec_find(x, t) == assoc(x, inorder(t)),
    decreases t,
{
    match t {
        Tree::E => {},
        Tree::T(_, a, y, vy, b) => {
            let sa = inorder(*a);
            let sb = inorder(*b);
            let s = inorder(t);
            assert(s == sa + seq![(y, vy)] + sb);
            lemma_bounds_iff(*a, y);
            lemma_bounds_iff(*b, y);
            lemma_assoc_concat(x, sa, seq![(y, vy)] + sb);
            assert(sa + (seq![(y, vy)] + sb) =~= s);
            assert((seq![(y, vy)] + sb)[0] == (y, vy));
            assert((seq![(y, vy)] + sb).skip(1) =~= sb);
            if x < y {
                lemma_find_assoc(x, *a);
                if !has_key(sa, x) {
                    // x is below y, so it is in neither the pivot nor the right.
                    assert(assoc(x, seq![(y, vy)] + sb) == assoc(x, sb));
                    lemma_assoc_absent(x, sb);
                    lemma_assoc_absent(x, sa);
                }
            } else if y < x {
                lemma_find_assoc(x, *b);
                assert(!has_key(sa, x));
                lemma_assoc_absent(x, sa);
                assert(assoc(x, s) == assoc(x, seq![(y, vy)] + sb));
                assert(assoc(x, seq![(y, vy)] + sb) == assoc(x, sb));
            } else {
                assert(!has_key(sa, x));
                lemma_assoc_absent(x, sa);
                assert(assoc(x, s) == assoc(x, seq![(y, vy)] + sb));
            }
        },
    }
}

/// Lookup in a concatenation: the left part wins when it has the key.
pub proof fn lemma_assoc_concat(k: i32, s1: Seq<(i32, i32)>, s2: Seq<(i32, i32)>)
    ensures
        has_key(s1, k) ==> assoc(k, s1 + s2) == assoc(k, s1),
        !has_key(s1, k) ==> assoc(k, s1 + s2) == assoc(k, s2),
    decreases s1.len(),
{
    if s1.len() == 0 {
        assert(s1 + s2 =~= s2);
    } else {
        assert((s1 + s2)[0] == s1[0]);
        assert((s1 + s2).skip(1) =~= s1.skip(1) + s2);
        assert(forall|i: int| 0 <= i < s1.skip(1).len() ==> #[trigger] s1.skip(1)[i] == s1[i + 1]);
        lemma_assoc_concat(k, s1.skip(1), s2);
        if s1[0].0 == k {
        } else {
            assert(has_key(s1, k) <==> has_key(s1.skip(1), k)) by {
                if has_key(s1, k) {
                    let w = choose|w: int| 0 <= w < s1.len() && s1[w].0 == k;
                    assert(w != 0);
                    assert(s1.skip(1)[w - 1].0 == k);
                }
            }
        }
    }
}

/// Lookup misses when the key is absent.
pub proof fn lemma_assoc_absent(k: i32, s: Seq<(i32, i32)>)
    requires
        !has_key(s, k),
    ensures
        assoc(k, s) == None::<i32>,
    decreases s.len(),
{
    if s.len() > 0 {
        assert(s[0].0 != k);
        assert(forall|i: int| 0 <= i < s.skip(1).len() ==> #[trigger] s.skip(1)[i] == s[i + 1]);
        lemma_assoc_absent(k, s.skip(1));
    }
}


/// Unfolds the in-order sequence of a single built node.
pub proof fn lemma_inorder_node(c: Color, l: Tree, k: i32, v: i32, r: Tree)
    ensures
        inorder(node_s(c, l, k, v, r)) == inorder(l) + seq![(k, v)] + inorder(r),
{
}

/// `bal_left` only rearranges entries.
#[verifier::rlimit(60)]
pub proof fn lemma_bal_left_inorder(l: Tree, k: i32, v: i32, r: Tree)
    ensures
        spec_bal_left(l, k, v, r) matches Some(u) ==> inorder(u) == inorder(l) + seq![(k, v)]
            + inorder(r),
{
    if is_red(l) {
        match l {
            Tree::T(_, a, x, vx, b) => {
                let bn = node_s(Color::B, *a, x, vx, *b);
                lemma_inorder_node(Color::B, *a, x, vx, *b);
                assert(inorder(bn) == inorder(l));
                lemma_inorder_node(Color::R, bn, k, v, r);
                assert(node_s(Color::R, Tree::T(Color::B, a, x, vx, b), k, v, r) == node_s(
                    Color::R,
                    bn,
                    k,
                    v,
                    r,
                ));
            },
            _ => {},
        }
    } else if is_black_node(r) {
        match r {
            Tree::T(_, ra, ry, rvy, rb) => {
                let rp = Tree::T(Color::R, ra, ry, rvy, rb);
                lemma_balance_inorder(Color::B, l, k, v, rp);
                assert(inorder(rp) == inorder(r));
            },
            _ => {},
        }
    } else if red_black_left(r) {
        match r {
            Tree::T(_, l2, z, vz, c) => match *l2 {
                Tree::T(_, a, y, vy, b) => match spec_redden(*c) {
                    Some(cp) => {
                        lemma_balance_inorder(Color::B, *b, z, vz, cp);
                        assert(inorder(cp) == inorder(*c));
                        let low = Tree::T(Color::B, Box::new(l), k, v, a);
                        lemma_inorder_node(Color::B, l, k, v, *a);
                        assert(low == node_s(Color::B, l, k, v, *a));
                        let high = spec_balance(Color::B, *b, z, vz, cp);
                        lemma_inorder_node(Color::R, low, y, vy, high);
                        match spec_bal_left(l, k, v, r) {
                            Some(u) => {
                                assert(u == node_s(Color::R, low, y, vy, high));
                                assert(inorder(u) == (inorder(l) + seq![(k, v)] + inorder(*a))
                                    + seq![(y, vy)] + (inorder(*b) + seq![(z, vz)] + inorder(
                                    *c,
                                )));
                                assert(inorder(*l2) == inorder(*a) + seq![(y, vy)] + inorder(
                                    *b,
                                ));
                                assert(inorder(r) == inorder(*l2) + seq![(z, vz)] + inorder(*c));
                                assert(inorder(u) =~= inorder(l) + seq![(k, v)] + inorder(r));
                            },
                            None => {},
                        }
                    },
                    None => {},
                },
                _ => {},
            },
            _ => {},
        }
    } else {
    }
}

/// `bal_right` only rearranges entries.
#[verifier::rlimit(100)]
pub proof fn lemma_bal_right_inorder(l: Tree, k: i32, v: i32, r: Tree)
    ensures
        spec_bal_right(l, k, v, r) matches Some(u) ==> inorder(u) == inorder(l) + seq![(k, v)]
            + inorder(r),
{
    reveal_with_fuel(inorder, 5);
    if is_red(r) {
        match r {
            Tree::T(_, b, y, vy, c) => {
                match spec_bal_right(l, k, v, r) {
                    Some(u) => {
                        assert(inorder(u) =~= inorder(l) + seq![(k, v)] + inorder(r));
                    },
                    None => {},
                }
            },
            _ => {},
        }
    } else if is_black_node(l) {
        match l {
            Tree::T(_, la, ly, lvy, lb) => {
                let lp = Tree::T(Color::R, la, ly, lvy, lb);
                lemma_balance_inorder(Color::B, lp, k, v, r);
                assert(inorder(lp) =~= inorder(l));
            },
            _ => {},
        }
    } else if red_black_right(l) {
        match l {
            Tree::T(_, a, x, vx, r1) => match *r1 {
                Tree::T(_, b, y, vy, c) => match spec_redden(*a) {
                    Some(ap) => {
                        lemma_balance_inorder(Color::B, ap, x, vx, *b);
                        assert(inorder(ap) =~= inorder(*a));
                        match spec_bal_right(l, k, v, r) {
                            Some(u) => {
                                assert(inorder(u) =~= inorder(l) + seq![(k, v)] + inorder(r));
                            },
                            None => {},
                        }
                    },
                    None => {},
                },
                _ => {},
            },
            _ => {},
        }
    } else {
    }
}

/// A successful join carries exactly the two in-order sequences in order.
#[verifier::rlimit(60)]
pub proof fn lemma_join_inorder(t1: Tree, t2: Tree, f: nat)
    ensures
        spec_join(t1, t2, f) matches Some(u) ==> inorder(u) == inorder(t1) + inorder(t2),
    decreases f,
{
    if f == 0 {
    } else {
        let fp = (f - 1) as nat;
        match t1 {
            Tree::E => {
                assert(inorder(t1) + inorder(t2) =~= inorder(t2));
            },
            Tree::T(c1, a1, x1, v1, b1) => match t2 {
                Tree::E => {
                    assert(inorder(t1) + inorder(t2) =~= inorder(t1));
                },
                Tree::T(c2, a2, x2, v2, b2) => {
                    let sa1 = inorder(*a1);
                    let sb1 = inorder(*b1);
                    let sa2 = inorder(*a2);
                    let sb2 = inorder(*b2);
                    assert(inorder(t1) == sa1 + seq![(x1, v1)] + sb1);
                    assert(inorder(t2) == sa2 + seq![(x2, v2)] + sb2);
                    match (c1, c2) {
                        (Color::R, Color::R) => {
                            lemma_join_inorder(*b1, *a2, fp);
                            match spec_join(*b1, *a2, fp) {
                                Some(m) => {
                                    if is_red(m) {
                                        match m {
                                            Tree::T(_, bp, z, vz, cp) => {
                                                let sbp = inorder(*bp);
                                                let scp = inorder(*cp);
                                                let lo = node_s(Color::R, *a1, x1, v1, *bp);
                                                let hi = node_s(Color::R, *cp, x2, v2, *b2);
                                                lemma_inorder_node(Color::R, *a1, x1, v1, *bp);
                                                lemma_inorder_node(Color::R, *cp, x2, v2, *b2);
                                                lemma_inorder_node(Color::R, lo, z, vz, hi);
                                                let res = node_s(Color::R, lo, z, vz, hi);
                                                assert(inorder(m) == sbp + seq![(z, vz)] + scp);
                                                assert(sbp + seq![(z, vz)] + scp == sb1 + sa2);
                                                assert(inorder(res) == (sa1 + seq![(x1, v1)]
                                                    + sbp) + seq![(z, vz)] + (scp + seq![
                                                    (x2, v2),
                                                ] + sb2));
                                                assert(inorder(res) =~= sa1 + seq![(x1, v1)] + (
                                                (sbp + seq![(z, vz)] + scp) + (seq![(x2, v2)]
                                                    + sb2)));
                                                assert(inorder(t1) + inorder(t2) =~= sa1 + seq![
                                                    (x1, v1),
                                                ] + ((sb1 + sa2) + (seq![(x2, v2)] + sb2)));
                                                assert(spec_join(t1, t2, f) == Some(res));
                                            },
                                            _ => {},
                                        }
                                    } else {
                                        let hi = node_s(Color::R, m, x2, v2, *b2);
                                        lemma_inorder_node(Color::R, m, x2, v2, *b2);
                                        lemma_inorder_node(Color::R, *a1, x1, v1, hi);
                                        assert(inorder(node_s(Color::R, *a1, x1, v1, hi)) =~=
                                            inorder(t1) + inorder(t2));
                                    }
                                },
                                None => {},
                            }
                        },
                        (Color::B, Color::B) => {
                            lemma_join_inorder(*b1, *a2, fp);
                            match spec_join(*b1, *a2, fp) {
                                Some(m) => {
                                    if is_red(m) {
                                        match m {
                                            Tree::T(_, bp, z, vz, cp) => {
                                                let sbp = inorder(*bp);
                                                let scp = inorder(*cp);
                                                let lo = node_s(Color::B, *a1, x1, v1, *bp);
                                                let hi = node_s(Color::B, *cp, x2, v2, *b2);
                                                lemma_inorder_node(Color::B, *a1, x1, v1, *bp);
                                                lemma_inorder_node(Color::B, *cp, x2, v2, *b2);
                                                lemma_inorder_node(Color::R, lo, z, vz, hi);
                                                let res = node_s(Color::R, lo, z, vz, hi);
                                                assert(inorder(m) == sbp + seq![(z, vz)] + scp);
                                                assert(sbp + seq![(z, vz)] + scp == sb1 + sa2);
                                                assert(inorder(res) == (sa1 + seq![(x1, v1)]
                                                    + sbp) + seq![(z, vz)] + (scp + seq![
                                                    (x2, v2),
                                                ] + sb2));
                                                assert(inorder(res) =~= sa1 + seq![(x1, v1)] + (
                                                (sbp + seq![(z, vz)] + scp) + (seq![(x2, v2)]
                                                    + sb2)));
                                                assert(inorder(t1) + inorder(t2) =~= sa1 + seq![
                                                    (x1, v1),
                                                ] + ((sb1 + sa2) + (seq![(x2, v2)] + sb2)));
                                                assert(spec_join(t1, t2, f) == Some(res));
                                            },
                                            _ => {},
                                        }
                                    } else {
                                        let hi = node_s(Color::B, m, x2, v2, *b2);
                                        lemma_inorder_node(Color::B, m, x2, v2, *b2);
                                        lemma_bal_left_inorder(*a1, x1, v1, hi);
                                        match spec_bal_left(*a1, x1, v1, hi) {
                                            Some(u) => {
                                                assert(inorder(u) =~= inorder(t1) + inorder(
                                                    t2,
                                                ));
                                            },
                                            None => {},
                                        }
                                    }
                                },
                                None => {},
                            }
                        },
                        (Color::B, Color::R) => {
                            lemma_join_inorder(t1, *a2, fp);
                            match spec_join(t1, *a2, fp) {
                                Some(tp) => {
                                    lemma_inorder_node(Color::R, tp, x2, v2, *b2);
                                    assert(inorder(node_s(Color::R, tp, x2, v2, *b2)) =~=
                                        inorder(t1) + inorder(t2));
                                },
                                None => {},
                            }
                        },
                        (Color::R, Color::B) => {
                            lemma_join_inorder(*b1, t2, fp);
                            match spec_join(*b1, t2, fp) {
                                Some(tp) => {
                                    lemma_inorder_node(Color::R, *a1, x1, v1, tp);
                                    assert(inorder(node_s(Color::R, *a1, x1, v1, tp)) =~=
                                        inorder(t1) + inorder(t2));
                                },
                                None => {},
                            }
                        },
                    }
                },
            },
        }
    }
}

/// A successful deletion descent removes exactly the entries at the key.
pub proof fn lemma_del_inorder(x: i32, s: Tree, f: nat)
    requires
        is_bst_s(s),
    ensures
        spec_del(x, s, f) matches Some(u) ==> inorder(u) == del_list(x, inorder(s)),
    decreases f,
{
    reveal_with_fuel(del_list, 3);
    if f == 0 {
    } else {
        let fp = (f - 1) as nat;
        match s {
            Tree::E => {},
            Tree::T(_, a, y, vy, b) => {
                let sa = inorder(*a);
                let sb = inorder(*b);
                lemma_bounds_iff(*a, y);
                lemma_bounds_iff(*b, y);
                lemma_del_concat(x, sa, seq![(y, vy)] + sb);
                lemma_del_concat(x, seq![(y, vy)], sb);
                assert(inorder(s) =~= sa + (seq![(y, vy)] + sb));
                assert((seq![(y, vy)]).skip(1) =~= Seq::<(i32, i32)>::empty());
                if x < y {
                    lemma_del_left_inorder(x, *a, y, vy, *b, fp);
                    assert(!has_key(sb, x));
                    lemma_del_absent(x, sb);
                    assert(del_list(x, seq![(y, vy)]) =~= seq![(y, vy)]);
                    match spec_del_left(x, *a, y, vy, *b, fp) {
                        Some(u) => {
                            assert(inorder(u) =~= del_list(x, inorder(s)));
                        },
                        None => {},
                    }
                } else if y < x {
                    lemma_del_right_inorder(x, *a, y, vy, *b, fp);
                    assert(!has_key(sa, x));
                    lemma_del_absent(x, sa);
                    assert(del_list(x, seq![(y, vy)]) =~= seq![(y, vy)]);
                    match spec_del_right(x, *a, y, vy, *b, fp) {
                        Some(u) => {
                            assert(inorder(u) =~= del_list(x, inorder(s)));
                        },
                        None => {},
                    }
                } else {
                    lemma_join_inorder(*a, *b, FUEL as nat);
                    assert(!has_key(sa, x));
                    assert(!has_key(sb, x));
                    lemma_del_absent(x, sa);
                    lemma_del_absent(x, sb);
                    assert(del_list(x, seq![(y, vy)]) =~= Seq::<(i32, i32)>::empty());
                    match spec_join(*a, *b, FUEL as nat) {
                        Some(u) => {
                            assert(inorder(u) =~= del_list(x, inorder(s)));
                        },
                        None => {},
                    }
                }
            },
        }
    }
}

/// Deleting within the left child keeps the pivot and the right side.
pub proof fn lemma_del_left_inorder(x: i32, a: Tree, y: i32, vy: i32, b: Tree, f: nat)
    requires
        is_bst_s(a),
    ensures
        spec_del_left(x, a, y, vy, b, f) matches Some(u) ==> inorder(u) == del_list(
            x,
            inorder(a),
        ) + seq![(y, vy)] + inorder(b),
    decreases f,
{
    if f == 0 {
    } else {
        let fp = (f - 1) as nat;
        lemma_del_inorder(x, a, fp);
        match spec_del(x, a, fp) {
            None => {},
            Some(tp) => {
                if is_black_node(a) {
                    lemma_bal_left_inorder(tp, y, vy, b);
                } else {
                    assert(inorder(node_s(Color::R, tp, y, vy, b)) =~= inorder(tp) + seq![(y, vy)]
                        + inorder(b));
                }
            },
        }
    }
}

/// Deleting within the right child keeps the pivot and the left side.
pub proof fn lemma_del_right_inorder(x: i32, a: Tree, y: i32, vy: i32, b: Tree, f: nat)
    requires
        is_bst_s(b),
    ensures
        spec_del_right(x, a, y, vy, b, f) matches Some(u) ==> inorder(u) == inorder(a) + seq![
            (y, vy),
        ] + del_list(x, inorder(b)),
    decreases f,
{
    if f == 0 {
    } else {
        let fp = (f - 1) as nat;
        lemma_del_inorder(x, b, fp);
        match spec_del(x, b, fp) {
            None => {},
            Some(tp) => {
                if is_black_node(b) {
                    lemma_bal_right_inorder(a, y, vy, tp);
                } else {
                    assert(inorder(node_s(Color::R, a, y, vy, tp)) =~= inorder(a) + seq![(y, vy)]
                        + inorder(tp));
                }
            },
        }
    }
}

/// A successful `delete` removes exactly the entries at the key and keeps
/// the search-tree order.
pub proof fn lemma_delete_model(x: i32, t: Tree)
    requires
        is_bst_s(t),
    ensures
        spec_delete(x, t) matches Some(u) ==> inorder(u) == del_list(x, inorder(t)) && is_bst_s(
            u,
        ),
{
    lemma_del_inorder(x, t, FUEL as nat);
    match spec_del(x, t, FUEL as nat) {
        None => {},
        Some(tp) => {
            lemma_blacken_inorder(tp);
            lemma_bst_iff_sorted(t);
            lemma_del_sorted(x, inorder(t));
            lemma_bst_iff_sorted(spec_blacken(tp));
        },
    }
}

} // verus!
