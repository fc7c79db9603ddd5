use redblack::rbt_codec::{decode, encode};
use redblack::rbt_delete::{delete, join};
use redblack::rbt_oracle::{consistent_black_height, is_bst, is_rbt, no_red_red};
use redblack::rbt_props::{
    delete_key, l_insert, prop_delete_delete, prop_delete_insert, prop_delete_model,
    prop_delete_post, prop_delete_valid, prop_insert_delete, prop_insert_insert,
    prop_insert_model, prop_insert_post, prop_insert_valid, to_list,
};
use redblack::rbt_tree::{balance, blacken, elems, find, insert, redden, size, Color, Tree};

fn leaf(c: Color, k: i32, v: i32) -> Tree {
    Tree::T(c, Box::new(Tree::E), k, v, Box::new(Tree::E))
}

fn node(c: Color, l: Tree, k: i32, v: i32, r: Tree) -> Tree {
    Tree::T(c, Box::new(l), k, v, Box::new(r))
}

/// Builds a valid tree by repeated insertion.
fn build(entries: &[(i32, i32)]) -> Tree {
    let mut t = Tree::E;
    for &(k, v) in entries {
        t = insert(k, v, t);
    }
    t
}

#[test]
fn insert_then_delete_scenario() {
    let t = Tree::E;
    let t1 = insert(5, 50, t);
    assert_eq!(t1, leaf(Color::B, 5, 50));
    let t2 = insert(3, 30, t1);
    assert_eq!(t2, node(Color::B, leaf(Color::R, 3, 30), 5, 50, Tree::E));
    let t3 = delete(5, t2).expect("budget is ample");
    assert_eq!(t3, leaf(Color::B, 3, 30));
}

#[test]
fn find_reads_back_inserted_values() {
    let t = build(&[(4, 40), (2, 20), (6, 60), (1, 10)]);
    assert_eq!(find(2, t.clone()), Some(20));
    assert_eq!(find(6, t.clone()), Some(60));
    assert_eq!(find(5, t.clone()), None);
    // Re-inserting an existing key keeps the later value.
    let t2 = insert(2, 99, t);
    assert_eq!(find(2, t2), Some(99));
}

#[test]
fn size_and_elems_follow_the_entries() {
    let t = build(&[(4, 40), (2, 20), (6, 60), (2, 21)]);
    assert_eq!(size(t.clone()), 3);
    assert_eq!(elems(&t), vec![(2, 21), (4, 40), (6, 60)]);
    assert_eq!(to_list(&t), vec![(2, 21), (4, 40), (6, 60)]);
    assert_eq!(size(Tree::E), 0);
}

#[test]
fn oracle_accepts_valid_trees() {
    let t = build(&[(1, 1), (2, 2), (3, 3), (4, 4), (5, 5), (6, 6), (7, 7)]);
    assert!(is_bst(&t));
    assert!(no_red_red(&t));
    assert!(consistent_black_height(&t));
    assert_eq!(is_rbt(&t), Some(true));
    assert_eq!(is_rbt(&Tree::E), Some(true));
}

#[test]
fn oracle_rejects_each_broken_invariant() {
    // Order broken: left child key above the root key.
    let bad_order = node(Color::B, leaf(Color::B, 9, 9), 5, 5, leaf(Color::B, 7, 7));
    assert!(!is_bst(&bad_order));
    assert_eq!(is_rbt(&bad_order), Some(false));

    // A red node with a red child.
    let red_red = node(Color::R, leaf(Color::R, 1, 1), 2, 2, Tree::E);
    assert!(!no_red_red(&red_red));
    assert_eq!(is_rbt(&red_red), Some(false));

    // Unequal black heights below the root.
    let lopsided = node(Color::B, leaf(Color::B, 1, 1), 2, 2, Tree::E);
    assert!(!consistent_black_height(&lopsided));
    assert_eq!(is_rbt(&lopsided), Some(false));
}

#[test]
fn balance_rewrites_each_double_red_shape() {
    let expected = node(
        Color::R,
        leaf(Color::B, 1, 1),
        2,
        2,
        leaf(Color::B, 3, 3),
    );
    // Left-left.
    let t1 = balance(
        Color::B,
        node(Color::R, leaf(Color::R, 1, 1), 2, 2, Tree::E),
        3,
        3,
        Tree::E,
    );
    assert_eq!(t1, expected);
    // Left-right.
    let t2 = balance(
        Color::B,
        node(Color::R, Tree::E, 1, 1, leaf(Color::R, 2, 2)),
        3,
        3,
        Tree::E,
    );
    assert_eq!(t2, expected);
    // Right-left.
    let t3 = balance(
        Color::B,
        Tree::E,
        1,
        1,
        node(Color::R, leaf(Color::R, 2, 2), 3, 3, Tree::E),
    );
    assert_eq!(t3, expected);
    // Right-right.
    let t4 = balance(
        Color::B,
        Tree::E,
        1,
        1,
        node(Color::R, Tree::E, 2, 2, leaf(Color::R, 3, 3)),
    );
    assert_eq!(t4, expected);
    // No double red: the node is reassembled unchanged.
    let t5 = balance(Color::B, leaf(Color::R, 1, 1), 2, 2, Tree::E);
    assert_eq!(t5, node(Color::B, leaf(Color::R, 1, 1), 2, 2, Tree::E));
}

#[test]
fn blacken_and_redden_flip_root_colors() {
    assert_eq!(blacken(leaf(Color::R, 1, 1)), leaf(Color::B, 1, 1));
    assert_eq!(blacken(Tree::E), Tree::E);
    assert_eq!(redden(leaf(Color::B, 1, 1)), Some(leaf(Color::R, 1, 1)));
    assert_eq!(redden(leaf(Color::R, 1, 1)), None);
    assert_eq!(redden(Tree::E), None);
}

#[test]
fn join_concatenates_order_disjoint_trees() {
    let lo = build(&[(1, 10), (2, 20)]);
    let hi = build(&[(5, 50), (6, 60)]);
    let joined = join(lo, hi).expect("budget is ample");
    assert_eq!(to_list(&joined), vec![(1, 10), (2, 20), (5, 50), (6, 60)]);
}

#[test]
fn validity_is_preserved_by_insert_and_delete() {
    let t = build(&[(10, 1), (20, 2), (5, 3), (15, 4), (25, 5), (1, 6)]);
    assert_eq!(prop_insert_valid(t.clone(), 17, 70), Some(true));
    assert_eq!(prop_insert_valid(t.clone(), 10, 99), Some(true));
    assert_eq!(prop_delete_valid(t.clone(), 20), Some(true));
    assert_eq!(prop_delete_valid(t.clone(), 13), Some(true));
    // An invalid start is discarded, not judged.
    let broken = node(Color::R, leaf(Color::R, 1, 1), 2, 2, Tree::E);
    assert_eq!(prop_insert_valid(broken.clone(), 3, 3), None);
    assert_eq!(prop_delete_valid(broken, 1), None);
}

#[test]
fn lookup_after_insert_and_delete() {
    let t = build(&[(10, 1), (20, 2), (5, 3)]);
    assert_eq!(prop_insert_post(t.clone(), 7, 7, 70), Some(true));
    assert_eq!(prop_insert_post(t.clone(), 7, 20, 70), Some(true));
    assert_eq!(prop_delete_post(t.clone(), 10, 10), Some(true));
    assert_eq!(prop_delete_post(t, 10, 5), Some(true));
}

#[test]
fn model_equivalence_of_insert_and_delete() {
    let t = build(&[(10, 1), (20, 2), (5, 3), (15, 4)]);
    assert_eq!(prop_insert_model(t.clone(), 12, 8), Some(true));
    assert_eq!(prop_insert_model(t.clone(), 20, 8), Some(true));
    assert_eq!(prop_delete_model(t.clone(), 10), Some(true));
    assert_eq!(prop_delete_model(t, 11), Some(true));
}

#[test]
fn repeated_insertion_keeps_the_later_value() {
    let t = build(&[(10, 1), (20, 2), (5, 3)]);
    // Same key twice: the in-order entries match a single insert.
    assert_eq!(prop_insert_insert(t.clone(), 7, 7, 70, 71), Some(true));
    // Distinct keys commute.
    assert_eq!(prop_insert_insert(t, 7, 12, 70, 71), Some(true));
}

#[test]
fn deletes_commute() {
    let t = build(&[(10, 1), (20, 2), (5, 3), (15, 4), (25, 5)]);
    assert_eq!(prop_delete_delete(t.clone(), 10, 20), Some(true));
    assert_eq!(prop_delete_delete(t.clone(), 10, 10), Some(true));
    assert_eq!(prop_delete_delete(t, 11, 13), Some(true));
}

#[test]
fn delete_after_insert_commutes() {
    let t = build(&[(10, 1), (20, 2), (5, 3)]);
    assert_eq!(prop_delete_insert(t.clone(), 10, 10, 9), Some(true));
    assert_eq!(prop_delete_insert(t, 10, 7, 9), Some(true));
}

#[test]
fn insert_after_delete_commutes() {
    // Inserting a key into the tree with that same key deleted matches
    // the plain insert...
    let t = build(&[(10, 1), (20, 2), (5, 3)]);
    assert_eq!(prop_insert_delete(t.clone(), 10, 10, 9), Some(true));
    // ...and with a different key deleted, matches deleting that key from
    // the inserted tree.
    assert_eq!(prop_insert_delete(t, 1, 20, 9), Some(true));
    assert_eq!(prop_insert_delete(Tree::E, 1, 2, 10), Some(true));
    assert_eq!(prop_insert_delete(Tree::E, 1, 1, 10), Some(true));
    // An invalid start is discarded.
    let broken = node(Color::R, leaf(Color::R, 1, 1), 2, 2, Tree::E);
    assert_eq!(prop_insert_delete(broken, 1, 2, 3), None);
}

#[test]
fn list_model_helpers_compute_exact_values() {
    let l = vec![(1, 10), (3, 30), (5, 50)];
    assert_eq!(delete_key(3, &l), vec![(1, 10), (5, 50)]);
    assert_eq!(delete_key(4, &l), l.clone());
    assert_eq!(l_insert((4, 40), &l), vec![(1, 10), (3, 30), (4, 40), (5, 50)]);
    assert_eq!(l_insert((3, 31), &l), vec![(1, 10), (3, 31), (5, 50)]);
    assert_eq!(l_insert((0, 1), &l), vec![(0, 1), (1, 10), (3, 30), (5, 50)]);
    assert_eq!(l_insert((9, 90), &l), vec![(1, 10), (3, 30), (5, 50), (9, 90)]);
    assert_eq!(l_insert((9, 90), &[]), vec![(9, 90)]);
}

#[test]
fn codec_writes_the_parenthesized_form() {
    let t = node(Color::B, leaf(Color::R, 3, 30), 5, 50, Tree::E);
    assert_eq!(encode(&t), "(T (B) (T (R) (E) 3 30 (E)) 5 50 (E))");
    assert_eq!(encode(&Tree::E), "(E)");
    let neg = leaf(Color::B, -7, -42);
    assert_eq!(encode(&neg), "(T (B) (E) -7 -42 (E))");
}

#[test]
fn codec_round_trips() {
    assert_eq!(decode("(E)"), Some(Tree::E));
    let t = node(Color::B, leaf(Color::R, 3, 30), 5, 50, leaf(Color::R, 7, 70));
    let text = encode(&t);
    assert_eq!(decode(&text), Some(t));
    let neg = leaf(Color::B, -7, -42);
    assert_eq!(decode(&encode(&neg)), Some(neg));
}

#[test]
fn decode_rejects_malformed_text() {
    assert_eq!(decode(""), None);
    assert_eq!(decode("(X)"), None);
    assert_eq!(decode("(T (B) (E) 1 10 (E)"), None);
    assert_eq!(decode("(T (B) (E) 1 10 (E)) extra"), None);
    assert_eq!(decode("(T (B) (E) x 10 (E))"), None);
    assert_eq!(decode("(T (G) (E) 1 10 (E))"), None);
    assert_eq!(decode("(T (B) (E) 99999999999 10 (E))"), None);
}

#[test]
fn deleting_an_absent_key_is_a_no_op() {
    let t = build(&[(4, 40), (2, 20), (6, 60)]);
    let kept = delete(99, t.clone()).expect("budget is ample");
    assert_eq!(to_list(&kept), to_list(&t));
    assert_eq!(is_rbt(&kept), Some(true));
    assert_eq!(delete(7, Tree::E), Some(Tree::E));
}

#[test]
fn empty_tree_cases() {
    assert_eq!(find(3, Tree::E), None);
    assert_eq!(to_list(&Tree::E), Vec::new());
    assert_eq!(prop_insert_valid(Tree::E, 1, 2), Some(true));
    assert_eq!(prop_delete_valid(Tree::E, 1), Some(true));
    assert_eq!(prop_insert_model(Tree::E, 1, 2), Some(true));
}

#[test]
fn codec_handles_extreme_keys() {
    let t = leaf(Color::B, i32::MIN, i32::MAX);
    let text = encode(&t);
    assert_eq!(text, "(T (B) (E) -2147483648 2147483647 (E))");
    assert_eq!(decode(&text), Some(t));
    // One past either end of the range is malformed.
    assert_eq!(decode("(T (B) (E) -2147483649 0 (E))"), None);
    assert_eq!(decode("(T (B) (E) 2147483648 0 (E))"), None);
}

#[test]
fn extreme_keys_keep_validity() {
    let t = build(&[(i32::MIN, 1), (i32::MAX, 2), (0, 3)]);
    assert_eq!(is_rbt(&t), Some(true));
    assert_eq!(find(i32::MIN, t.clone()), Some(1));
    assert_eq!(prop_delete_delete(t, i32::MIN, i32::MAX), Some(true));
}
