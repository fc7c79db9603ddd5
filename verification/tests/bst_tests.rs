use redblack::bst::{above, below, delete, find, insert, join, size, union, Tree};

fn leaf(k: i32, v: i32) -> Tree {
    Tree::T(Box::new(Tree::E), k, v, Box::new(Tree::E))
}

fn build(entries: &[(i32, i32)]) -> Tree {
    let mut t = Tree::E;
    for &(k, v) in entries {
        t = insert(k, v, t);
    }
    t
}

fn entries(t: &Tree) -> Vec<(i32, i32)> {
    match t {
        Tree::E => Vec::new(),
        Tree::T(l, k, v, r) => {
            let mut out = entries(l);
            out.push((*k, *v));
            out.extend(entries(r));
            out
        }
    }
}

#[test]
fn insert_shapes_and_replacement() {
    let t = insert(5, 50, Tree::E);
    assert_eq!(t, leaf(5, 50));
    let t = insert(3, 30, t);
    assert_eq!(t, Tree::T(Box::new(leaf(3, 30)), 5, 50, Box::new(Tree::E)));
    let t = insert(5, 51, t);
    assert_eq!(t, Tree::T(Box::new(leaf(3, 30)), 5, 51, Box::new(Tree::E)));
}

#[test]
fn find_and_size() {
    let t = build(&[(4, 40), (2, 20), (6, 60)]);
    assert_eq!(find(4, &t), Some(40));
    assert_eq!(find(2, &t), Some(20));
    assert_eq!(find(5, &t), None);
    assert_eq!(size(&t), 3);
    assert_eq!(size(&Tree::E), 0);
}

#[test]
fn delete_joins_the_children() {
    let t = build(&[(4, 40), (2, 20), (6, 60), (5, 50)]);
    let t = delete(4, t);
    assert_eq!(entries(&t), vec![(2, 20), (5, 50), (6, 60)]);
    let t = delete(9, t);
    assert_eq!(entries(&t), vec![(2, 20), (5, 50), (6, 60)]);
}

#[test]
fn join_keeps_both_sides_in_order() {
    let lo = build(&[(1, 10), (2, 20)]);
    let hi = build(&[(5, 50), (6, 60)]);
    assert_eq!(
        entries(&join(lo, hi)),
        vec![(1, 10), (2, 20), (5, 50), (6, 60)]
    );
}

#[test]
fn below_and_above_split_strictly() {
    let t = build(&[(4, 40), (2, 20), (6, 60), (5, 50)]);
    assert_eq!(entries(&below(5, t.clone())), vec![(2, 20), (4, 40)]);
    assert_eq!(entries(&above(4, t)), vec![(5, 50), (6, 60)]);
}

#[test]
fn union_prefers_left_values() {
    let a = build(&[(1, 10), (3, 30)]);
    let b = build(&[(3, 99), (4, 40)]);
    assert_eq!(entries(&union(a, b)), vec![(1, 10), (3, 30), (4, 40)]);
    let only = build(&[(7, 70)]);
    assert_eq!(entries(&union(Tree::E, only.clone())), vec![(7, 70)]);
    assert_eq!(entries(&union(only, Tree::E)), vec![(7, 70)]);
}
