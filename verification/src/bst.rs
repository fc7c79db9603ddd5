//! The companion unordered-workbench binary search tree: plain structural
//! insertion and deletion without balancing, splitting by a key bound, and
//! a fuel-bounded union built from those splits.

use vstd::prelude::*;

verus! {

/// A plain binary search tree mapping `i32` keys to `i32` values.
#[derive(Debug, PartialEq, Eq)]
pub enum Tree {
    E,
    T(Box<Tree>, i32, i32, Box<Tree>),
}

impl Clone for Tree {
    /// Structure-preserving deep copy.
    fn clone(&self) -> (res: Self)
        ensures
            res == *self,
        decreases *self,
    {
        match self {
            Tree::E => Tree::E,
            Tree::T(l, k, v, r) => Tree::T(
                Box::new((&**l).clone()),
                *k,
                *v,
                Box::new((&**r).clone()),
            ),
        }
    }
}

/// Recursion budget for `union`.
pub const UNION_FUEL: usize = 10000;

/// What `insert` returns: descend by key order, replace at an equal key,
/// grow a leaf at an empty slot.
pub open spec fn spec_insert(k: i32, v: i32, t: Tree) -> Tree
    decreases t,
{
    match t {
        Tree::E => Tree::T(Box::new(Tree::E), k, v, Box::new(Tree::E)),
        Tree::T(l, k2, v2, r) => if k < k2 {
            Tree::T(Box::new(spec_insert(k, v, *l)), k2, v2, r)
        } else if k2 < k {
            Tree::T(l, k2, v2, Box::new(spec_insert(k, v, *r)))
        } else {
            Tree::T(l, k2, v, r)
        },
    }
}

/// What `join` returns: hangs the left tree's right spine above the right
/// tree, keeping the in-order sequence of both sides.
pub open spec fn spec_join(l: Tree, r: Tree) -> Tree
    decreases l,
{
    match l {
        Tree::E => r,
        Tree::T(l1, k1, v1, r1) => match r {
            Tree::E => l,
            Tree::T(l2, k2, v2, r2) => Tree::T(
                l1,
                k1,
                v1,
                Box::new(Tree::T(Box::new(spec_join(*r1, *l2)), k2, v2, r2)),
            ),
        },
    }
}

/// What `delete` returns: the node at the key is replaced by the join of
/// its children; a missing key leaves the tree unchanged.
pub open spec fn spec_delete(k: i32, t: Tree) -> Tree
    decreases t,
{
    match t {
        Tree::E => Tree::E,
        Tree::T(l, k2, v2, r) => if k < k2 {
            Tree::T(Box::new(spec_delete(k, *l)), k2, v2, r)
        } else if k2 < k {
            Tree::T(l, k2, v2, Box::new(spec_delete(k, *r)))
        } else {
            spec_join(*l, *r)
        },
    }
}

/// What `below` returns: the entries with keys strictly below `k`.
pub open spec fn spec_below(k: i32, t: Tree) -> Tree
    decreases t,
{
    match t {
        Tree::E => Tree::E,
        Tree::T(l, k2, v2, r) => if k <= k2 {
            spec_below(k, *l)
        } else {
            Tree::T(l, k2, v2, Box::new(spec_below(k, *r)))
        },
    }
}

/// What `above` returns: the entries with keys strictly above `k`.
pub open spec fn spec_above(k: i32, t: Tree) -> Tree
    decreases t,
{
    match t {
        Tree::E => Tree::E,
        Tree::T(l, k2, v2, r) => if k2 <= k {
            spec_above(k, *r)
        } else {
            Tree::T(Box::new(spec_above(k, *l)), k2, v2, r)
        },
    }
}

/// What the fuel-bounded union returns: the left tree's nodes keep their
/// values; the right tree is split around each key. Exhausted fuel yields
/// the empty tree.
pub open spec fn spec_union_(l: Tree, r: Tree, f: nat) -> Tree
    decreases f,
{
    if f == 0 {
        Tree::E
    } else {
        let fp = (f - 1) as nat;
        match l {
            Tree::E => r,
            Tree::T(l1, k, v, r1) => match r {
                Tree::E => l,
                Tree::T(l2, k2, v2, r2) => Tree::T(
                    Box::new(spec_union_(*l1, spec_below(k, r), fp)),
                    k,
                    v,
                    Box::new(spec_union_(*r1, spec_above(k, r), fp)),
                ),
            },
        }
    }
}

/// What `find` returns.
pub open spec fn spec_find(k: i32, t: Tree) -> Option<i32>
    decreases t,
{
    match t {
        Tree::E => None,
        Tree::T(l, k2, v2, r) => if k < k2 {
            spec_find(k, *l)
        } else if k2 < k {
            spec_find(k, *r)
        } else {
            Some(v2)
        },
    }
}

/// Number of nodes.
pub open spec fn spec_size(t: Tree) -> nat
    decreases t,
{
    match t {
        Tree::E => 0,
        Tree::T(l, _, _, r) => 1 + spec_size(*l) + spec_size(*r),
    }
}

/// Structural insertion without rebalancing.
pub fn insert(k: i32, v: i32, t: Tree) -> (res: Tree)
    ensures
        res == spec_insert(k, v, t),
    decreases t,
{
    match t {
        Tree::E => Tree::T(Box::new(Tree::E), k, v, Box::new(Tree::E)),
        Tree::T(l, k2, v2, r) => if k < k2 {
            Tree::T(Box::new(insert(k, v, *l)), k2, v2, r)
        } else if k2 < k {
            Tree::T(l, k2, v2, Box::new(insert(k, v, *r)))
        } else {
            Tree::T(l, k2, v, r)
        },
    }
}

/// Joins two order-disjoint trees.
pub fn join(l: Tree, r: Tree) -> (res: Tree)
    ensures
        res == spec_join(l, r),
    decreases l,
{
    match l {
        Tree::E => r,
        Tree::T(l1, k1, v1, r1) => match r {
            Tree::E => Tree::T(l1, k1, v1, r1),
            Tree::T(l2, k2, v2, r2) => Tree::T(
                l1,
                k1,
                v1,
                Box::new(Tree::T(Box::new(join(*r1, *l2)), k2, v2, r2)),
            ),
        },
    }
}

/// Removes the entry at `k`, if any.
pub fn delete(k: i32, t: Tree) -> (res: Tree)
    ensures
        res == spec_delete(k, t),
    decreases t,
{
    match t {
        Tree::E => Tree::E,
        Tree::T(l, k2, v2, r) => if k < k2 {
            Tree::T(Box::new(delete(k, *l)), k2, v2, r)
        } else if k2 < k {
            Tree::T(l, k2, v2, Box::new(delete(k, *r)))
        } else {
            join(*l, *r)
        },
    }
}

/// Keeps the entries with keys strictly below `k`.
pub fn below(k: i32, t: Tree) -> (res: Tree)
    ensures
        res == spec_below(k, t),
    decreases t,
{
    match t {
        Tree::E => Tree::E,
        Tree::T(l, k2, v2, r) => if k <= k2 {
            below(k, *l)
        } else {
            Tree::T(l, k2, v2, Box::new(below(k, *r)))
        },
    }
}

/// Keeps the entries with keys strictly above `k`.
pub fn above(k: i32, t: Tree) -> (res: Tree)
    ensures
        res == spec_above(k, t),
    decreases t,
{
    match t {
        Tree::E => Tree::E,
        Tree::T(l, k2, v2, r) => if k2 <= k {
            above(k, *r)
        } else {
            Tree::T(Box::new(above(k, *l)), k2, v2, r)
        },
    }
}

/// Fuel-bounded union of two trees; left values win at shared keys.
pub fn union_(l: Tree, r: Tree, f: usize) -> (res: Tree)
    ensures
        res == spec_union_(l, r, f as nat),
    decreases f,
{
    if f == 0 {
        return Tree::E;
    }
    let f1 = f - 1;
    match l {
        Tree::E => r,
        Tree::T(l1, k, v, r1) => match r {
            Tree::E => Tree::T(l1, k, v, r1),
            Tree::T(l2, k2, v2, r2) => {
                let rt = Tree::T(l2, k2, v2, r2);
                let lo = below(k, rt.clone());
                let hi = above(k, rt);
                Tree::T(
                    Box::new(union_(*l1, lo, f1)),
                    k,
                    v,
                    Box::new(union_(*r1, hi, f1)),
                )
            },
        },
    }
}

/// Union under the standard budget.
pub fn union(l: Tree, r: Tree) -> (res: Tree)
    ensures
        res == spec_union_(l, r, UNION_FUEL as nat),
{
    union_(l, r, UNION_FUEL)
}

/// Looks a key up by the search-tree order.
pub fn find(k: i32, t: &Tree) -> (res: Option<i32>)
    ensures
        res == spec_find(k, *t),
    decreases *t,
{
    match t {
        Tree::E => None,
        Tree::T(l, k2, v2, r) => if k < *k2 {
            find(k, l)
        } else if *k2 < k {
            find(k, r)
        } else {
            Some(*v2)
        },
    }
}

/// Number of nodes in the tree.
pub fn size(t: &Tree) -> (n: usize)
    requires
        spec_size(*t) <= usize::MAX,
    ensures
        n == spec_size(*t),
    decreases *t,
{
    match t {
        Tree::E => 0,
        Tree::T(l, _, _, r) => {
            proof {
                assert(spec_size(**l) <= spec_size(*t) && spec_size(**r) <= spec_size(*t));
            }
            1 + size(l) + size(r)
        },
    }
}

} // verus!
