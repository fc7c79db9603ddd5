//! Property predicates of the lambda-calculus workload: type preservation
//! checks under single and bounded multi-step reduction, reported as
//! `None` (discarded), `Some(true)` or `Some(false)`.

use vstd::prelude::*;

use crate::stlc::{
    get_typ, multistep, pstep, pstep_rule, spec_get_typ, spec_multistep_pstep, spec_pstep,
    type_check, Expr, Typ,
};

verus! {

/// An optional generated term: `None` marks a vacuous test case.
#[derive(Debug)]
pub struct ExprOpt(pub Option<Expr>);

/// The type of a closed term.
pub fn mt(e: &Expr) -> (res: Option<Typ>)
    ensures
        res == spec_get_typ(Seq::empty(), *e),
{
    let ctx: Vec<Typ> = Vec::new();
    proof {
        assert(ctx@ =~= Seq::<Typ>::empty());
    }
    get_typ(&ctx, e)
}

/// Checks a closed term against a type.
pub fn m_type_check(e: &Expr, t: &Typ) -> (r: bool)
    ensures
        r == (spec_get_typ(Seq::empty(), *e) == Some(*t)),
{
    let ctx: Vec<Typ> = Vec::new();
    proof {
        assert(ctx@ =~= Seq::<Typ>::empty());
    }
    type_check(&ctx, e, t)
}

/// Single-step type preservation check: a well-typed closed term either
/// is in normal form or steps to a term of the same type; ill-typed or
/// absent terms are discarded.
pub fn prop_single_preserve(e: ExprOpt) -> (res: Option<bool>)
    ensures
        e.0 is None ==> res == None::<bool>,
        e.0 matches Some(ex) ==> match spec_get_typ(Seq::empty(), ex) {
            None => res == None::<bool>,
            Some(tp) => res == Some(
                match spec_pstep(ex) {
                    None => true,
                    Some(e2) => spec_get_typ(Seq::empty(), e2) == Some(tp),
                },
            ),
        },
{
    let ex = match e.0 {
        Some(ex) => ex,
        None => {
            return None;
        },
    };
    let tp = match mt(&ex) {
        Some(tp) => tp,
        None => {
            return None;
        },
    };
    match pstep(&ex) {
        None => Some(true),
        Some(e2) => Some(m_type_check(&e2, &tp)),
    }
}

/// Bounded multi-step type preservation check: the term takes up to forty
/// parallel steps and the result is checked against the original type;
/// ill-typed or absent terms are discarded.
pub fn prop_multi_preserve(e: ExprOpt) -> (res: Option<bool>)
    ensures
        e.0 is None ==> res == None::<bool>,
        e.0 matches Some(ex) ==> match spec_get_typ(Seq::empty(), ex) {
            None => res == None::<bool>,
            Some(tp) => res == Some(
                spec_get_typ(Seq::empty(), spec_multistep_pstep(40, ex)) == Some(tp),
            ),
        },
{
    let ex = match e.0 {
        Some(ex) => ex,
        None => {
            return None;
        },
    };
    let tp = match mt(&ex) {
        Some(tp) => tp,
        None => {
            return None;
        },
    };
    match multistep(40, pstep, &ex) {
        None => unreached(),
        Some(stepped) => {
            proof {
                assert forall|x: &Expr, y: Option<Expr>| #[trigger] call_ensures(
                    pstep,
                    (x,),
                    y,
                ) implies y == pstep_rule()(*x) by {}
                assert(stepped == spec_multistep_pstep(40, ex));
            }
            Some(m_type_check(&stepped, &tp))
        },
    }
}

} // verus!
