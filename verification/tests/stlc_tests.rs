use redblack::stlc::{
    get_typ, is_nf, multistep, pstep, shift, subst, subst_top, type_check, Expr, Typ,
};
use redblack::stlc_props::{m_type_check, mt, prop_multi_preserve, prop_single_preserve, ExprOpt};

fn abs(t: Typ, e: Expr) -> Expr {
    Expr::Abs(t, Box::new(e))
}

fn app(f: Expr, a: Expr) -> Expr {
    Expr::App(Box::new(f), Box::new(a))
}

#[test]
fn get_typ_infers_simple_terms() {
    let id = abs(Typ::TBool, Expr::Var(0));
    assert_eq!(
        get_typ(&vec![], &id),
        Some(Typ::TFun(Box::new(Typ::TBool), Box::new(Typ::TBool)))
    );
    let applied = app(id.clone(), Expr::Bool(true));
    assert_eq!(get_typ(&vec![], &applied), Some(Typ::TBool));
    // A free variable reads its type from the context.
    assert_eq!(get_typ(&vec![Typ::TBool], &Expr::Var(0)), Some(Typ::TBool));
    // Out-of-range and negative indices are ill-typed.
    assert_eq!(get_typ(&vec![], &Expr::Var(0)), None);
    assert_eq!(get_typ(&vec![Typ::TBool], &Expr::Var(-1)), None);
    // An argument of the wrong type is rejected.
    let bad = app(id, app(abs(Typ::TBool, Expr::Var(0)), Expr::Bool(false)));
    assert_eq!(get_typ(&vec![], &bad), Some(Typ::TBool));
    let really_bad = app(Expr::Bool(true), Expr::Bool(false));
    assert_eq!(get_typ(&vec![], &really_bad), None);
}

#[test]
fn type_check_compares_against_inference() {
    let id = abs(Typ::TBool, Expr::Var(0));
    assert!(type_check(
        &vec![],
        &id,
        &Typ::TFun(Box::new(Typ::TBool), Box::new(Typ::TBool))
    ));
    assert!(!type_check(&vec![], &id, &Typ::TBool));
    assert!(m_type_check(&Expr::Bool(true), &Typ::TBool));
    assert_eq!(mt(&Expr::Bool(false)), Some(Typ::TBool));
}

#[test]
fn shift_moves_only_free_variables() {
    let e = abs(Typ::TBool, app(Expr::Var(0), Expr::Var(1)));
    let shifted = shift(1, &e);
    assert_eq!(shifted, abs(Typ::TBool, app(Expr::Var(0), Expr::Var(2))));
    assert_eq!(shift(3, &Expr::Var(4)), Expr::Var(7));
    assert_eq!(shift(1, &Expr::Bool(true)), Expr::Bool(true));
}

#[test]
fn subst_replaces_the_indexed_variable() {
    assert_eq!(subst(0, &Expr::Bool(true), &Expr::Var(0)), Expr::Bool(true));
    assert_eq!(subst(0, &Expr::Bool(true), &Expr::Var(1)), Expr::Var(1));
    // Under a binder the target index moves up by one.
    let e = abs(Typ::TBool, app(Expr::Var(0), Expr::Var(1)));
    assert_eq!(
        subst(0, &Expr::Bool(true), &e),
        abs(Typ::TBool, app(Expr::Var(0), Expr::Bool(true)))
    );
}

#[test]
fn subst_top_performs_beta_substitution() {
    let body = app(Expr::Var(0), Expr::Var(1));
    let out = subst_top(&Expr::Bool(false), &body);
    assert_eq!(out, app(Expr::Bool(false), Expr::Var(0)));
}

#[test]
fn pstep_reduces_redexes_in_parallel() {
    let id = abs(Typ::TBool, Expr::Var(0));
    let redex = app(id.clone(), Expr::Bool(true));
    assert_eq!(pstep(&redex), Some(Expr::Bool(true)));
    // Normal forms do not step.
    assert_eq!(pstep(&Expr::Bool(true)), None);
    assert_eq!(pstep(&Expr::Var(3)), None);
    assert_eq!(pstep(&id), None);
    // Both sides of an application step at once.
    let both = app(
        app(Expr::Var(9), app(id.clone(), Expr::Bool(true))),
        app(id, Expr::Bool(false)),
    );
    assert_eq!(
        pstep(&both),
        Some(app(
            app(Expr::Var(9), Expr::Bool(true)),
            Expr::Bool(false)
        ))
    );
}

#[test]
fn multistep_runs_to_a_normal_form() {
    let id = abs(Typ::TBool, Expr::Var(0));
    let nested = app(id.clone(), app(id, Expr::Bool(true)));
    let out = multistep(40, pstep, &nested);
    assert_eq!(out, Some(Expr::Bool(true)));
    // With a zero budget the term is returned as it stands.
    let id2 = abs(Typ::TBool, Expr::Var(0));
    let redex = app(id2, Expr::Bool(false));
    assert_eq!(multistep(0, pstep, &redex), Some(redex));
}

#[test]
fn is_nf_recognizes_normal_forms() {
    let id = abs(Typ::TBool, Expr::Var(0));
    assert!(is_nf(&Expr::Var(0)));
    assert!(is_nf(&Expr::Bool(true)));
    assert!(is_nf(&id));
    assert!(is_nf(&app(Expr::Var(1), Expr::Var(2))));
    assert!(!is_nf(&app(id.clone(), Expr::Bool(true))));
    assert!(!is_nf(&abs(Typ::TBool, app(id, Expr::Var(0)))));
}

#[test]
fn expr_size_counts_nodes() {
    let id = abs(Typ::TBool, Expr::Var(0));
    assert_eq!(Expr::Bool(true).size(), 1);
    assert_eq!(id.size(), 2);
    assert_eq!(app(id, Expr::Bool(false)).size(), 4);
}

#[test]
fn preservation_checks_report_verdicts() {
    let id = abs(Typ::TBool, Expr::Var(0));
    let redex = app(id.clone(), Expr::Bool(true));
    assert_eq!(prop_single_preserve(ExprOpt(Some(redex.clone()))), Some(true));
    assert_eq!(prop_multi_preserve(ExprOpt(Some(redex))), Some(true));
    // Normal forms pass vacuously.
    assert_eq!(prop_single_preserve(ExprOpt(Some(Expr::Bool(true)))), Some(true));
    // Ill-typed and absent terms are discarded.
    let ill = app(Expr::Bool(true), Expr::Bool(false));
    assert_eq!(prop_single_preserve(ExprOpt(Some(ill.clone()))), None);
    assert_eq!(prop_multi_preserve(ExprOpt(Some(ill))), None);
    assert_eq!(prop_single_preserve(ExprOpt(None)), None);
    assert_eq!(prop_multi_preserve(ExprOpt(None)), None);
}
