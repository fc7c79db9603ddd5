//! The companion simply typed lambda calculus workload: de Bruijn terms,
//! a type checker, capture-avoiding substitution by shifting, parallel
//! reduction and a bounded multi-step driver.

use vstd::prelude::*;
use vstd::wrapping::i32_specs;

verus! {

/// Types: the base boolean type and function types.
#[derive(Debug, PartialEq, Eq)]
pub enum Typ {
    TBool,
    TFun(Box<Typ>, Box<Typ>),
}

impl Clone for Typ {
    /// Structure-preserving deep copy.
    fn clone(&self) -> (res: Self)
        ensures
            res == *self,
        decreases *self,
    {
        match self {
            Typ::TBool => Typ::TBool,
            Typ::TFun(a, b) => Typ::TFun(Box::new((&**a).clone()), Box::new((&**b).clone())),
        }
    }
}

/// Terms with de Bruijn indices.
#[derive(Debug, PartialEq, Eq)]
pub enum Expr {
    Var(i32),
    Bool(bool),
    Abs(Typ, Box<Expr>),
    App(Box<Expr>, Box<Expr>),
}

impl Clone for Expr {
    /// Structure-preserving deep copy.
    fn clone(&self) -> (res: Self)
        ensures
            res == *self,
        decreases *self,
    {
        match self {
            Expr::Var(i) => Expr::Var(*i),
            Expr::Bool(b) => Expr::Bool(*b),
            Expr::Abs(t, e) => Expr::Abs(t.clone(), Box::new((&**e).clone())),
            Expr::App(f, a) => Expr::App(Box::new((&**f).clone()), Box::new((&**a).clone())),
        }
    }
}

/// A typing context: the type of each free variable, innermost first.
pub type Ctx = Vec<Typ>;

/// Number of nodes in a term.
pub open spec fn spec_expr_size(e: Expr) -> nat
    decreases e,
{
    match e {
        Expr::Var(_) => 1,
        Expr::Bool(_) => 1,
        Expr::Abs(_, body) => 1 + spec_expr_size(*body),
        Expr::App(f, a) => 1 + spec_expr_size(*f) + spec_expr_size(*a),
    }
}

impl Expr {
    /// Number of nodes in the term.
    pub fn size(&self) -> (n: usize)
        requires
            spec_expr_size(*self) <= usize::MAX,
        ensures
            n == spec_expr_size(*self),
        decreases *self,
    {
        match self {
            Expr::Var(_) => 1,
            Expr::Bool(_) => 1,
            Expr::Abs(_, body) => 1 + body.size(),
            Expr::App(f, a) => {
                proof {
                    assert(spec_expr_size(**f) <= spec_expr_size(*self) && spec_expr_size(**a)
                        <= spec_expr_size(*self));
                }
                1 + f.size() + a.size()
            },
        }
    }
}

/// Structural equality of types.
pub fn typ_eq(a: &Typ, b: &Typ) -> (r: bool)
    ensures
        r == (*a == *b),
    decreases *a,
{
    match (a, b) {
        (Typ::TBool, Typ::TBool) => true,
        (Typ::TFun(a1, a2), Typ::TFun(b1, b2)) => typ_eq(a1, b1) && typ_eq(a2, b2),
        _ => false,
    }
}

/// What `get_typ` returns: the type of a term under a context, or nothing
/// when the term is ill-typed.
pub open spec fn spec_get_typ(ctx: Seq<Typ>, e: Expr) -> Option<Typ>
    decreases e,
{
    match e {
        Expr::Var(i) => if 0 <= i < ctx.len() {
            Some(ctx[i as int])
        } else {
            None
        },
        Expr::Bool(_) => Some(Typ::TBool),
        Expr::Abs(t, body) => match spec_get_typ(seq![t] + ctx, *body) {
            None => None,
            Some(ret) => Some(Typ::TFun(Box::new(t), Box::new(ret))),
        },
        Expr::App(f, a) => match (spec_get_typ(ctx, *f), spec_get_typ(ctx, *a)) {
            (Some(ft), Some(at)) => match ft {
                Typ::TFun(p, r) => if *p == at {
                    Some(*r)
                } else {
                    None
                },
                _ => None,
            },
            _ => None,
        },
    }
}

/// Infers the type of a term under a context.
pub fn get_typ(ctx: &Ctx, expr: &Expr) -> (res: Option<Typ>)
    ensures
        res == spec_get_typ(ctx@, *expr),
    decreases *expr,
{
    match expr {
        Expr::Var(i) => {
            if *i < 0 {
                None
            } else {
                let idx = *i as usize;
                if idx < ctx.len() {
                    Some(ctx[idx].clone())
                } else {
                    None
                }
            }
        },
        Expr::Bool(_) => Some(Typ::TBool),
        Expr::Abs(typ, body) => {
            let mut new_ctx: Ctx = Vec::new();
            new_ctx.push(typ.clone());
            let mut j: usize = 0;
            while j < ctx.len()
                invariant
                    0 <= j <= ctx@.len(),
                    new_ctx@ == seq![*typ] + ctx@.subrange(0, j as int),
                decreases ctx@.len() - j,
            {
                new_ctx.push(ctx[j].clone());
                proof {
                    assert(new_ctx@ =~= seq![*typ] + ctx@.subrange(0, j + 1));
                }
                j = j + 1;
            }
            proof {
                assert(new_ctx@ =~= seq![*typ] + ctx@);
            }
            match get_typ(&new_ctx, body) {
                None => None,
                Some(ret) => Some(Typ::TFun(Box::new(typ.clone()), Box::new(ret))),
            }
        },
        Expr::App(f, a) => {
            let ft = get_typ(ctx, f);
            let at = get_typ(ctx, a);
            match (ft, at) {
                (Some(ft), Some(at)) => match ft {
                    Typ::TFun(p, r) => if typ_eq(&p, &at) {
                        Some(*r)
                    } else {
                        None
                    },
                    _ => None,
                },
                _ => None,
            }
        },
    }
}

/// Checks a term against a type under a context.
pub fn type_check(ctx: &Ctx, expr: &Expr, typ: &Typ) -> (r: bool)
    ensures
        r == (spec_get_typ(ctx@, *expr) == Some(*typ)),
{
    match get_typ(ctx, expr) {
        Some(expr_typ) => typ_eq(&expr_typ, typ),
        None => false,
    }
}

/// What the shifting descent returns: free variables at or above the
/// cutoff move by `d` (two's-complement wrap on overflow).
pub open spec fn spec_shift_go(c: i32, e: Expr, d: i32) -> Expr
    decreases e,
{
    match e {
        Expr::Var(i) => if i < c {
            Expr::Var(i)
        } else {
            Expr::Var(i32_specs::wrapping_add(i, d))
        },
        Expr::Bool(b) => Expr::Bool(b),
        Expr::Abs(t, body) => Expr::Abs(
            t,
            Box::new(spec_shift_go(i32_specs::wrapping_add(c, 1), *body, d)),
        ),
        Expr::App(f, a) => Expr::App(
            Box::new(spec_shift_go(c, *f, d)),
            Box::new(spec_shift_go(c, *a, d)),
        ),
    }
}

/// What `shift` returns.
pub open spec fn spec_shift(d: i32, e: Expr) -> Expr {
    spec_shift_go(0, e, d)
}

/// The shifting descent.
fn shift_go(c: i32, e: &Expr, d: i32) -> (res: Expr)
    ensures
        res == spec_shift_go(c, *e, d),
    decreases *e,
{
    match e {
        Expr::Var(i) => if *i < c {
            Expr::Var(*i)
        } else {
            Expr::Var(i.wrapping_add(d))
        },
        Expr::Bool(b) => Expr::Bool(*b),
        Expr::Abs(t, body) => Expr::Abs(t.clone(), Box::new(shift_go(c.wrapping_add(1), body, d))),
        Expr::App(f, a) => Expr::App(Box::new(shift_go(c, f, d)), Box::new(shift_go(c, a, d))),
    }
}

/// Moves every free variable of a term by `d`.
pub fn shift(d: i32, expr: &Expr) -> (res: Expr)
    ensures
        res == spec_shift(d, *expr),
{
    shift_go(0, expr, d)
}

/// What `subst` returns: the term `s` replaces variable `n`, with the
/// substituted term shifted under every binder.
pub open spec fn spec_subst(n: i32, s: Expr, e: Expr) -> Expr
    decreases e,
{
    match e {
        Expr::Var(i) => if i == n {
            s
        } else {
            Expr::Var(i)
        },
        Expr::Bool(b) => Expr::Bool(b),
        Expr::Abs(t, body) => Expr::Abs(
            t,
            Box::new(spec_subst(i32_specs::wrapping_add(n, 1), spec_shift(1, s), *body)),
        ),
        Expr::App(f, a) => Expr::App(
            Box::new(spec_subst(n, s, *f)),
            Box::new(spec_subst(n, s, *a)),
        ),
    }
}

/// Substitutes `s` for variable `n` in `e`.
pub fn subst(n: i32, s: &Expr, e: &Expr) -> (res: Expr)
    ensures
        res == spec_subst(n, *s, *e),
    decreases *e,
{
    match e {
        Expr::Var(i) => if *i == n {
            s.clone()
        } else {
            Expr::Var(*i)
        },
        Expr::Bool(b) => Expr::Bool(*b),
        Expr::Abs(t, body) => Expr::Abs(
            t.clone(),
            Box::new(subst(n.wrapping_add(1), &shift(1, s), body)),
        ),
        Expr::App(f, a) => Expr::App(Box::new(subst(n, s, f)), Box::new(subst(n, s, a))),
    }
}

/// What `subst_top` returns: beta-substitution of `s` for the outermost
/// binder of `e`.
pub open spec fn spec_subst_top(s: Expr, e: Expr) -> Expr {
    spec_shift(-1i32, spec_subst(0i32, spec_shift(1i32, s), e))
}

/// Beta-substitution at the outermost binder.
pub fn subst_top(s: &Expr, e: &Expr) -> (res: Expr)
    ensures
        res == spec_subst_top(*s, *e),
{
    shift(-1, &subst(0, &shift(1, s), e))
}

/// What `pstep` returns: one parallel reduction step, or nothing for a
/// term already in normal form.
pub open spec fn spec_pstep(e: Expr) -> Option<Expr>
    decreases e,
{
    match e {
        Expr::Abs(t, body) => match spec_pstep(*body) {
            None => None,
            Some(ep) => Some(Expr::Abs(t, Box::new(ep))),
        },
        Expr::App(f, a) => match *f {
            Expr::Abs(_, e1) => {
                let e1p = match spec_pstep(*e1) {
                    Some(x) => x,
                    None => *e1,
                };
                let e2p = match spec_pstep(*a) {
                    Some(x) => x,
                    None => *a,
                };
                Some(spec_subst_top(e2p, e1p))
            },
            _ => match (spec_pstep(*f), spec_pstep(*a)) {
                (None, None) => None,
                (mf, ma) => {
                    let fp = match mf {
                        Some(x) => x,
                        None => *f,
                    };
                    let ap = match ma {
                        Some(x) => x,
                        None => *a,
                    };
                    Some(Expr::App(Box::new(fp), Box::new(ap)))
                },
            },
        },
        _ => None,
    }
}

/// One parallel reduction step; `None` for a normal form.
pub fn pstep(expr: &Expr) -> (res: Option<Expr>)
    ensures
        res == spec_pstep(*expr),
    decreases *expr,
{
    match expr {
        Expr::Abs(t, body) => match pstep(body) {
            None => None,
            Some(ep) => Some(Expr::Abs(t.clone(), Box::new(ep))),
        },
        Expr::App(f, a) => match &**f {
            Expr::Abs(_, e1) => {
                let e1p = match pstep(e1) {
                    Some(x) => x,
                    None => (&**e1).clone(),
                };
                let e2p = match pstep(a) {
                    Some(x) => x,
                    None => (&**a).clone(),
                };
                Some(subst_top(&e2p, &e1p))
            },
            _ => match (pstep(f), pstep(a)) {
                (None, None) => None,
                (mf, ma) => {
                    let fp = match mf {
                        Some(x) => x,
                        None => (&**f).clone(),
                    };
                    let ap = match ma {
                        Some(x) => x,
                        None => (&**a).clone(),
                    };
                    Some(Expr::App(Box::new(fp), Box::new(ap)))
                },
            },
        },
        _ => None,
    }
}


/// Runs `g` up to `f` times from `e`, stopping at the first miss.
pub open spec fn spec_iterate(g: spec_fn(Expr) -> Option<Expr>, f: nat, e: Expr) -> Expr
    decreases f,
{
    if f == 0 {
        e
    } else {
        match g(e) {
            None => e,
            Some(n) => spec_iterate(g, (f - 1) as nat, n),
        }
    }
}

/// One more round of iteration applies `g` to the stopping point.
pub proof fn lemma_iterate_snoc(g: spec_fn(Expr) -> Option<Expr>, j: nat, e: Expr)
    ensures
        spec_iterate(g, j + 1, e) == (match g(spec_iterate(g, j, e)) {
            None => spec_iterate(g, j, e),
            Some(n) => n,
        }),
    decreases j,
{
    reveal_with_fuel(spec_iterate, 3);
    if j > 0 {
        match g(e) {
            None => {},
            Some(n) => {
                lemma_iterate_snoc(g, (j - 1) as nat, n);
            },
        }
    }
}

/// Once the iteration sticks, more budget changes nothing.
pub proof fn lemma_iterate_stuck(g: spec_fn(Expr) -> Option<Expr>, i: nat, f: nat, e: Expr)
    requires
        i <= f,
        g(spec_iterate(g, i, e)) is None,
    ensures
        spec_iterate(g, f, e) == spec_iterate(g, i, e),
    decreases f - i,
{
    if i < f {
        lemma_iterate_snoc(g, i, e);
        assert(spec_iterate(g, i + 1, e) == spec_iterate(g, i, e));
        lemma_iterate_stuck(g, i + 1, f, e);
    }
}

/// Runs up to `f` steps of `step`, stopping early at a normal form; the
/// result is always a term (never `None`). Whenever the step function
/// implements a deterministic rule `g`, the result is exactly the bounded
/// iteration of `g`.
pub fn multistep<F: Fn(&Expr) -> Option<Expr>>(f: usize, step: F, expr: &Expr) -> (res: Option<
    Expr,
>)
    requires
        forall|e: &Expr| #[trigger] call_requires(step, (e,)),
    ensures
        res is Some,
        f == 0 ==> res == Some(*expr),
        forall|g: spec_fn(Expr) -> Option<Expr>|
            (forall|x: &Expr, y: Option<Expr>| #[trigger] call_ensures(step, (x,), y) ==> y
                == g(*x)) ==> res == Some(#[trigger] spec_iterate(g, f as nat, *expr)),
{
    let mut current = expr.clone();
    let mut i: usize = 0;
    while i < f
        invariant
            i <= f,
            forall|e: &Expr| #[trigger] call_requires(step, (e,)),
            f == 0 ==> current == *expr,
            forall|g: spec_fn(Expr) -> Option<Expr>|
                (forall|x: &Expr, y: Option<Expr>| #[trigger] call_ensures(step, (x,), y)
                    ==> y == g(*x)) ==> current == #[trigger] spec_iterate(
                    g,
                    i as nat,
                    *expr,
                ),
        decreases f - i,
    {
        let ghost prev = current;
        match step(&current) {
            Some(next) => {
                proof {
                    assert forall|g: spec_fn(Expr) -> Option<Expr>|
                        (forall|x: &Expr, y: Option<Expr>| #[trigger] call_ensures(
                            step,
                            (x,),
                            y,
                        ) ==> y == g(*x)) implies next == #[trigger] spec_iterate(
                        g,
                        (i + 1) as nat,
                        *expr,
                    ) by {
                        assert(Some(next) == g(prev));
                        lemma_iterate_snoc(g, i as nat, *expr);
                    }
                }
                current = next;
            },
            None => {
                proof {
                    assert forall|g: spec_fn(Expr) -> Option<Expr>|
                        (forall|x: &Expr, y: Option<Expr>| #[trigger] call_ensures(
                            step,
                            (x,),
                            y,
                        ) ==> y == g(*x)) implies current == #[trigger] spec_iterate(
                        g,
                        f as nat,
                        *expr,
                    ) by {
                        assert(None::<Expr> == g(current));
                        lemma_iterate_stuck(g, i as nat, f as nat, *expr);
                    }
                }
                return Some(current);
            },
        }
        i = i + 1;
    }
    Some(current)
}

/// The parallel-step rule as a function value.
pub open spec fn pstep_rule() -> spec_fn(Expr) -> Option<Expr> {
    |x: Expr| spec_pstep(x)
}

/// What the bounded multi-step driver computes under the parallel-step
/// rule: up to `f` parallel steps, stopping at a normal form.
pub open spec fn spec_multistep_pstep(f: nat, e: Expr) -> Expr {
    spec_iterate(pstep_rule(), f, e)
}

/// What `is_nf` returns: no parallel step applies anywhere in the term.
pub open spec fn spec_is_nf(e: Expr) -> bool
    decreases e,
{
    match e {
        Expr::Var(_) => true,
        Expr::Bool(_) => true,
        Expr::Abs(_, body) => spec_is_nf(*body),
        Expr::App(f, a) => !(*f matches Expr::Abs(_, _)) && spec_is_nf(*f) && spec_is_nf(*a),
    }
}

/// Whether a term is in normal form.
pub fn is_nf(expr: &Expr) -> (r: bool)
    ensures
        r == spec_is_nf(*expr),
    decreases *expr,
{
    match expr {
        Expr::Var(_) => true,
        Expr::Bool(_) => true,
        Expr::Abs(_, body) => is_nf(body),
        Expr::App(f, a) => match &**f {
            Expr::Abs(_, _) => false,
            _ => is_nf(f) && is_nf(a),
        },
    }
}

} // verus!
