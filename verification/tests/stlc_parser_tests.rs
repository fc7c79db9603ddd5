use redblack::stlc::{Expr, Typ};
use redblack::stlc_parser::{parse, parse_expr, parse_sexp, sexp_to_expr, sexp_to_typ, tokenize, Sexp};

#[test]
fn test_tokenize() {
    let input = "(Var 42) (Bool #t) (Abs TBool (Var 1)) (App (Var 1) (Bool #f))";
    let tokens = tokenize(input);
    assert_eq!(
        tokens,
        vec![
            "(", "Var", "42", ")", "(", "Bool", "#t", ")", "(", "Abs", "TBool", "(", "Var", "1",
            ")", ")", "(", "App", "(", "Var", "1", ")", "(", "Bool", "#f", ")", ")"
        ]
    );
}

#[test]
fn test_parse_sexp() {
    let tokens = tokenize("((Var 42) (Bool #t) (Abs TBool (Var 1)))");
    let (sexp, rest) = parse_sexp(&tokens, 0).expect("Failed to parse S-expression");
    assert!(rest == tokens.len());
    assert_eq!(
        sexp,
        Sexp::List(vec![
            Sexp::List(vec![
                Sexp::Atom("Var".to_string()),
                Sexp::Atom("42".to_string())
            ]),
            Sexp::List(vec![
                Sexp::Atom("Bool".to_string()),
                Sexp::Atom("#t".to_string())
            ]),
            Sexp::List(vec![
                Sexp::Atom("Abs".to_string()),
                Sexp::Atom("TBool".to_string()),
                Sexp::List(vec![
                    Sexp::Atom("Var".to_string()),
                    Sexp::Atom("1".to_string())
                ])
            ])
        ])
    );
}

#[test]
fn test_sexp_to_typ() {
    let sexp = Sexp::List(vec![
        Sexp::Atom("TFun".to_string()),
        Sexp::Atom("TBool".to_string()),
        Sexp::Atom("TBool".to_string()),
    ]);
    let typ = sexp_to_typ(&sexp).expect("Failed to convert S-expression to Typ");
    assert_eq!(typ, Typ::TFun(Box::new(Typ::TBool), Box::new(Typ::TBool)));
}

#[test]
fn test_sexp_to_expr() {
    let sexp = Sexp::List(vec![
        Sexp::Atom("App".to_string()),
        Sexp::List(vec![
            Sexp::Atom("Var".to_string()),
            Sexp::Atom("1".to_string()),
        ]),
        Sexp::List(vec![
            Sexp::Atom("Bool".to_string()),
            Sexp::Atom("#t".to_string()),
        ]),
    ]);
    let expr = sexp_to_expr(&sexp).expect("Failed to convert S-expression to Expr");
    assert_eq!(
        expr,
        Expr::App(Box::new(Expr::Var(1)), Box::new(Expr::Bool(true)))
    );
}

#[test]
fn test_parse_expr() {
    let input = "(App (Var 1) (Bool #t))";
    let expr = parse_expr(input).expect("Failed to parse expression");
    assert_eq!(
        expr,
        Expr::App(Box::new(Expr::Var(1)), Box::new(Expr::Bool(true)))
    );
}

#[test]
fn test_parse() {
    let input = "((Var 1) (Bool #t) (Abs TBool (Var 2)))";
    let exprs = parse(input).expect("Failed to parse expressions");
    assert_eq!(
        exprs,
        vec![
            Expr::Var(1),
            Expr::Bool(true),
            Expr::Abs(Typ::TBool, Box::new(Expr::Var(2)))
        ]
    );
}

#[test]
fn test_parse_expr_negative_index() {
    let expr = parse_expr("(Var -3)").expect("Failed to parse expression");
    assert_eq!(expr, Expr::Var(-3));
}

#[test]
fn test_parse_expr_malformed() {
    assert!(parse_expr("").is_err());
    assert!(parse_expr("(Var 1) extra").is_err());
    assert!(parse_expr("(Var x)").is_err());
    assert!(parse_expr("(Boom 1)").is_err());
    assert!(parse_expr("(Var 1").is_err());
    assert!(parse_expr(")").is_err());
    assert!(parse_expr("(Var 99999999999)").is_err());
}

#[test]
fn test_sexp_to_typ_rejects() {
    assert!(sexp_to_typ(&Sexp::Atom("TInt".to_string())).is_err());
    assert!(sexp_to_typ(&Sexp::List(vec![])).is_err());
    assert!(sexp_to_typ(&Sexp::List(vec![
        Sexp::Atom("TFun".to_string()),
        Sexp::Atom("TBool".to_string()),
    ]))
    .is_err());
}

#[test]
fn test_sexp_to_typ_singleton_wrapping() {
    let sexp = Sexp::List(vec![Sexp::Atom("TBool".to_string())]);
    assert_eq!(sexp_to_typ(&sexp).unwrap(), Typ::TBool);
}
