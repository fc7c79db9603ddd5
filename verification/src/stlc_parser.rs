//! The s-expression front end of the lambda-calculus workload: a
//! tokenizer, a parenthesis parser, and the readers that turn parsed
//! s-expressions into types and terms.

use vstd::prelude::*;
use vstd::string::*;

use crate::stlc::{Expr, Typ};

verus! {

broadcast use vstd::seq::axiom_seq_index_decreases, vstd::seq::axiom_seq_subrange_decreases, vstd::std_specs::vec::axiom_vec_index_decreases, vstd::std_specs::vec::axiom_vec_decreases_to_view;

/// A parsed s-expression: an atom or a parenthesized list.
#[derive(Debug, PartialEq, Eq)]
pub enum Sexp {
    Atom(String),
    List(Vec<Sexp>),
}

/// The mathematical shape of an s-expression: atoms as plain character
/// sequences.
pub enum SexpV {
    Atom(Seq<char>),
    List(Seq<SexpV>),
}

/// The shape of an s-expression value.
pub open spec fn sexp_view(s: Sexp) -> SexpV
    decreases s,
{
    match s {
        Sexp::Atom(a) => SexpV::Atom(a@),
        Sexp::List(items) => SexpV::List(sexp_views(items@)),
    }
}

/// The shapes of a sequence of s-expressions.
pub open spec fn sexp_views(l: Seq<Sexp>) -> Seq<SexpV>
    decreases l,
{
    if l.len() == 0 {
        Seq::empty()
    } else {
        seq![sexp_view(l[0])] + sexp_views(l.subrange(1, l.len() as int))
    }
}

/// The shape sequence is the element-wise shape.
pub proof fn lemma_sexp_views_index(l: Seq<Sexp>)
    ensures
        sexp_views(l).len() == l.len(),
        forall|i: int| 0 <= i < l.len() ==> sexp_views(l)[i] == sexp_view(l[i]),
    decreases l.len(),
{
    if l.len() > 0 {
        let rest = l.subrange(1, l.len() as int);
        lemma_sexp_views_index(rest);
        assert(forall|i: int| 0 <= i < rest.len() ==> #[trigger] rest[i] == l[i + 1]);
        assert(forall|i: int|
            1 <= i < l.len() ==> sexp_views(l)[i] == sexp_views(rest)[i - 1]);
    }
}

/// Whether a character splits tokens without becoming one.
pub open spec fn is_blank(c: char) -> bool {
    c == ' ' || c == '\n' || c == '\t'
}

/// Whether a character is a parenthesis, a one-character token.
pub open spec fn is_paren(c: char) -> bool {
    c == '(' || c == ')'
}

/// The tokens of the text from position `i`, with the current token
/// having started at `st`.
pub open spec fn spec_tokenize_from(s: Seq<char>, i: int, st: int) -> Seq<Seq<char>>
    decreases s.len() - i,
{
    if i < 0 || i >= s.len() {
        if st < s.len() {
            seq![s.subrange(st, s.len() as int)]
        } else {
            Seq::empty()
        }
    } else if is_paren(s[i]) {
        (if st < i {
            seq![s.subrange(st, i)]
        } else {
            Seq::empty()
        }) + seq![seq![s[i]]] + spec_tokenize_from(s, i + 1, i + 1)
    } else if is_blank(s[i]) {
        (if st < i {
            seq![s.subrange(st, i)]
        } else {
            Seq::empty()
        }) + spec_tokenize_from(s, i + 1, i + 1)
    } else {
        spec_tokenize_from(s, i + 1, st)
    }
}

/// What `tokenize` returns: maximal runs of non-blank, non-parenthesis
/// characters, with each parenthesis a token of its own.
pub open spec fn spec_tokenize(s: Seq<char>) -> Seq<Seq<char>> {
    spec_tokenize_from(s, 0, 0)
}

/// Splits the text into tokens.
pub fn tokenize(input: &str) -> (tokens: Vec<String>)
    ensures
        tokens.deep_view() == spec_tokenize(input@),
{
    let n = input.unicode_len();
    let mut tokens: Vec<String> = Vec::new();
    let mut i: usize = 0;
    let mut st: usize = 0;
    while i < n
        invariant
            0 <= st <= i <= n,
            n == input@.len(),
            spec_tokenize(input@) == tokens.deep_view() + spec_tokenize_from(
                input@,
                i as int,
                st as int,
            ),
        decreases n - i,
    {
        let ghost pre = tokens.deep_view();
        let c = input.get_char(i);
        if c == '(' || c == ')' {
            if st < i {
                let tok = input.substring_char(st, i).to_owned();
                tokens.push(tok);
            }
            let p = input.substring_char(i, i + 1).to_owned();
            tokens.push(p);
            proof {
                assert(seq![input@[i as int]] =~= input@.subrange(i as int, i + 1));
                if st < i {
                    assert(tokens.deep_view() =~= pre + seq![
                        input@.subrange(st as int, i as int),
                    ] + seq![seq![input@[i as int]]]);
                } else {
                    assert(tokens.deep_view() =~= pre + seq![seq![input@[i as int]]]);
                }
                assert(spec_tokenize(input@) == tokens.deep_view() + spec_tokenize_from(
                    input@,
                    i + 1,
                    i + 1,
                ));
            }
            i = i + 1;
            st = i;
        } else if c == ' ' || c == '\n' || c == '\t' {
            if st < i {
                let tok = input.substring_char(st, i).to_owned();
                tokens.push(tok);
                proof {
                    assert(tokens.deep_view() =~= pre + seq![
                        input@.subrange(st as int, i as int),
                    ]);
                }
            }
            proof {
                assert(spec_tokenize(input@) == tokens.deep_view() + spec_tokenize_from(
                    input@,
                    i + 1,
                    i + 1,
                ));
            }
            i = i + 1;
            st = i;
        } else {
            i = i + 1;
        }
    }
    if st < n {
        let ghost pre = tokens.deep_view();
        let tok = input.substring_char(st, n).to_owned();
        tokens.push(tok);
        proof {
            assert(tokens.deep_view() =~= pre + seq![
                input@.subrange(st as int, n as int),
            ]);
        }
    } else {
        proof {
            assert(tokens.deep_view() =~= tokens.deep_view() + Seq::<Seq<char>>::empty());
        }
    }
    tokens
}

/// Whole-text equality of two texts.
fn str_eq(a: &str, b: &str) -> (r: bool)
    ensures
        r == (a@ == b@),
{
    let n = a.unicode_len();
    let m = b.unicode_len();
    if n != m {
        return false;
    }
    let mut i: usize = 0;
    while i < n
        invariant
            0 <= i <= n,
            n == a@.len() && n == b@.len(),
            forall|j: int| 0 <= j < i ==> a@[j] == b@[j],
        decreases n - i,
    {
        if a.get_char(i) != b.get_char(i) {
            return false;
        }
        i = i + 1;
    }
    proof {
        assert(a@ =~= b@);
    }
    true
}

/// What the s-expression parser returns at `pos`, reading only tokens
/// before `end` and within a recursion budget: the parsed shape and the
/// position after it.
pub open spec fn spec_parse_sexp(toks: Seq<Seq<char>>, pos: int, end: int, f: nat) -> Option<
    (SexpV, int),
>
    decreases f, 0int,
{
    if pos < 0 || pos >= end {
        None
    } else if f == 0 {
        None
    } else if toks[pos] == seq!['('] {
        match spec_parse_list(toks, pos + 1, end, (f - 1) as nat) {
            None => None,
            Some((items, p)) => Some((SexpV::List(items), p)),
        }
    } else if toks[pos] == seq![')'] {
        None
    } else {
        Some((SexpV::Atom(toks[pos]), pos + 1))
    }
}

/// The list continuation of the s-expression parser: elements until a
/// closing parenthesis.
pub open spec fn spec_parse_list(toks: Seq<Seq<char>>, pos: int, end: int, f: nat) -> Option<
    (Seq<SexpV>, int),
>
    decreases f, 1int,
{
    if pos < 0 || pos >= end {
        None
    } else if toks[pos] == seq![')'] {
        Some((Seq::empty(), pos + 1))
    } else if f == 0 {
        None
    } else {
        match spec_parse_sexp(toks, pos, end, f) {
            None => None,
            Some((e, p2)) => match spec_parse_list(toks, p2, end, (f - 1) as nat) {
                None => None,
                Some((rest, p3)) => Some((seq![e] + rest, p3)),
            },
        }
    }
}

/// Parses one s-expression from `pos`, stopping before `end`.
fn parse_sexp_at(tokens: &Vec<String>, pos: usize, end: usize, f: usize) -> (res: Result<
    (Sexp, usize),
    String,
>)
    requires
        end <= tokens@.len(),
    ensures
        match res {
            Ok((sx, p)) => spec_parse_sexp(tokens.deep_view(), pos as int, end as int, f as nat)
                == Some((sexp_view(sx), p as int)) && pos < p <= end,
            Err(_) => spec_parse_sexp(tokens.deep_view(), pos as int, end as int, f as nat)
                is None,
        },
    decreases f, 0int,
{
    proof {
        reveal_strlit("Empty token stream");
        reveal_strlit("Unmatched (");
        reveal_strlit("Unmatched )");
        reveal_strlit("(");
        reveal_strlit(")");
    }
    if pos >= end {
        return Err(String::from_str("Empty token stream"));
    }
    if f == 0 {
        return Err(String::from_str("Unmatched ("));
    }
    let tok = &tokens[pos];
    proof {
        assert(tokens.deep_view()[pos as int] == tokens@[pos as int]@);
    }
    if str_eq(tok.as_str(), "(") {
        proof {
            assert(tokens.deep_view()[pos as int] =~= seq!['(']);
        }
        match parse_list_at(tokens, pos + 1, end, f - 1) {
            Err(e) => Err(e),
            Ok((items, p)) => Ok((Sexp::List(items), p)),
        }
    } else if str_eq(tok.as_str(), ")") {
        proof {
            assert(tokens.deep_view()[pos as int] =~= seq![')']);
        }
        Err(String::from_str("Unmatched )"))
    } else {
        proof {
            assert(tokens.deep_view()[pos as int] != seq!['(']) by {
                if tokens.deep_view()[pos as int] =~= seq!['('] {
                    assert(tokens@[pos as int]@ == "("@);
                }
            }
            assert(tokens.deep_view()[pos as int] != seq![')']) by {
                if tokens.deep_view()[pos as int] =~= seq![')'] {
                    assert(tokens@[pos as int]@ == ")"@);
                }
            }
        }
        Ok((Sexp::Atom(tok.clone()), pos + 1))
    }
}

/// Parses list elements until a closing parenthesis.
fn parse_list_at(tokens: &Vec<String>, pos: usize, end: usize, f: usize) -> (res: Result<
    (Vec<Sexp>, usize),
    String,
>)
    requires
        end <= tokens@.len(),
    ensures
        match res {
            Ok((items, p)) => spec_parse_list(tokens.deep_view(), pos as int, end as int, f as nat)
                == Some((sexp_views(items@), p as int)) && pos < p <= end,
            Err(_) => spec_parse_list(tokens.deep_view(), pos as int, end as int, f as nat)
                is None,
        },
    decreases f, 1int,
{
    proof {
        reveal_strlit("Unmatched (");
        reveal_strlit(")");
    }
    if pos >= end {
        return Err(String::from_str("Unmatched ("));
    }
    let tok = &tokens[pos];
    proof {
        assert(tokens.deep_view()[pos as int] == tokens@[pos as int]@);
    }
    if str_eq(tok.as_str(), ")") {
        proof {
            assert(tokens.deep_view()[pos as int] =~= seq![')']);
            assert(sexp_views(Seq::<Sexp>::empty()) =~= Seq::<SexpV>::empty());
            assert(sexp_views(Seq::<Sexp>::empty()) == Seq::<SexpV>::empty());
        }
        let items: Vec<Sexp> = Vec::new();
        Ok((items, pos + 1))
    } else if f == 0 {
        proof {
            assert(tokens.deep_view()[pos as int] != seq![')']) by {
                if tokens.deep_view()[pos as int] =~= seq![')'] {
                    assert(tokens@[pos as int]@ == ")"@);
                }
            }
        }
        Err(String::from_str("Unmatched ("))
    } else {
        proof {
            assert(tokens.deep_view()[pos as int] != seq![')']) by {
                if tokens.deep_view()[pos as int] =~= seq![')'] {
                    assert(tokens@[pos as int]@ == ")"@);
                }
            }
        }
        match parse_sexp_at(tokens, pos, end, f) {
            Err(e) => Err(e),
            Ok((elem, p2)) => match parse_list_at(tokens, p2, end, f - 1) {
                Err(e) => Err(e),
                Ok((rest, p3)) => {
                    let ghost rest_view = rest@;
                    let mut items = rest;
                    items.insert(0, elem);
                    proof {
                        assert(items@ =~= seq![elem] + rest_view);
                        assert(items@.len() > 0 && items@[0] == elem);
                        assert(items@.subrange(1, items@.len() as int) =~= rest_view);
                        assert(sexp_views(items@) == seq![sexp_view(elem)] + sexp_views(
                            rest_view,
                        ));
                    }
                    Ok((items, p3))
                },
            },
        }
    }
}

/// Parses the first s-expression of the token stream from `pos` and
/// reports where the rest begins.
pub fn parse_sexp(tokens: &Vec<String>, pos: usize) -> (res: Result<(Sexp, usize), String>)
    requires
        pos <= tokens@.len(),
    ensures
        match res {
            Ok((sx, p)) => spec_parse_sexp(
                tokens.deep_view(),
                pos as int,
                tokens@.len() as int,
                tokens@.len() as nat,
            ) == Some((sexp_view(sx), p as int)) && pos < p <= tokens@.len(),
            Err(_) => spec_parse_sexp(
                tokens.deep_view(),
                pos as int,
                tokens@.len() as int,
                tokens@.len() as nat,
            ) is None,
        },
{
    parse_sexp_at(tokens, pos, tokens.len(), tokens.len())
}

/// What `sexp_to_typ` accepts: the atom `TBool`, a singleton wrapping, or
/// a three-element `TFun` form.
pub open spec fn spec_sexp_to_typ(sv: SexpV) -> Option<Typ>
    decreases sv,
{
    match sv {
        SexpV::Atom(a) => if a == "TBool"@ {
            Some(Typ::TBool)
        } else {
            None
        },
        SexpV::List(items) => if items.len() == 1 {
            spec_sexp_to_typ(items[0])
        } else if items.len() == 3 && (items[0] matches SexpV::Atom(tag) && tag == "TFun"@) {
            match (spec_sexp_to_typ(items[1]), spec_sexp_to_typ(items[2])) {
                (Some(t1), Some(t2)) => Some(Typ::TFun(Box::new(t1), Box::new(t2))),
                _ => None,
            }
        } else {
            None
        },
    }
}

/// Reads a type from a parsed s-expression.
pub fn sexp_to_typ(sexp: &Sexp) -> (res: Result<Typ, String>)
    ensures
        match res {
            Ok(t) => spec_sexp_to_typ(sexp_view(*sexp)) == Some(t),
            Err(_) => spec_sexp_to_typ(sexp_view(*sexp)) is None,
        },
    decreases *sexp,
{
    proof {
        reveal_strlit("TBool");
        reveal_strlit("TFun");
        reveal_strlit("Invalid TFun syntax");
        reveal_strlit("Invalid Typ expression");
    }
    match sexp {
        Sexp::Atom(a) => {
            if str_eq(a.as_str(), "TBool") {
                Ok(Typ::TBool)
            } else {
                Err(String::from_str("Invalid Typ expression"))
            }
        },
        Sexp::List(items) => {
            proof {
                lemma_sexp_views_index(items@);
            }
            if items.len() == 1 {
                proof {
                    assert(decreases_to!(*sexp => items@[0]));
                }
                sexp_to_typ(&items[0])
            } else if items.len() == 3 {
                let tag_ok = match &items[0] {
                    Sexp::Atom(tag) => str_eq(tag.as_str(), "TFun"),
                    _ => false,
                };
                if tag_ok {
                    proof {
                        assert(decreases_to!(*sexp => items@[1]));
                        assert(decreases_to!(*sexp => items@[2]));
                    }
                    match sexp_to_typ(&items[1]) {
                        Err(e) => Err(e),
                        Ok(t1) => match sexp_to_typ(&items[2]) {
                            Err(e) => Err(e),
                            Ok(t2) => Ok(Typ::TFun(Box::new(t1), Box::new(t2))),
                        },
                    }
                } else {
                    Err(String::from_str("Invalid TFun syntax"))
                }
            } else {
                Err(String::from_str("Invalid TFun syntax"))
            }
        },
    }
}

/// Whether a character is a decimal digit.
pub open spec fn is_digit_char(c: char) -> bool {
    '0' as u32 <= c as u32 <= '9' as u32
}

/// Reads a run of digits covering the rest of the atom, accumulating the
/// value; anything but a digit, or an oversized value, is refused.
pub open spec fn spec_atom_digits(a: Seq<char>, pos: int, acc: int) -> Option<int>
    decreases a.len() - pos,
{
    if pos < 0 || pos >= a.len() {
        Some(acc)
    } else if is_digit_char(a[pos]) {
        let acc2 = acc * 10 + (a[pos] as u32 - '0' as u32);
        if acc2 > 0x8000_0000 {
            None
        } else {
            spec_atom_digits(a, pos + 1, acc2)
        }
    } else {
        None
    }
}

/// What a numeric atom denotes: an optional sign, then digits to the end,
/// within the 32-bit signed range.
pub open spec fn spec_atom_i32(a: Seq<char>) -> Option<i32> {
    if a.len() == 0 {
        None
    } else {
        let neg = a[0] == '-';
        let signed = neg || a[0] == '+';
        let start: int = if signed {
            1
        } else {
            0
        };
        if start >= a.len() {
            None
        } else {
            match spec_atom_digits(a, start, 0) {
                None => None,
                Some(v) => if neg && v <= 0x8000_0000 {
                    Some((-v) as i32)
                } else if !neg && v < 0x8000_0000 {
                    Some(v as i32)
                } else {
                    None
                },
            }
        }
    }
}

/// Reads a run of digits to the end of the atom.
fn atom_digits(a: &str, pos: usize, acc: u64) -> (res: Option<u64>)
    requires
        pos <= a@.len(),
        acc <= 0x8000_0000,
    ensures
        match res {
            Some(v) => spec_atom_digits(a@, pos as int, acc as int) == Some(v as int) && v
                <= 0x8000_0000,
            None => spec_atom_digits(a@, pos as int, acc as int) is None,
        },
    decreases a@.len() - pos,
{
    if pos >= a.unicode_len() {
        Some(acc)
    } else {
        let c = a.get_char(pos);
        if '0' as u32 <= c as u32 && c as u32 <= '9' as u32 {
            let d = c as u32 - '0' as u32;
            let acc2 = acc * 10 + d as u64;
            if acc2 > 0x8000_0000 {
                None
            } else {
                atom_digits(a, pos + 1, acc2)
            }
        } else {
            None
        }
    }
}

/// Reads a signed 32-bit number covering the whole atom.
fn atom_i32(a: &str) -> (res: Option<i32>)
    ensures
        res == spec_atom_i32(a@),
{
    let n = a.unicode_len();
    if n == 0 {
        return None;
    }
    let c0 = a.get_char(0);
    let neg = c0 == '-';
    let signed = neg || c0 == '+';
    let start: usize = if signed {
        1
    } else {
        0
    };
    if start >= n {
        return None;
    }
    match atom_digits(a, start, 0) {
        None => None,
        Some(v) => {
            if neg && v <= 0x8000_0000 {
                let wide: i64 = -(v as i64);
                Some(wide as i32)
            } else if !neg && v < 0x8000_0000 {
                Some(v as i32)
            } else {
                None
            }
        },
    }
}

/// What `sexp_to_expr` accepts: the four tagged forms `Var`, `Bool`,
/// `Abs` and `App`.
pub open spec fn spec_sexp_to_expr(sv: SexpV) -> Option<Expr>
    decreases sv,
{
    match sv {
        SexpV::List(items) => if items.len() > 0 {
            match items[0] {
                SexpV::Atom(tag) => if tag == "Var"@ {
                    if items.len() == 2 {
                        match items[1] {
                            SexpV::Atom(nchars) => match spec_atom_i32(nchars) {
                                Some(v) => Some(Expr::Var(v)),
                                None => None,
                            },
                            _ => None,
                        }
                    } else {
                        None
                    }
                } else if tag == "Bool"@ {
                    if items.len() == 2 {
                        match items[1] {
                            SexpV::Atom(b) => if b == "#t"@ {
                                Some(Expr::Bool(true))
                            } else if b == "#f"@ {
                                Some(Expr::Bool(false))
                            } else {
                                None
                            },
                            _ => None,
                        }
                    } else {
                        None
                    }
                } else if tag == "Abs"@ {
                    if items.len() == 3 {
                        match spec_sexp_to_typ(items[1]) {
                            None => None,
                            Some(t) => match spec_sexp_to_expr(items[2]) {
                                None => None,
                                Some(body) => Some(Expr::Abs(t, Box::new(body))),
                            },
                        }
                    } else {
                        None
                    }
                } else if tag == "App"@ {
                    if items.len() == 3 {
                        match (spec_sexp_to_expr(items[1]), spec_sexp_to_expr(items[2])) {
                            (Some(f), Some(x)) => Some(Expr::App(Box::new(f), Box::new(x))),
                            _ => None,
                        }
                    } else {
                        None
                    }
                } else {
                    None
                },
                _ => None,
            }
        } else {
            None
        },
        _ => None,
    }
}

/// Reads a term from a parsed s-expression.
pub fn sexp_to_expr(sexp: &Sexp) -> (res: Result<Expr, String>)
    ensures
        match res {
            Ok(e) => spec_sexp_to_expr(sexp_view(*sexp)) == Some(e),
            Err(_) => spec_sexp_to_expr(sexp_view(*sexp)) is None,
        },
    decreases *sexp,
{
    proof {
        reveal_strlit("Var");
        reveal_strlit("Bool");
        reveal_strlit("Abs");
        reveal_strlit("App");
        reveal_strlit("#t");
        reveal_strlit("#f");
        reveal_strlit("Var expects 1 argument");
        reveal_strlit("Var expects atom");
        reveal_strlit("Invalid int");
        reveal_strlit("Bool expects 1 argument");
        reveal_strlit("Bool expects atom");
        reveal_strlit("Invalid bool");
        reveal_strlit("Abs expects 2 arguments");
        reveal_strlit("App expects 2 arguments");
        reveal_strlit("Unknown constructor");
        reveal_strlit("Expected atom as tag");
        reveal_strlit("Expected list");
    }
    match sexp {
        Sexp::List(items) => {
            proof {
                lemma_sexp_views_index(items@);
            }
            if items.len() == 0 {
                return Err(String::from_str("Expected list"));
            }
            match &items[0] {
                Sexp::Atom(tag) => {
                    if str_eq(tag.as_str(), "Var") {
                        if items.len() != 2 {
                            return Err(String::from_str("Var expects 1 argument"));
                        }
                        match &items[1] {
                            Sexp::Atom(nstr) => match atom_i32(nstr.as_str()) {
                                Some(v) => Ok(Expr::Var(v)),
                                None => Err(String::from_str("Invalid int")),
                            },
                            _ => Err(String::from_str("Var expects atom")),
                        }
                    } else if str_eq(tag.as_str(), "Bool") {
                        if items.len() != 2 {
                            return Err(String::from_str("Bool expects 1 argument"));
                        }
                        match &items[1] {
                            Sexp::Atom(b) => {
                                if str_eq(b.as_str(), "#t") {
                                    Ok(Expr::Bool(true))
                                } else if str_eq(b.as_str(), "#f") {
                                    Ok(Expr::Bool(false))
                                } else {
                                    Err(String::from_str("Invalid bool"))
                                }
                            },
                            _ => Err(String::from_str("Bool expects atom")),
                        }
                    } else if str_eq(tag.as_str(), "Abs") {
                        if items.len() != 3 {
                            return Err(String::from_str("Abs expects 2 arguments"));
                        }
                        match sexp_to_typ(&items[1]) {
                            Err(e) => Err(e),
                            Ok(t) => {
                                proof {
                                    assert(decreases_to!(*sexp => items@[2]));
                                }
                                match sexp_to_expr(&items[2]) {
                                    Err(e) => Err(e),
                                    Ok(body) => Ok(Expr::Abs(t, Box::new(body))),
                                }
                            },
                        }
                    } else if str_eq(tag.as_str(), "App") {
                        if items.len() != 3 {
                            return Err(String::from_str("App expects 2 arguments"));
                        }
                        proof {
                            assert(decreases_to!(*sexp => items@[1]));
                            assert(decreases_to!(*sexp => items@[2]));
                        }
                        match sexp_to_expr(&items[1]) {
                            Err(e) => Err(e),
                            Ok(f) => match sexp_to_expr(&items[2]) {
                                Err(e) => Err(e),
                                Ok(x) => Ok(Expr::App(Box::new(f), Box::new(x))),
                            },
                        }
                    } else {
                        Err(String::from_str("Unknown constructor"))
                    }
                },
                _ => Err(String::from_str("Expected atom as tag")),
            }
        },
        _ => Err(String::from_str("Expected list")),
    }
}

/// What `parse_expr` accepts: one s-expression covering all the tokens,
/// read as a term.
pub open spec fn spec_parse_expr(s: Seq<char>) -> Option<Expr> {
    let toks = spec_tokenize(s);
    match spec_parse_sexp(toks, 0, toks.len() as int, toks.len() as nat) {
        None => None,
        Some((sv, p)) => if p == toks.len() {
            spec_sexp_to_expr(sv)
        } else {
            None
        },
    }
}

/// Parses one term from its textual form.
pub fn parse_expr(input: &str) -> (res: Result<Expr, String>)
    ensures
        match res {
            Ok(e) => spec_parse_expr(input@) == Some(e),
            Err(_) => spec_parse_expr(input@) is None,
        },
{
    proof {
        reveal_strlit("Trailing tokens");
    }
    let tokens = tokenize(input);
    match parse_sexp(&tokens, 0) {
        Err(e) => Err(e),
        Ok((sexp, rest)) => {
            if rest != tokens.len() {
                return Err(String::from_str("Trailing tokens"));
            }
            sexp_to_expr(&sexp)
        },
    }
}

/// The elements parsed between the outer parentheses, each read as a term.
pub open spec fn spec_parse_exprs(toks: Seq<Seq<char>>, pos: int, end: int, f: nat) -> Option<
    Seq<Expr>,
>
    decreases f,
{
    if pos >= end {
        Some(Seq::empty())
    } else if f == 0 {
        None
    } else {
        match spec_parse_sexp(toks, pos, end, toks.len() as nat) {
            None => None,
            Some((sv, p2)) => match spec_sexp_to_expr(sv) {
                None => None,
                Some(e) => match spec_parse_exprs(toks, p2, end, (f - 1) as nat) {
                    None => None,
                    Some(rest) => Some(seq![e] + rest),
                },
            },
        }
    }
}

/// What `parse` accepts: an outer parenthesized list of terms.
pub open spec fn spec_parse(s: Seq<char>) -> Option<Seq<Expr>> {
    let toks = spec_tokenize(s);
    if toks.len() >= 2 && toks[0] == seq!['('] && toks[toks.len() - 1] == seq![')'] {
        spec_parse_exprs(toks, 1, toks.len() - 1, toks.len() as nat)
    } else {
        None
    }
}

/// Parses the elements between the outer parentheses.
fn parse_exprs_at(tokens: &Vec<String>, pos: usize, end: usize, f: usize) -> (res: Result<
    Vec<Expr>,
    String,
>)
    requires
        end <= tokens@.len(),
    ensures
        match res {
            Ok(es) => spec_parse_exprs(tokens.deep_view(), pos as int, end as int, f as nat)
                == Some(es@),
            Err(_) => spec_parse_exprs(tokens.deep_view(), pos as int, end as int, f as nat)
                is None,
        },
    decreases f,
{
    proof {
        reveal_strlit("Unmatched (");
    }
    if pos >= end {
        let es: Vec<Expr> = Vec::new();
        proof {
            assert(es@ =~= Seq::<Expr>::empty());
        }
        return Ok(es);
    }
    if f == 0 {
        return Err(String::from_str("Unmatched ("));
    }
    match parse_sexp_at(tokens, pos, end, tokens.len()) {
        Err(e) => Err(e),
        Ok((sexp, p2)) => match sexp_to_expr(&sexp) {
            Err(e) => Err(e),
            Ok(e) => match parse_exprs_at(tokens, p2, end, f - 1) {
                Err(err) => Err(err),
                Ok(rest) => {
                    let ghost rest_view = rest@;
                    let mut es = rest;
                    es.insert(0, e);
                    proof {
                        assert(es@ =~= seq![e] + rest_view);
                    }
                    Ok(es)
                },
            },
        },
    }
}

/// Parses a parenthesized batch of terms.
pub fn parse(input: &str) -> (res: Result<Vec<Expr>, String>)
    ensures
        match res {
            Ok(es) => spec_parse(input@) == Some(es@),
            Err(_) => spec_parse(input@) is None,
        },
{
    proof {
        reveal_strlit("Unmatched (");
        reveal_strlit("(");
        reveal_strlit(")");
    }
    let tokens = tokenize(input);
    let n = tokens.len();
    if n < 2 {
        return Err(String::from_str("Unmatched ("));
    }
    let first_ok = str_eq(tokens[0].as_str(), "(");
    let last_ok = str_eq(tokens[n - 1].as_str(), ")");
    proof {
        assert(tokens.deep_view()[0] == tokens@[0]@);
        assert(tokens.deep_view()[n - 1] == tokens@[n - 1]@);
        assert(seq!['('] =~= "("@);
        assert(seq![')'] =~= ")"@);
    }
    if !(first_ok && last_ok) {
        return Err(String::from_str("Unmatched ("));
    }
    parse_exprs_at(&tokens, 1, n - 1, n)
}

} // verus!
