//! The parenthesized textual encoding of trees: `(E)` for the empty tree,
//! `(T <color> <left> <key> <value> <right>)` for a node, with `(R)` and
//! `(B)` as the colors. The decoder accepts exactly what the encoder
//! writes and reports anything else as malformed.

use vstd::prelude::*;

use crate::rbt_tree::{size_s, Color, Tree};
use vstd::string::*;

verus! {

/// The character for one decimal digit.
pub open spec fn digit_char(d: nat) -> char {
    if d == 0 {
        '0'
    } else if d == 1 {
        '1'
    } else if d == 2 {
        '2'
    } else if d == 3 {
        '3'
    } else if d == 4 {
        '4'
    } else if d == 5 {
        '5'
    } else if d == 6 {
        '6'
    } else if d == 7 {
        '7'
    } else if d == 8 {
        '8'
    } else {
        '9'
    }
}

/// Decimal digits of a natural number, most significant first.
pub open spec fn spec_digits(n: nat) -> Seq<char>
    decreases n,
{
    if n < 10 {
        seq![digit_char(n)]
    } else {
        spec_digits(n / 10) + seq![digit_char(n % 10)]
    }
}

/// Decimal form of a signed number.
pub open spec fn spec_i32_chars(n: int) -> Seq<char> {
    if n < 0 {
        seq!['-'] + spec_digits((-n) as nat)
    } else {
        spec_digits(n as nat)
    }
}

/// The color token.
pub open spec fn spec_color_chars(c: Color) -> Seq<char> {
    match c {
        Color::R => seq!['(', 'R', ')'],
        Color::B => seq!['(', 'B', ')'],
    }
}

/// What `encode` writes.
pub open spec fn spec_encode(t: Tree) -> Seq<char>
    decreases t,
{
    match t {
        Tree::E => seq!['(', 'E', ')'],
        Tree::T(c, l, k, v, r) => seq!['(', 'T', ' '] + spec_color_chars(c) + seq![' ']
            + spec_encode(*l) + seq![' '] + spec_i32_chars(k as int) + seq![' ']
            + spec_i32_chars(v as int) + seq![' '] + spec_encode(*r) + seq![')'],
    }
}

/// One decimal digit as text.
fn digit_str(d: u64) -> (s: &'static str)
    requires
        d < 10,
    ensures
        s@ == seq![digit_char(d as nat)],
{
    proof {
        reveal_strlit("0");
        reveal_strlit("1");
        reveal_strlit("2");
        reveal_strlit("3");
        reveal_strlit("4");
        reveal_strlit("5");
        reveal_strlit("6");
        reveal_strlit("7");
        reveal_strlit("8");
        reveal_strlit("9");
    }
    if d == 0 {
        "0"
    } else if d == 1 {
        "1"
    } else if d == 2 {
        "2"
    } else if d == 3 {
        "3"
    } else if d == 4 {
        "4"
    } else if d == 5 {
        "5"
    } else if d == 6 {
        "6"
    } else if d == 7 {
        "7"
    } else if d == 8 {
        "8"
    } else {
        "9"
    }
}

/// Decimal digits of a natural number as text.
fn digits_string(n: u64) -> (s: String)
    ensures
        s@ == spec_digits(n as nat),
    decreases n,
{
    if n < 10 {
        String::from_str(digit_str(n))
    } else {
        let mut s = digits_string(n / 10);
        s.append(digit_str(n % 10));
        s
    }
}

/// Decimal form of a signed number as text.
fn i32_string(n: i32) -> (s: String)
    ensures
        s@ == spec_i32_chars(n as int),
{
    proof {
        reveal_strlit("-");
    }
    if n < 0 {
        let magnitude: u64 = (-(n as i64)) as u64;
        let mut s = String::from_str("-");
        let ds = digits_string(magnitude);
        s.append(ds.as_str());
        s
    } else {
        digits_string(n as u64)
    }
}

/// Writes a tree in the parenthesized symbolic form.
pub fn encode(t: &Tree) -> (s: String)
    ensures
        s@ == spec_encode(*t),
    decreases *t,
{
    proof {
        reveal_strlit("(E)");
        reveal_strlit("(T ");
        reveal_strlit("(R)");
        reveal_strlit("(B)");
        reveal_strlit(" ");
        reveal_strlit(")");
    }
    match t {
        Tree::E => String::from_str("(E)"),
        Tree::T(c, l, k, v, r) => {
            let mut s = String::from_str("(T ");
            match c {
                Color::R => s.append("(R)"),
                Color::B => s.append("(B)"),
            }
            s.append(" ");
            let ls = encode(l);
            s.append(ls.as_str());
            s.append(" ");
            let ks = i32_string(*k);
            s.append(ks.as_str());
            s.append(" ");
            let vs = i32_string(*v);
            s.append(vs.as_str());
            s.append(" ");
            let rs = encode(r);
            s.append(rs.as_str());
            s.append(")");
            s
        },
    }
}

/// Whether a character is a decimal digit.
pub open spec fn is_digit(c: char) -> bool {
    '0' as u32 <= c as u32 <= '9' as u32
}

/// Reads a run of digits from `pos`, accumulating onto `acc`; stops at the
/// first non-digit (or an oversized number) and reports where it stopped.
pub open spec fn spec_scan_digits(s: Seq<char>, pos: int, acc: int) -> Option<(int, int)>
    decreases s.len() - pos,
{
    if 0 <= pos < s.len() && is_digit(s[pos]) {
        let acc2 = acc * 10 + (s[pos] as u32 - '0' as u32);
        if acc2 > 0x8000_0000 {
            None
        } else {
            spec_scan_digits(s, pos + 1, acc2)
        }
    } else {
        Some((acc, pos))
    }
}

/// Parses a signed decimal number at `pos`: an optional minus sign, one or
/// more digits, and a value within the 32-bit signed range.
pub open spec fn spec_parse_i32(s: Seq<char>, pos: int) -> Option<(i32, int)> {
    let neg = 0 <= pos < s.len() && s[pos] == '-';
    let start = if neg {
        pos + 1
    } else {
        pos
    };
    if 0 <= start < s.len() && is_digit(s[start]) {
        match spec_scan_digits(s, start, 0) {
            None => None,
            Some((value, end)) => if neg && value <= 0x8000_0000 {
                Some(((-value) as i32, end))
            } else if !neg && value < 0x8000_0000 {
                Some((value as i32, end))
            } else {
                None
            },
        }
    } else {
        None
    }
}

/// Parses a color token at `pos`.
pub open spec fn spec_parse_color(s: Seq<char>, pos: int) -> Option<(Color, int)> {
    if pos + 3 <= s.len() && s[pos] == '(' && s[pos + 2] == ')' {
        if s[pos + 1] == 'R' {
            Some((Color::R, pos + 3))
        } else if s[pos + 1] == 'B' {
            Some((Color::B, pos + 3))
        } else {
            None
        }
    } else {
        None
    }
}

/// Parses a tree at `pos`, within a recursion budget.
pub open spec fn spec_parse_tree(s: Seq<char>, pos: int, f: nat) -> Option<(Tree, int)>
    decreases f,
{
    if f == 0 {
        None
    } else if pos + 3 <= s.len() && s[pos] == '(' && s[pos + 1] == 'E' && s[pos + 2] == ')' {
        Some((Tree::E, pos + 3))
    } else if pos + 3 <= s.len() && s[pos] == '(' && s[pos + 1] == 'T' && s[pos + 2] == ' ' {
        match spec_parse_color(s, pos + 3) {
            None => None,
            Some((c, p1)) => if p1 < s.len() && s[p1] == ' ' {
                match spec_parse_tree(s, p1 + 1, (f - 1) as nat) {
                    None => None,
                    Some((l, p2)) => if p2 < s.len() && s[p2] == ' ' {
                        match spec_parse_i32(s, p2 + 1) {
                            None => None,
                            Some((k, p3)) => if p3 < s.len() && s[p3] == ' ' {
                                match spec_parse_i32(s, p3 + 1) {
                                    None => None,
                                    Some((v, p4)) => if p4 < s.len() && s[p4] == ' ' {
                                        match spec_parse_tree(s, p4 + 1, (f - 1) as nat) {
                                            None => None,
                                            Some((r, p5)) => if p5 < s.len() && s[p5] == ')' {
                                                Some(
                                                    (
                                                        Tree::T(
                                                            c,
                                                            Box::new(l),
                                                            k,
                                                            v,
                                                            Box::new(r),
                                                        ),
                                                        p5 + 1,
                                                    ),
                                                )
                                            } else {
                                                None
                                            },
                                        }
                                    } else {
                                        None
                                    },
                                }
                            } else {
                                None
                            },
                        }
                    } else {
                        None
                    },
                }
            } else {
                None
            },
        }
    } else {
        None
    }
}

/// What `decode` returns: a full parse of the whole text.
pub open spec fn spec_decode(s: Seq<char>) -> Option<Tree> {
    match spec_parse_tree(s, 0, s.len()) {
        None => None,
        Some((t, end)) => if end == s.len() {
            Some(t)
        } else {
            None
        },
    }
}

/// The characters of a text, one by one.
fn chars_vec(s: &str) -> (v: Vec<char>)
    ensures
        v@ == s@,
{
    let n = s.unicode_len();
    let mut v: Vec<char> = Vec::new();
    let mut i: usize = 0;
    while i < n
        invariant
            0 <= i <= n,
            n == s@.len(),
            v@ == s@.subrange(0, i as int),
        decreases n - i,
    {
        let c = s.get_char(i);
        v.push(c);
        proof {
            assert(v@ =~= s@.subrange(0, i + 1));
        }
        i = i + 1;
    }
    proof {
        assert(v@ =~= s@);
    }
    v
}

/// Reads a run of digits, accumulating the value.
fn scan_digits(s: &Vec<char>, pos: usize, acc: u64) -> (res: Option<(u64, usize)>)
    requires
        pos <= s@.len(),
        acc <= 0x8000_0000,
    ensures
        match res {
            Some((value, end)) => spec_scan_digits(s@, pos as int, acc as int) == Some(
                (value as int, end as int),
            ) && value <= 0x8000_0000 && pos <= end <= s@.len(),
            None => spec_scan_digits(s@, pos as int, acc as int) is None,
        },
    decreases s@.len() - pos,
{
    if pos < s.len() {
        let c = s[pos];
        if '0' as u32 <= c as u32 && c as u32 <= '9' as u32 {
            let d = c as u32 - '0' as u32;
            let acc2 = acc * 10 + d as u64;
            if acc2 > 0x8000_0000 {
                None
            } else {
                scan_digits(s, pos + 1, acc2)
            }
        } else {
            Some((acc, pos))
        }
    } else {
        Some((acc, pos))
    }
}

/// Parses a signed decimal number.
fn parse_i32(s: &Vec<char>, pos: usize) -> (res: Option<(i32, usize)>)
    requires
        pos <= s@.len(),
    ensures
        match res {
            Some((value, end)) => spec_parse_i32(s@, pos as int) == Some(
                (value, end as int),
            ) && pos <= end <= s@.len(),
            None => spec_parse_i32(s@, pos as int) is None,
        },
{
    let neg = pos < s.len() && s[pos] == '-';
    let start = if neg {
        pos + 1
    } else {
        pos
    };
    if start < s.len() {
        let c = s[start];
        if '0' as u32 <= c as u32 && c as u32 <= '9' as u32 {
            match scan_digits(s, start, 0) {
                None => None,
                Some((value, end)) => {
                    if neg && value <= 0x8000_0000 {
                        let value_wide: i64 = -(value as i64);
                        Some((value_wide as i32, end))
                    } else if !neg && value < 0x8000_0000 {
                        Some((value as i32, end))
                    } else {
                        None
                    }
                },
            }
        } else {
            None
        }
    } else {
        None
    }
}

/// Parses a color token.
fn parse_color(s: &Vec<char>, pos: usize) -> (res: Option<(Color, usize)>)
    requires
        pos <= s@.len(),
    ensures
        match res {
            Some((c, end)) => spec_parse_color(s@, pos as int) == Some((c, end as int)) && pos
                <= end <= s@.len(),
            None => spec_parse_color(s@, pos as int) is None,
        },
{
    if s.len() - pos >= 3 && s[pos] == '(' && s[pos + 2] == ')' {
        if s[pos + 1] == 'R' {
            Some((Color::R, pos + 3))
        } else if s[pos + 1] == 'B' {
            Some((Color::B, pos + 3))
        } else {
            None
        }
    } else {
        None
    }
}

/// Parses a tree within a recursion budget.
fn parse_tree(s: &Vec<char>, pos: usize, f: usize) -> (res: Option<(Tree, usize)>)
    requires
        pos <= s@.len(),
    ensures
        match res {
            Some((t, end)) => spec_parse_tree(s@, pos as int, f as nat) == Some(
                (t, end as int),
            ) && pos <= end <= s@.len(),
            None => spec_parse_tree(s@, pos as int, f as nat) is None,
        },
    decreases f,
{
    if f == 0 {
        return None;
    }
    if s.len() - pos >= 3 && s[pos] == '(' && s[pos + 1] == 'E' && s[pos + 2] == ')' {
        Some((Tree::E, pos + 3))
    } else if s.len() - pos >= 3 && s[pos] == '(' && s[pos + 1] == 'T' && s[pos + 2] == ' ' {
        match parse_color(s, pos + 3) {
            None => None,
            Some((c, p1)) => {
                if p1 < s.len() && s[p1] == ' ' {
                    match parse_tree(s, p1 + 1, f - 1) {
                        None => None,
                        Some((l, p2)) => {
                            if p2 < s.len() && s[p2] == ' ' {
                                match parse_i32(s, p2 + 1) {
                                    None => None,
                                    Some((k, p3)) => {
                                        if p3 < s.len() && s[p3] == ' ' {
                                            match parse_i32(s, p3 + 1) {
                                                None => None,
                                                Some((v, p4)) => {
                                                    if p4 < s.len() && s[p4] == ' ' {
                                                        match parse_tree(s, p4 + 1, f - 1) {
                                                            None => None,
                                                            Some((r, p5)) => {
                                                                if p5 < s.len() && s[p5] == ')' {
                                                                    Some(
                                                                        (
                                                                            Tree::T(
                                                                                c,
                                                                                Box::new(l),
                                                                                k,
                                                                                v,
                                                                                Box::new(r),
                                                                            ),
                                                                            p5 + 1,
                                                                        ),
                                                                    )
                                                                } else {
                                                                    None
                                                                }
                                                            },
                                                        }
                                                    } else {
                                                        None
                                                    }
                                                },
                                            }
                                        } else {
                                            None
                                        }
                                    },
                                }
                            } else {
                                None
                            }
                        },
                    }
                } else {
                    None
                }
            },
        }
    } else {
        None
    }
}

/// Reads a tree back from its parenthesized symbolic form; `None` reports
/// malformed input.
pub fn decode(s: &str) -> (res: Option<Tree>)
    ensures
        res == spec_decode(s@),
{
    let v = chars_vec(s);
    let n = v.len();
    match parse_tree(&v, 0, n) {
        None => None,
        Some((t, end)) => {
            if end == n {
                Some(t)
            } else {
                None
            }
        },
    }
}

/// Powers of ten.
pub open spec fn pow10(n: nat) -> int
    decreases n,
{
    if n == 0 {
        1
    } else {
        10 * pow10((n - 1) as nat)
    }
}

/// Every character of the sequence is a decimal digit.
pub open spec fn all_digits(d: Seq<char>) -> bool {
    forall|i: int| 0 <= i < d.len() ==> is_digit(#[trigger] d[i])
}

/// The number denoted by a digit sequence, most significant first.
pub open spec fn digits_val(d: Seq<char>) -> int
    decreases d.len(),
{
    if d.len() == 0 {
        0
    } else {
        digits_val(d.drop_last()) * 10 + (d.last() as u32 - '0' as u32)
    }
}

/// Powers of ten are positive.
proof fn lemma_pow10_pos(n: nat)
    ensures
        pow10(n) >= 1,
    decreases n,
{
    if n > 0 {
        lemma_pow10_pos((n - 1) as nat);
    }
}

/// A digit sequence denotes a nonnegative number below its power of ten.
proof fn lemma_digits_val_bounds(d: Seq<char>)
    requires
        all_digits(d),
    ensures
        0 <= digits_val(d) < pow10(d.len()),
    decreases d.len(),
{
    reveal_with_fuel(digits_val, 3);
    if d.len() > 0 {
        assert(all_digits(d.drop_last())) by {
            assert(forall|i: int|
                0 <= i < d.len() - 1 ==> #[trigger] d.drop_last()[i] == d[i]);
        }
        lemma_digits_val_bounds(d.drop_last());
        let v = digits_val(d.drop_last());
        let p = pow10((d.len() - 1) as nat);
        let last_d = d.last() as u32 - '0' as u32;
        assert(is_digit(d.last()));
        assert(last_d < 10);
        assert(v * 10 + last_d < p * 10) by (nonlinear_arith)
            requires
                v < p,
                last_d < 10,
                0 <= v,
        ;
        assert(pow10(d.len()) == 10 * p);
    }
}

/// Splitting a digit sequence at its first character.
proof fn lemma_digits_val_first(d: Seq<char>)
    requires
        d.len() > 0,
    ensures
        digits_val(d) == (d[0] as u32 - '0' as u32) * pow10((d.len() - 1) as nat) + digits_val(
            d.skip(1),
        ),
    decreases d.len(),
{
    reveal_with_fuel(digits_val, 3);
    if d.len() == 1 {
        assert(d.drop_last().len() == 0);
        assert(d.skip(1).len() == 0);
        assert(d.last() == d[0]);
    } else {
        let dl = d.drop_last();
        assert(dl.len() == d.len() - 1 && dl[0] == d[0]);
        lemma_digits_val_first(dl);
        assert(d.skip(1).drop_last() =~= dl.skip(1));
        assert(d.skip(1).last() == d.last());
        assert(d.skip(1).len() == d.len() - 1);
        let head = d[0] as u32 - '0' as u32;
        let p = pow10((d.len() - 2) as nat);
        assert(digits_val(dl) == head * p + digits_val(dl.skip(1)));
        assert(digits_val(d) == (head * p + digits_val(dl.skip(1))) * 10 + (
        d.last() as u32 - '0' as u32));
        assert(digits_val(d.skip(1)) == digits_val(dl.skip(1)) * 10 + (d.last() as u32
            - '0' as u32));
        assert((head * p + digits_val(dl.skip(1))) * 10 == head * (10 * p) + digits_val(
            dl.skip(1),
        ) * 10) by (nonlinear_arith);
        assert(pow10((d.len() - 1) as nat) == 10 * p);
    }
}

/// The decimal digits of `n` denote `n`, start with no sign character,
/// and are at least one digit long.
proof fn lemma_spec_digits_val(n: nat)
    ensures
        all_digits(spec_digits(n)),
        digits_val(spec_digits(n)) == n,
        spec_digits(n).len() >= 1,
    decreases n,
{
    reveal_with_fuel(digits_val, 3);
    if n < 10 {
        let d = spec_digits(n);
        assert(d == seq![digit_char(n)]);
        assert(is_digit(digit_char(n)) && digit_char(n) as u32 - '0' as u32 == n);
        assert(d.drop_last().len() == 0);
    } else {
        lemma_spec_digits_val(n / 10);
        let hi = spec_digits(n / 10);
        let d = spec_digits(n);
        assert(d == hi + seq![digit_char(n % 10)]);
        assert(d.drop_last() =~= hi);
        assert(d.last() == digit_char(n % 10));
        assert(is_digit(digit_char(n % 10)) && digit_char(n % 10) as u32 - '0' as u32 == n
            % 10);
        assert(all_digits(d)) by {
            assert(forall|i: int| 0 <= i < hi.len() ==> #[trigger] d[i] == hi[i]);
        }
        assert(digits_val(d) == (n / 10) * 10 + n % 10);
    }
}

/// Scanning a digit run that sits at `pos` and ends before a non-digit
/// accumulates exactly its value, when the final value is in range.
proof fn lemma_scan_digits_exact(s: Seq<char>, pos: int, acc: int, d: Seq<char>)
    requires
        all_digits(d),
        0 <= pos,
        pos + d.len() <= s.len(),
        s.subrange(pos, pos + d.len()) == d,
        pos + d.len() == s.len() || !is_digit(s[pos + d.len()]),
        0 <= acc,
        acc * pow10(d.len()) + digits_val(d) <= 0x8000_0000,
    ensures
        spec_scan_digits(s, pos, acc) == Some(
            (acc * pow10(d.len()) + digits_val(d), pos + d.len()),
        ),
    decreases d.len(),
{
    lemma_pow10_pos(d.len());
    lemma_digits_val_bounds(d);
    if d.len() == 0 {
        assert(pos == s.len() || !is_digit(s[pos]));
    } else {
        assert(d[0] == s[pos]);
        assert(is_digit(s[pos]));
        let d0 = (s[pos] as u32 - '0' as u32) as int;
        let acc2 = acc * 10 + d0;
        let rest = d.skip(1);
        assert(all_digits(rest)) by {
            assert(forall|i: int| 0 <= i < rest.len() ==> #[trigger] rest[i] == d[i + 1]);
        }
        lemma_digits_val_first(d);
        assert(digits_val(d) == d0 * pow10((d.len() - 1) as nat) + digits_val(rest));
        assert(s.subrange(pos + 1, pos + 1 + rest.len()) =~= rest) by {
            assert(forall|i: int| 0 <= i < rest.len() ==> #[trigger] rest[i] == d[i + 1]);
        }
        assert(acc2 * pow10(rest.len()) + digits_val(rest) == acc * pow10(d.len())
            + digits_val(d)) by (nonlinear_arith)
            requires
                acc2 == acc * 10 + d0,
                pow10(d.len()) == 10 * pow10(rest.len()),
                digits_val(d) == d0 * pow10(rest.len()) + digits_val(rest),
                rest.len() == d.len() - 1,
        ;
        assert(pow10(d.len()) == 10 * pow10(rest.len()));
        lemma_digits_val_bounds(rest);
        lemma_pow10_pos(rest.len());
        assert(acc2 <= acc2 * pow10(rest.len()) + digits_val(rest)) by (nonlinear_arith)
            requires
                0 <= acc2,
                pow10(rest.len()) >= 1,
                0 <= digits_val(rest),
        ;
        assert(0 <= acc2);
        lemma_scan_digits_exact(s, pos + 1, acc2, rest);
    }
}

/// A decimal rendering of a number, followed by a non-digit, parses back
/// to exactly that number.
proof fn lemma_parse_i32_exact(s: Seq<char>, pos: int, n: i32)
    requires
        0 <= pos,
        pos + spec_i32_chars(n as int).len() <= s.len(),
        s.subrange(pos, pos + spec_i32_chars(n as int).len()) == spec_i32_chars(n as int),
        pos + spec_i32_chars(n as int).len() == s.len() || !is_digit(
            s[pos + spec_i32_chars(n as int).len()],
        ),
    ensures
        spec_parse_i32(s, pos) == Some((n, pos + spec_i32_chars(n as int).len())),
{
    let e = spec_i32_chars(n as int);
    assert(forall|i: int| 0 <= i < e.len() ==> s[pos + i] == #[trigger] e[i]) by {
        assert(forall|i: int|
            0 <= i < e.len() ==> #[trigger] s.subrange(pos, pos + e.len())[i] == s[pos + i]);
    }
    if n >= 0 {
        let d = spec_digits(n as nat);
        lemma_spec_digits_val(n as nat);
        assert(e == d);
        assert(d.len() >= 1 && is_digit(d[0]));
        assert(s[pos] == e[0] && e[0] == d[0]);
        assert(is_digit(s[pos]));
        assert(s[pos] != '-' && s[pos] != '+');
        assert(s.subrange(pos, pos + d.len()) =~= d) by {
            assert(forall|i: int|
                0 <= i < d.len() ==> s.subrange(pos, pos + d.len())[i] == s[pos + i] && s[pos
                    + i] == #[trigger] e[i]);
        }
        lemma_pow10_pos(d.len());
        lemma_scan_digits_exact(s, pos, 0, d);
        assert(0 * pow10(d.len()) + digits_val(d) == n);
        assert(n < 0x8000_0000);
    } else {
        let m = (-(n as int)) as nat;
        let d = spec_digits(m);
        lemma_spec_digits_val(m);
        assert(e == seq!['-'] + d);
        assert(e[0] == '-');
        assert(s[pos] == '-');
        assert(forall|i: int| 0 <= i < d.len() ==> #[trigger] d[i] == e[i + 1]);
        assert(s.subrange(pos + 1, pos + 1 + d.len()) =~= d) by {
            assert forall|i: int|
                0 <= i < d.len() implies s.subrange(pos + 1, pos + 1 + d.len())[i] == d[i] by {
                assert(d[i] == e[i + 1]);
                assert(s[pos + 1 + i] == e[i + 1]);
            }
        }
        assert(d.len() >= 1 && is_digit(d[0]));
        assert(s[pos + 1] == e[1] && e[1] == d[0]);
        lemma_pow10_pos(d.len());
        lemma_scan_digits_exact(s, pos + 1, 0, d);
        assert(0 * pow10(d.len()) + digits_val(d) == m);
        assert(m <= 0x8000_0000);
        assert((-(m as int)) as i32 == n);
    }
}

/// A color token parses back to its color.
proof fn lemma_parse_color_exact(s: Seq<char>, pos: int, c: Color)
    requires
        0 <= pos,
        pos + 3 <= s.len(),
        s.subrange(pos, pos + 3) == spec_color_chars(c),
    ensures
        spec_parse_color(s, pos) == Some((c, pos + 3)),
{
    let e = spec_color_chars(c);
    assert(forall|i: int| 0 <= i < 3 ==> s[pos + i] == #[trigger] e[i]) by {
        assert(forall|i: int| 0 <= i < 3 ==> #[trigger] s.subrange(pos, pos + 3)[i] == s[pos + i]);
    }
}

/// The encoding of a tree is longer than its node count.
proof fn lemma_encode_len(t: Tree)
    ensures
        spec_encode(t).len() >= size_s(t) + 1,
        spec_encode(t).len() >= 3,
    decreases t,
{
    match t {
        Tree::E => {},
        Tree::T(c, l, k, v, r) => {
            lemma_encode_len(*l);
            lemma_encode_len(*r);
        },
    }
}

/// An encoded tree sitting at `pos` parses back to exactly that tree,
/// given fuel for its depth.
#[verifier::rlimit(100)]
proof fn lemma_parse_encode(t: Tree, s: Seq<char>, pos: int, f: nat)
    requires
        0 <= pos,
        pos + spec_encode(t).len() <= s.len(),
        s.subrange(pos, pos + spec_encode(t).len()) == spec_encode(t),
        f >= size_s(t) + 1,
    ensures
        spec_parse_tree(s, pos, f) == Some((t, pos + spec_encode(t).len())),
    decreases t,
{
    let e = spec_encode(t);
    assert(forall|i: int| 0 <= i < e.len() ==> s[pos + i] == #[trigger] e[i]) by {
        assert(forall|i: int|
            0 <= i < e.len() ==> #[trigger] s.subrange(pos, pos + e.len())[i] == s[pos + i]);
    }
    match t {
        Tree::E => {
            assert(e[0] == '(' && e[1] == 'E' && e[2] == ')');
        },
        Tree::T(c, l, k, v, r) => {
            let cc = spec_color_chars(c);
            let el = spec_encode(*l);
            let kc = spec_i32_chars(k as int);
            let vc = spec_i32_chars(v as int);
            let er = spec_encode(*r);
            let o_l: int = 7;
            let o_k: int = 8 + el.len() as int;
            let o_v: int = 9 + el.len() as int + kc.len() as int;
            let o_r: int = 10 + el.len() as int + kc.len() as int + vc.len() as int;
            let o_close: int = 10 + el.len() as int + kc.len() as int + vc.len() as int + er.len() as int;
            assert(cc.len() == 3);
            assert(e.len() == o_close + 1);
            assert forall|i: int| 0 <= i < e.len() implies #[trigger] e[i] == (if i < 3 {
                seq!['(', 'T', ' '][i]
            } else if i < 6 {
                cc[i - 3]
            } else if i == 6 {
                ' '
            } else if i < o_l + el.len() {
                el[i - o_l]
            } else if i == o_l + el.len() {
                ' '
            } else if i < o_k + kc.len() {
                kc[i - o_k]
            } else if i == o_k + kc.len() {
                ' '
            } else if i < o_v + vc.len() {
                vc[i - o_v]
            } else if i == o_v + vc.len() {
                ' '
            } else if i < o_r + er.len() {
                er[i - o_r]
            } else {
                ')'
            }) by {
                assert(e == seq!['(', 'T', ' '] + cc + seq![' '] + el + seq![' '] + kc + seq![
                    ' ',
                ] + vc + seq![' '] + er + seq![')']);
            }
            assert(e[0] == '(' && e[1] == 'T' && e[2] == ' ');
            assert(e[1] != 'E');
            assert(e[0] == '(' && e[1] == 'T' && e[2] == ' ');
            assert(s[pos] == e[0] && s[pos + 1] == e[1] && s[pos + 2] == e[2]);
            // Color.
            assert(s.subrange(pos + 3, pos + 6) =~= cc) by {
                assert forall|i: int|
                    0 <= i < 3 implies s.subrange(pos + 3, pos + 6)[i] == cc[i] by {
                    assert(e[3 + i] == cc[i]);
                    assert(s[pos + 3 + i] == e[3 + i]);
                }
            }
            lemma_parse_color_exact(s, pos + 3, c);
            assert(e[6] == ' ' && s[pos + 6] == e[6]);
            // Left subtree.
            assert(s.subrange(pos + o_l, pos + o_l + el.len()) =~= el) by {
                assert forall|i: int|
                    0 <= i < el.len() implies s.subrange(pos + o_l, pos + o_l + el.len())[i]
                    == el[i] by {
                    assert(e[o_l + i] == el[i]);
                    assert(s[pos + o_l + i] == e[o_l + i]);
                }
            }
            lemma_encode_len(*l);
            lemma_encode_len(*r);
            lemma_parse_encode(*l, s, pos + o_l, (f - 1) as nat);
            assert(e[o_l + el.len()] == ' ' && s[pos + o_l + el.len()] == e[o_l + el.len()]);
            // Key.
            assert(s.subrange(pos + o_k, pos + o_k + kc.len()) =~= kc) by {
                assert forall|i: int|
                    0 <= i < kc.len() implies s.subrange(pos + o_k, pos + o_k + kc.len())[i]
                    == kc[i] by {
                    assert(e[o_k + i] == kc[i]);
                    assert(s[pos + o_k + i] == e[o_k + i]);
                }
            }
            assert(e[o_k + kc.len()] == ' ' && s[pos + o_k + kc.len()] == e[o_k + kc.len()]);
            assert(!is_digit(' '));
            lemma_parse_i32_exact(s, pos + o_k, k);
            // Value.
            assert(s.subrange(pos + o_v, pos + o_v + vc.len()) =~= vc) by {
                assert forall|i: int|
                    0 <= i < vc.len() implies s.subrange(pos + o_v, pos + o_v + vc.len())[i]
                    == vc[i] by {
                    assert(e[o_v + i] == vc[i]);
                    assert(s[pos + o_v + i] == e[o_v + i]);
                }
            }
            assert(e[o_v + vc.len()] == ' ' && s[pos + o_v + vc.len()] == e[o_v + vc.len()]);
            lemma_parse_i32_exact(s, pos + o_v, v);
            // Right subtree.
            assert(s.subrange(pos + o_r, pos + o_r + er.len()) =~= er) by {
                assert forall|i: int|
                    0 <= i < er.len() implies s.subrange(pos + o_r, pos + o_r + er.len())[i]
                    == er[i] by {
                    assert(e[o_r + i] == er[i]);
                    assert(s[pos + o_r + i] == e[o_r + i]);
                }
            }
            lemma_parse_encode(*r, s, pos + o_r, (f - 1) as nat);
            assert(e[o_close] == ')' && s[pos + o_close] == e[o_close]);
        },
    }
}

/// The codec round trip: decoding an encoded tree reproduces it exactly.
pub proof fn lemma_codec_round_trip(t: Tree)
    ensures
        spec_decode(spec_encode(t)) == Some(t),
{
    let e = spec_encode(t);
    lemma_encode_len(t);
    assert(e.subrange(0, e.len() as int) =~= e);
    lemma_parse_encode(t, e, 0, e.len());
}

} // verus!
