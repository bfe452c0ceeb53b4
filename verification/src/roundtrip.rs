//! The round trip: whatever the printer renders, the parser reads back,
//! and it reads back the very same term.
//!
//! The proof follows the printer's shape. A printed number is one
//! number token; a printed chain element is one subterm; a printed
//! application chain folds back left-associatively; a printed
//! abstraction or parenthesized term closes at the `)` or at the end of
//! the input that follows it. Each statement carries the text that
//! follows the printed fragment, constrained just enough — no leading
//! digit after a number, a closing parenthesis or nothing after a body —
//! to match every context the printer creates.

use vstd::prelude::*;

use crate::parser::digit_val;
use crate::parser::is_digit_char;
use crate::parser::is_ws_char;
use crate::parser::lemma_num_len_exact;
use crate::parser::num_val;
use crate::parser::skip_ws;
use crate::parser::sp_abs;
use crate::parser::sp_number;
use crate::parser::sp_parens;
use crate::parser::sp_parse;
use crate::parser::sp_sub;
use crate::parser::sp_symbol;
use crate::parser::sp_term;
use crate::parser::sp_term_more;
use crate::printer::dec_digits;
use crate::printer::digit_char;
use crate::printer::printed;
use crate::printer::printed_elem;
use crate::printer::printed_fun;
use crate::alpha::alpha_eq;
use crate::alpha::lemma_alpha_refl;
use crate::term::fits;
use crate::term::Term;
use crate::term::TermSpec;

verus! {

/// Skipping whitespace leaves input that starts with none alone.
proof fn lemma_skip_ws_noop(s: Seq<char>)
    requires
        s.len() == 0 || !is_ws_char(s[0]),
    ensures
        skip_ws(s) == s,
{
}

/// The digit characters carry their values.
proof fn lemma_digit_char_val(d: nat)
    requires
        d < 10,
    ensures
        is_digit_char(digit_char(d)),
        digit_val(digit_char(d)) == d,
{
}

/// A number prints as at least one character, all of them digits.
proof fn lemma_dec_digits_all(n: nat)
    ensures
        dec_digits(n).len() >= 1,
        forall|i: int| 0 <= i < dec_digits(n).len() ==> is_digit_char(#[trigger] dec_digits(n)[i]),
    decreases n,
{
    if n < 10 {
        lemma_digit_char_val(n);
    } else {
        lemma_dec_digits_all(n / 10);
        lemma_digit_char_val(n % 10);
        assert forall|i: int| 0 <= i < dec_digits(n).len() implies is_digit_char(
            #[trigger] dec_digits(n)[i],
        ) by {
            if i < dec_digits(n / 10).len() {
                assert(dec_digits(n)[i] == dec_digits(n / 10)[i]);
            } else {
                assert(dec_digits(n)[i] == digit_char(n % 10));
            }
        }
    }
}

/// Reading back the printed digits of a number recovers its value,
/// whatever follows them.
proof fn lemma_dec_val(n: nat, rest: Seq<char>)
    ensures
        num_val(dec_digits(n) + rest, dec_digits(n).len() as nat) == n,
    decreases n,
{
    let s = dec_digits(n) + rest;
    if n < 10 {
        lemma_digit_char_val(n);
        assert(s[0] == digit_char(n));
        assert(num_val(s, 0) == 0);
    } else {
        let d = dec_digits(n / 10);
        let k = dec_digits(n).len() as nat;
        lemma_digit_char_val(n % 10);
        assert(s =~= d + (seq![digit_char(n % 10)] + rest));
        lemma_dec_val(n / 10, seq![digit_char(n % 10)] + rest);
        assert(num_val(s, (k - 1) as nat) == n / 10);
        assert(s[k - 1] == digit_char(n % 10));
        assert(num_val(s, k) == (n / 10) * 10 + n % 10);
        assert((n / 10) * 10 + n % 10 == n) by (nonlinear_arith);
    }
}

/// A printed number, followed by anything but a digit, parses as one
/// number token carrying the printed value.
proof fn lemma_number_round(n: nat, rest: Seq<char>)
    requires
        n <= u32::MAX,
        rest.len() == 0 || !is_digit_char(rest[0]),
    ensures
        sp_number(dec_digits(n) + rest) == Some((n, skip_ws(rest))),
{
    let dd = dec_digits(n);
    let s = dd + rest;
    lemma_dec_digits_all(n);
    assert forall|i: nat| i < dd.len() implies is_digit_char(#[trigger] s[i as int]) by {
        assert(s[i as int] == dd[i as int]);
    }
    if rest.len() > 0 {
        assert(s[dd.len() as int] == rest[0]);
    }
    lemma_num_len_exact(s, dd.len() as nat);
    lemma_dec_val(n, rest);
    assert(s.skip(dd.len() as int) =~= rest);
}

/// Input that is empty or starts at a closing parenthesis holds no
/// subterm.
proof fn lemma_stop(x: Seq<char>)
    requires
        x.len() == 0 || x[0] == ')',
    ensures
        sp_sub(x) is None,
{
    assert(sp_number(x) is None);
    assert(sp_abs(x) is None);
    assert(sp_parens(x) is None);
}

/// Whatever a term prints as begins with a digit, a backslash or an
/// opening parenthesis.
proof fn lemma_printed_head(t: TermSpec)
    ensures
        printed(t).len() >= 1,
        is_digit_char(printed(t)[0]) || printed(t)[0] == '\\' || printed(t)[0] == '(',
    decreases t, 1int,
{
    match t {
        TermSpec::Var(v) => {
            lemma_dec_digits_all(v);
        },
        TermSpec::Abs(_, _) => {},
        TermSpec::App(f, a) => {
            lemma_printed_fun_head(*f);
            assert(printed(t)[0] == printed_fun(*f)[0]);
        },
    }
}

/// Whatever a function position prints as begins with a digit or an
/// opening parenthesis.
proof fn lemma_printed_fun_head(f: TermSpec)
    ensures
        printed_fun(f).len() >= 1,
        is_digit_char(printed_fun(f)[0]) || printed_fun(f)[0] == '(',
    decreases f, 2int,
{
    match f {
        TermSpec::App(g, b) => {
            lemma_printed_fun_head(*g);
            assert(printed_fun(f)[0] == printed_fun(*g)[0]);
        },
        TermSpec::Var(v) => {
            lemma_dec_digits_all(v);
            assert(printed_elem(f) == printed(f));
            assert(printed_fun(f) == printed_elem(f) + seq![' ']);
            assert(printed_fun(f)[0] == printed_elem(f)[0]);
        },
        _ => {
            assert(printed_elem(f) == seq!['('] + printed(f) + seq![')']);
            assert(printed_elem(f)[0] == '(');
            assert(printed_fun(f) == printed_elem(f) + seq![' ']);
            assert(printed_fun(f)[0] == printed_elem(f)[0]);
        },
    }
}

/// A printed chain element, followed by anything but a digit, parses as
/// one subterm: the element itself, with the trailing text's leading
/// whitespace gone.
proof fn lemma_elem_round(t: TermSpec, rest: Seq<char>)
    requires
        fits(t),
        rest.len() == 0 || !is_digit_char(rest[0]),
    ensures
        sp_sub(printed_elem(t) + rest) == Some((t, skip_ws(rest))),
    decreases t, 5int,
{
    let s = printed_elem(t) + rest;
    match t {
        TermSpec::Var(v) => {
            assert(s =~= dec_digits(v) + rest);
            lemma_number_round(v, rest);
        },
        _ => {
            let inner = printed(t) + (seq![')'] + rest);
            assert(s =~= seq!['('] + inner);
            assert(s[0] == '(');
            assert(sp_number(s) is None) by {
                assert(!is_digit_char('('));
            }
            assert(sp_abs(s) is None);
            assert(sp_symbol(s, '(') is Some);
            assert(s.skip(1) =~= inner);
            lemma_printed_head(t);
            assert(inner[0] == printed(t)[0]);
            lemma_skip_ws_noop(inner);
            lemma_term_round(t, seq![')'] + rest);
            assert(sp_term(inner) == Some((t, seq![')'] + rest)));
            assert((seq![')'] + rest)[0] == ')');
            assert((seq![')'] + rest).skip(1) =~= rest);
            assert(sp_symbol(seq![')'] + rest, ')') == Some(skip_ws(rest)));
            assert(inner.len() < s.len());
            assert(sp_parens(s) == Some((t, skip_ws(rest))));
        },
    }
}

/// A bare printed abstraction, followed by a closing parenthesis or by
/// nothing, parses as that abstraction, ending right at the trailing
/// text.
proof fn lemma_abs_round(l: nat, b: TermSpec, x: Seq<char>)
    requires
        fits(TermSpec::Abs(l, Box::new(b))),
        x.len() == 0 || x[0] == ')',
    ensures
        sp_abs(printed(TermSpec::Abs(l, Box::new(b))) + x) == Some(
            (TermSpec::Abs(l, Box::new(b)), x),
        ),
    decreases b, 4int,
{
    let t = TermSpec::Abs(l, Box::new(b));
    let s = printed(t) + x;
    let r1 = dec_digits(l) + (seq!['.', ' '] + (printed(b) + x));
    assert(s =~= seq!['\\'] + r1);
    assert(s[0] == '\\');
    assert(s.skip(1) =~= r1);
    lemma_dec_digits_all(l);
    assert(r1[0] == dec_digits(l)[0]);
    lemma_skip_ws_noop(r1);
    assert(sp_symbol(s, '\\') == Some(r1));
    let r2 = seq!['.', ' '] + (printed(b) + x);
    assert(!is_digit_char('.'));
    lemma_number_round(l, r2);
    assert(sp_number(r1) == Some((l, skip_ws(r2))));
    lemma_skip_ws_noop(r2);
    assert(r2[0] == '.');
    assert(r2.skip(1) =~= seq![' '] + (printed(b) + x));
    assert(sp_symbol(r2, '.') == Some(skip_ws(seq![' '] + (printed(b) + x))));
    let r3 = printed(b) + x;
    assert(is_ws_char(' '));
    assert((seq![' '] + r3).skip(1) =~= r3);
    lemma_printed_head(b);
    assert(r3[0] == printed(b)[0]);
    lemma_skip_ws_noop(r3);
    assert(skip_ws(seq![' '] + r3) == r3);
    lemma_term_round(b, x);
    assert(sp_term(r3) == Some((b, x)));
    assert(r3.len() < s.len());
}

/// Running the chain fold over a printed function position folds the
/// whole left spine back on, then goes on with the text after it.
proof fn lemma_fun_round(f: TermSpec, y: Seq<char>)
    requires
        fits(f),
        y.len() > 0 && !is_ws_char(y[0]),
    ensures
        sp_term(printed_fun(f) + y) == Some(sp_term_more(f, y)),
    decreases f, 6int,
{
    let s = printed_fun(f) + y;
    match f {
        TermSpec::App(g, b) => {
            let y2 = printed_elem(*b) + (seq![' '] + y);
            assert(s =~= printed_fun(*g) + y2);
            lemma_elem_head(*b);
            assert(y2[0] == printed_elem(*b)[0]);
            lemma_fun_round(*g, y2);
            assert(sp_term(s) == Some(sp_term_more(*g, y2)));
            assert(!is_digit_char(' '));
            lemma_elem_round(*b, seq![' '] + y);
            assert(is_ws_char(' '));
            assert((seq![' '] + y).skip(1) =~= y);
            lemma_skip_ws_noop(y);
            assert(skip_ws(seq![' '] + y) == y);
            assert(sp_sub(y2) == Some((*b, y)));
            assert(y.len() < y2.len());
            assert(sp_term_more(*g, y2) == sp_term_more(TermSpec::App(g, b), y));
        },
        _ => {
            let y2 = printed_elem(f) + (seq![' '] + y);
            assert(s =~= y2);
            assert(!is_digit_char(' '));
            lemma_elem_round(f, seq![' '] + y);
            assert(is_ws_char(' '));
            assert((seq![' '] + y).skip(1) =~= y);
            lemma_skip_ws_noop(y);
            assert(skip_ws(seq![' '] + y) == y);
            assert(sp_sub(s) == Some((f, y)));
            assert(y.len() < s.len());
            assert(sp_term(s) == Some(sp_term_more(f, y)));
        },
    }
}

/// A chain element starts with a digit or an opening parenthesis.
proof fn lemma_elem_head(t: TermSpec)
    ensures
        printed_elem(t).len() >= 1,
        is_digit_char(printed_elem(t)[0]) || printed_elem(t)[0] == '(',
{
    match t {
        TermSpec::Var(v) => {
            lemma_dec_digits_all(v);
        },
        _ => {
            assert(printed_elem(t)[0] == '(');
        },
    }
}

/// A printed term, followed by a closing parenthesis or by nothing,
/// parses as that term, ending right at the trailing text.
#[verifier::rlimit(60)]
proof fn lemma_term_round(t: TermSpec, x: Seq<char>)
    requires
        fits(t),
        x.len() == 0 || x[0] == ')',
    ensures
        sp_term(printed(t) + x) == Some((t, x)),
    decreases t, 3int,
{
    let s = printed(t) + x;
    match t {
        TermSpec::Var(v) => {
            assert(s =~= dec_digits(v) + x);
            assert(x.len() == 0 || !is_digit_char(x[0]));
            lemma_number_round(v, x);
            lemma_skip_ws_noop(x);
            assert(sp_sub(s) == Some((t, x)));
            lemma_dec_digits_all(v);
            assert(x.len() < s.len());
            lemma_stop(x);
            assert(sp_term_more(t, x) == (t, x));
        },
        TermSpec::Abs(l, b) => {
            lemma_abs_round(l, *b, x);
            assert(sp_number(s) is None) by {
                assert(s[0] == '\\');
                assert(!is_digit_char('\\'));
            }
            assert(sp_sub(s) == Some((t, x)));
            lemma_printed_head(t);
            assert(x.len() < s.len());
            lemma_stop(x);
            assert(sp_term_more(t, x) == (t, x));
        },
        TermSpec::App(f, a) => {
            assert(fits(*f) && fits(*a));
            let y = match *a {
                TermSpec::App(_, _) => seq!['('] + printed(*a) + seq![')'] + x,
                _ => printed(*a) + x,
            };
            assert(s =~= printed_fun(*f) + y);
            match *a {
                TermSpec::App(_, _) => {
                    assert(y[0] == '(');
                },
                _ => {
                    lemma_printed_head(*a);
                    assert(y[0] == printed(*a)[0]);
                },
            }
            lemma_fun_round(*f, y);
            assert(sp_term(s) == Some(sp_term_more(*f, y)));
            match *a {
                TermSpec::App(_, _) => {
                    let inner = printed(*a) + (seq![')'] + x);
                    assert(y =~= seq!['('] + inner);
                    assert(sp_number(y) is None) by {
                        assert(!is_digit_char('('));
                    }
                    assert(sp_abs(y) is None);
                    assert(y.skip(1) =~= inner);
                    lemma_printed_head(*a);
                    assert(inner[0] == printed(*a)[0]);
                    lemma_skip_ws_noop(inner);
                    assert(sp_symbol(y, '(') == Some(inner));
                    lemma_term_round(*a, seq![')'] + x);
                    assert(sp_term(inner) == Some((*a, seq![')'] + x)));
                    assert((seq![')'] + x)[0] == ')');
                    assert((seq![')'] + x).skip(1) =~= x);
                    lemma_skip_ws_noop(x);
                    assert(sp_symbol(seq![')'] + x, ')') == Some(x));
                    assert(inner.len() < y.len());
                    assert(sp_parens(y) == Some((*a, x)));
                    assert(sp_sub(y) == Some((*a, x)));
                },
                TermSpec::Var(v) => {
                    assert(y =~= dec_digits(v) + x);
                    assert(x.len() == 0 || !is_digit_char(x[0]));
                    lemma_number_round(v, x);
                    lemma_skip_ws_noop(x);
                    assert(sp_sub(y) == Some((*a, x)));
                },
                TermSpec::Abs(l2, b2) => {
                    lemma_abs_round(l2, *b2, x);
                    assert(sp_number(y) is None) by {
                        assert(y[0] == '\\');
                        assert(!is_digit_char('\\'));
                    }
                    assert(sp_sub(y) == Some((*a, x)));
                },
            }
            lemma_printed_head(*a);
            assert(x.len() < y.len());
            assert(sp_term_more(*f, y) == sp_term_more(t, x));
            lemma_stop(x);
            assert(sp_term_more(t, x) == (t, x));
        },
    }
}

/// The round trip: the rendering of any term parses, fully consumed,
/// back to that very term — so, a fortiori, to an alpha-equivalent one.
pub proof fn lemma_parse_format_round_trip(t: TermSpec)
    requires
        fits(t),
    ensures
        sp_parse(printed(t)) == Some(t),
{
    lemma_term_round(t, Seq::empty());
    assert(printed(t) + Seq::<char>::empty() =~= printed(t));
}

/// The round trip over the machine representation: every `Term` fits
/// `u32`, so parsing what any term formats succeeds, and the result is
/// the term itself, hence alpha-equivalent to it.
pub proof fn lemma_round_trip_for_terms(t: Term)
    ensures
        sp_parse(printed(t@)) == Some(t@),
        alpha_eq(t@, t@),
{
    Term::lemma_view_fits(&t);
    lemma_parse_format_round_trip(t@);
    lemma_alpha_refl(t@, Seq::empty());
}

} // verus!
