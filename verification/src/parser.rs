//! The parser: recursive descent over the concrete syntax.
//!
//! The grammar, whitespace skipped greedily after every token:
//!
//! ```text
//! term        := subterm subterm*            left-associative applications
//! subterm     := variable | abstraction | "(" term ")"
//! abstraction := "\" number "." term
//! variable    := number
//! number      := digit+
//! ```
//!
//! Parsing fails, with no partial result, when no alternative matches,
//! when the input is not fully consumed after the top-level term, or
//! when a number does not fit `u32`.

use vstd::prelude::*;
use vstd::string::StrSliceExecFns;

use crate::term::Term;
use crate::term::TermSpec;

verus! {

/// Parse failure: the input is not a term of the grammar.
#[derive(Clone, Copy, Debug)]
pub struct ParseError {}

/// The recursive-descent parser over borrowed input text.
pub struct Parser {}

/// ASCII whitespace, insignificant between tokens.
pub open spec fn is_ws_char(c: char) -> bool {
    c == ' ' || c == '\t' || c == '\n' || c == '\r' || c == '\u{c}'
}

/// A decimal digit.
pub open spec fn is_digit_char(c: char) -> bool {
    c == '0' || c == '1' || c == '2' || c == '3' || c == '4' || c == '5' || c == '6' || c == '7'
        || c == '8' || c == '9'
}

/// The value of a decimal digit.
pub open spec fn digit_val(c: char) -> nat {
    if c == '0' {
        0
    } else if c == '1' {
        1
    } else if c == '2' {
        2
    } else if c == '3' {
        3
    } else if c == '4' {
        4
    } else if c == '5' {
        5
    } else if c == '6' {
        6
    } else if c == '7' {
        7
    } else if c == '8' {
        8
    } else {
        9
    }
}

/// The input with its leading whitespace removed.
pub open spec fn skip_ws(s: Seq<char>) -> Seq<char>
    decreases s.len(),
{
    if s.len() > 0 && is_ws_char(s[0]) {
        skip_ws(s.skip(1))
    } else {
        s
    }
}

/// How many decimal digits the input starts with.
pub open spec fn num_len(s: Seq<char>) -> nat
    decreases s.len(),
{
    if s.len() > 0 && is_digit_char(s[0]) {
        1 + num_len(s.skip(1))
    } else {
        0
    }
}

/// The value of the first `k` characters read as decimal digits.
pub open spec fn num_val(s: Seq<char>, k: nat) -> nat
    decreases k,
{
    if k == 0 {
        0
    } else {
        num_val(s, (k - 1) as nat) * 10 + digit_val(s[k - 1])
    }
}

/// One number token: its value and the input after it and any trailing
/// whitespace, or nothing where no digit leads or the value exceeds
/// `u32`.
pub open spec fn sp_number(s: Seq<char>) -> Option<(nat, Seq<char>)> {
    let k = num_len(s);
    if k == 0 || num_val(s, k) > u32::MAX {
        None
    } else {
        Some((num_val(s, k), skip_ws(s.skip(k as int))))
    }
}

/// One expected symbol: the input after it and any trailing whitespace,
/// or nothing where another character leads.
pub open spec fn sp_symbol(s: Seq<char>, c: char) -> Option<Seq<char>> {
    if s.len() > 0 && s[0] == c {
        Some(skip_ws(s.skip(1)))
    } else {
        None
    }
}

/// A term: one subterm followed by any further subterms, folded into
/// left-associated applications.
pub open spec fn sp_term(s: Seq<char>) -> Option<(TermSpec, Seq<char>)>
    decreases s.len(), 3int,
{
    match sp_sub(s) {
        Some((t, r)) => if r.len() < s.len() {
            Some(sp_term_more(t, r))
        } else {
            Some((t, r))
        },
        None => None,
    }
}

/// The remaining subterms of an application chain, folded onto what was
/// already parsed; where none follows, the chain so far.
pub open spec fn sp_term_more(acc: TermSpec, s: Seq<char>) -> (TermSpec, Seq<char>)
    decreases s.len(), 2int,
{
    match sp_sub(s) {
        Some((u, r)) => if r.len() < s.len() {
            sp_term_more(TermSpec::App(Box::new(acc), Box::new(u)), r)
        } else {
            (TermSpec::App(Box::new(acc), Box::new(u)), r)
        },
        None => (acc, s),
    }
}

/// One subterm: a variable, an abstraction, or a parenthesized term.
pub open spec fn sp_sub(s: Seq<char>) -> Option<(TermSpec, Seq<char>)>
    decreases s.len(), 1int,
{
    match sp_number(s) {
        Some((v, r)) => Some((TermSpec::Var(v), r)),
        None => match sp_abs(s) {
            Some(p) => Some(p),
            None => sp_parens(s),
        },
    }
}

/// One abstraction: a backslash, the binder label, a dot and the body,
/// which extends as far right as the grammar allows.
pub open spec fn sp_abs(s: Seq<char>) -> Option<(TermSpec, Seq<char>)>
    decreases s.len(), 0int,
{
    match sp_symbol(s, '\\') {
        Some(r1) => match sp_number(r1) {
            Some((l, r2)) => match sp_symbol(r2, '.') {
                Some(r3) => if r3.len() < s.len() {
                    match sp_term(r3) {
                        Some((b, r4)) => Some((TermSpec::Abs(l, Box::new(b)), r4)),
                        None => None,
                    }
                } else {
                    None
                },
                None => None,
            },
            None => None,
        },
        None => None,
    }
}

/// One parenthesized term.
pub open spec fn sp_parens(s: Seq<char>) -> Option<(TermSpec, Seq<char>)>
    decreases s.len(), 0int,
{
    match sp_symbol(s, '(') {
        Some(r1) => if r1.len() < s.len() {
            match sp_term(r1) {
                Some((t, r2)) => match sp_symbol(r2, ')') {
                    Some(r3) => Some((t, r3)),
                    None => None,
                },
                None => None,
            }
        } else {
            None
        },
        None => None,
    }
}

/// A whole input: one term, with nothing but whitespace after it.
pub open spec fn sp_parse(s: Seq<char>) -> Option<TermSpec> {
    match sp_term(s) {
        Some((t, r)) => if r.len() == 0 {
            Some(t)
        } else {
            None
        },
        None => None,
    }
}

/// Prefix values only grow as digits are appended.
proof fn lemma_num_val_grows(s: Seq<char>, j: nat, k: nat)
    requires
        j <= k,
    ensures
        num_val(s, j) <= num_val(s, k),
    decreases k,
{
    if j < k {
        lemma_num_val_grows(s, j, (k - 1) as nat);
    }
}

/// A run of leading digits bounds the digit count from below.
proof fn lemma_num_len_at_least(s: Seq<char>, j: nat)
    requires
        j <= s.len(),
        forall|i: nat| i < j ==> is_digit_char(#[trigger] s[i as int]),
    ensures
        num_len(s) >= j,
    decreases j,
{
    if j > 0 {
        assert(is_digit_char(s[0]));
        assert forall|i: nat| i < j - 1 implies is_digit_char(#[trigger] s.skip(1)[i as int]) by {
            assert(s[i + 1 as int] == s.skip(1)[i as int]);
            assert(is_digit_char(s[i + 1 as int]));
        }
        lemma_num_len_at_least(s.skip(1), (j - 1) as nat);
    }
}

/// A run of leading digits ending at a non-digit, or at the end of the
/// input, is the whole digit prefix.
pub proof fn lemma_num_len_exact(s: Seq<char>, j: nat)
    requires
        j <= s.len(),
        forall|i: nat| i < j ==> is_digit_char(#[trigger] s[i as int]),
        j == s.len() || !is_digit_char(s[j as int]),
    ensures
        num_len(s) == j,
    decreases j,
{
    if j == 0 {
    } else {
        assert(is_digit_char(s[0]));
        assert forall|i: nat| i < j - 1 implies is_digit_char(#[trigger] s.skip(1)[i as int]) by {
            assert(s[i + 1 as int] == s.skip(1)[i as int]);
            assert(is_digit_char(s[i + 1 as int]));
        }
        assert(j - 1 == s.skip(1).len() || !is_digit_char(s.skip(1)[j - 1]));
        lemma_num_len_exact(s.skip(1), (j - 1) as nat);
    }
}

/// Whether the character is ASCII whitespace.
fn is_ws(c: char) -> (r: bool)
    ensures
        r == is_ws_char(c),
{
    match c {
        ' ' | '\t' | '\n' | '\r' | '\u{c}' => true,
        _ => false,
    }
}

/// The digit's value, or nothing for a non-digit.
fn digit_of(c: char) -> (r: Option<u32>)
    ensures
        match r {
            Some(d) => is_digit_char(c) && d == digit_val(c) && d <= 9,
            None => !is_digit_char(c),
        },
{
    match c {
        '0' => Some(0),
        '1' => Some(1),
        '2' => Some(2),
        '3' => Some(3),
        '4' => Some(4),
        '5' => Some(5),
        '6' => Some(6),
        '7' => Some(7),
        '8' => Some(8),
        '9' => Some(9),
        _ => None,
    }
}

/// The position after the whitespace run starting at `pos`.
fn ws_end(s: &str, n: usize, pos: usize) -> (p2: usize)
    requires
        n == s@.len(),
        pos <= n,
    ensures
        pos <= p2 <= n,
        s@.skip(p2 as int) == skip_ws(s@.skip(pos as int)),
{
    let mut p = pos;
    while p < n && is_ws(s.get_char(p))
        invariant
            pos <= p <= n,
            n == s@.len(),
            skip_ws(s@.skip(pos as int)) == skip_ws(s@.skip(p as int)),
        decreases n - p,
    {
        proof {
            assert(s@.skip(p as int)[0] == s@[p as int]);
            assert(s@.skip(p as int).skip(1) =~= s@.skip(p + 1 as int));
        }
        p = p + 1;
    }
    proof {
        if p < n {
            assert(s@.skip(p as int)[0] == s@[p as int]);
        }
        assert(skip_ws(s@.skip(p as int)) == s@.skip(p as int));
    }
    p
}

impl Parser {
    /// One number token with its trailing whitespace skipped.
    fn parse_number(s: &str, n: usize, pos: usize) -> (r: Option<(u32, usize)>)
        requires
            n == s@.len(),
            pos <= n,
        ensures
            match r {
                Some((v, p2)) => pos < p2 <= n && sp_number(s@.skip(pos as int)) == Some(
                    (v as nat, s@.skip(p2 as int)),
                ),
                None => sp_number(s@.skip(pos as int)) is None,
            },
    {
        let ghost suffix = s@.skip(pos as int);
        let mut p = pos;
        let mut acc: u32 = 0;
        loop
            invariant
                pos <= p <= n,
                n == s@.len(),
                suffix == s@.skip(pos as int),
                forall|i: nat| i < p - pos ==> is_digit_char(#[trigger] suffix[i as int]),
                acc == num_val(suffix, (p - pos) as nat),
            ensures
                pos <= p <= n,
                suffix == s@.skip(pos as int),
                forall|i: nat| i < p - pos ==> is_digit_char(#[trigger] suffix[i as int]),
                acc == num_val(suffix, (p - pos) as nat),
                p == n || !is_digit_char(suffix[p - pos]),
            decreases n - p,
        {
            proof {
                if p < n {
                    assert(suffix[p - pos] == s@[p as int]);
                }
            }
            if p == n {
                break ;
            }
            let d = match digit_of(s.get_char(p)) {
                Some(d) => d,
                None => {
                    break ;
                },
            };
            if acc > (u32::MAX - d) / 10 {
                proof {
                    let j = (p + 1 - pos) as nat;
                    assert(num_val(suffix, j) == num_val(suffix, (p - pos) as nat) * 10
                        + digit_val(suffix[p - pos]));
                    assert(num_val(suffix, j) > u32::MAX);
                    lemma_num_len_at_least(suffix, j);
                    lemma_num_val_grows(suffix, j, num_len(suffix));
                }
                return None;
            }
            proof {
                let j = (p + 1 - pos) as nat;
                assert(num_val(suffix, j) == num_val(suffix, (p - pos) as nat) * 10 + digit_val(
                    suffix[p - pos],
                ));
            }
            acc = acc * 10 + d;
            p = p + 1;
        }
        proof {
            let k = (p - pos) as nat;
            assert(p == n || !is_digit_char(suffix[p - pos]));
            lemma_num_len_exact(suffix, k);
        }
        if p == pos {
            return None;
        }
        let p2 = ws_end(s, n, p);
        proof {
            assert(suffix.skip((p - pos) as int) =~= s@.skip(p as int));
        }
        Some((acc, p2))
    }

    /// One expected symbol with its trailing whitespace skipped.
    fn parse_symbol(s: &str, n: usize, pos: usize, c: char) -> (r: Option<usize>)
        requires
            n == s@.len(),
            pos <= n,
        ensures
            match r {
                Some(p2) => pos < p2 <= n && sp_symbol(s@.skip(pos as int), c) == Some(
                    s@.skip(p2 as int),
                ),
                None => sp_symbol(s@.skip(pos as int), c) is None,
            },
    {
        proof {
            if pos < n {
                assert(s@.skip(pos as int)[0] == s@[pos as int]);
            }
        }
        if pos < n && s.get_char(pos) == c {
            proof {
                assert(s@.skip(pos as int).skip(1) =~= s@.skip(pos + 1 as int));
            }
            Some(ws_end(s, n, pos + 1))
        } else {
            None
        }
    }

    /// One term: subterms folded into left-associated applications.
    fn parse_term(s: &str, n: usize, pos: usize) -> (r: Option<(Term, usize)>)
        requires
            n == s@.len(),
            pos <= n,
        ensures
            match r {
                Some((t, p2)) => pos < p2 <= n && sp_term(s@.skip(pos as int)) == Some(
                    (t@, s@.skip(p2 as int)),
                ),
                None => sp_term(s@.skip(pos as int)) is None,
            },
        decreases n - pos, 3int,
    {
        match Self::parse_sub(s, n, pos) {
            None => None,
            Some((t0, p0)) => {
                proof {
                    assert(s@.skip(p0 as int).len() < s@.skip(pos as int).len());
                    assert(sp_term(s@.skip(pos as int)) == Some(
                        sp_term_more(t0@, s@.skip(p0 as int)),
                    ));
                }
                let mut acc = t0;
                let mut p = p0;
                loop
                    invariant
                        pos < p <= n,
                        n == s@.len(),
                        sp_term(s@.skip(pos as int)) == Some(
                            sp_term_more(acc@, s@.skip(p as int)),
                        ),
                    decreases n - p,
                {
                    match Self::parse_sub(s, n, p) {
                        Some((u, p2)) => {
                            proof {
                                assert(s@.skip(p2 as int).len() < s@.skip(p as int).len());
                                assert(sp_term_more(acc@, s@.skip(p as int)) == sp_term_more(
                                    TermSpec::App(Box::new(acc@), Box::new(u@)),
                                    s@.skip(p2 as int),
                                ));
                            }
                            acc = Term::App(Box::new(acc), Box::new(u));
                            p = p2;
                        },
                        None => {
                            proof {
                                assert(sp_term_more(acc@, s@.skip(p as int)) == (
                                    acc@,
                                    s@.skip(p as int),
                                ));
                            }
                            return Some((acc, p));
                        },
                    }
                }
            },
        }
    }

    /// One subterm: a variable, an abstraction, or a parenthesized term.
    fn parse_sub(s: &str, n: usize, pos: usize) -> (r: Option<(Term, usize)>)
        requires
            n == s@.len(),
            pos <= n,
        ensures
            match r {
                Some((t, p2)) => pos < p2 <= n && sp_sub(s@.skip(pos as int)) == Some(
                    (t@, s@.skip(p2 as int)),
                ),
                None => sp_sub(s@.skip(pos as int)) is None,
            },
        decreases n - pos, 1int,
    {
        match Self::parse_number(s, n, pos) {
            Some((v, p2)) => Some((Term::Var(v), p2)),
            None => match Self::parse_abs(s, n, pos) {
                Some(r) => Some(r),
                None => Self::parse_parens(s, n, pos),
            },
        }
    }

    /// One abstraction: `\`, the binder label, `.`, then the body.
    fn parse_abs(s: &str, n: usize, pos: usize) -> (r: Option<(Term, usize)>)
        requires
            n == s@.len(),
            pos <= n,
        ensures
            match r {
                Some((t, p2)) => pos < p2 <= n && sp_abs(s@.skip(pos as int)) == Some(
                    (t@, s@.skip(p2 as int)),
                ),
                None => sp_abs(s@.skip(pos as int)) is None,
            },
        decreases n - pos, 0int,
    {
        let p1 = match Self::parse_symbol(s, n, pos, '\\') {
            Some(p1) => p1,
            None => {
                return None;
            },
        };
        let (l, p2) = match Self::parse_number(s, n, p1) {
            Some(x) => x,
            None => {
                return None;
            },
        };
        let p3 = match Self::parse_symbol(s, n, p2, '.') {
            Some(p3) => p3,
            None => {
                return None;
            },
        };
        proof {
            assert(s@.skip(p3 as int).len() < s@.skip(pos as int).len());
        }
        match Self::parse_term(s, n, p3) {
            Some((b, p4)) => Some((Term::Abs(l, Box::new(b)), p4)),
            None => None,
        }
    }

    /// One parenthesized term.
    fn parse_parens(s: &str, n: usize, pos: usize) -> (r: Option<(Term, usize)>)
        requires
            n == s@.len(),
            pos <= n,
        ensures
            match r {
                Some((t, p2)) => pos < p2 <= n && sp_parens(s@.skip(pos as int)) == Some(
                    (t@, s@.skip(p2 as int)),
                ),
                None => sp_parens(s@.skip(pos as int)) is None,
            },
        decreases n - pos, 0int,
    {
        let p1 = match Self::parse_symbol(s, n, pos, '(') {
            Some(p1) => p1,
            None => {
                return None;
            },
        };
        proof {
            assert(s@.skip(p1 as int).len() < s@.skip(pos as int).len());
        }
        let (t, p2) = match Self::parse_term(s, n, p1) {
            Some(x) => x,
            None => {
                return None;
            },
        };
        match Self::parse_symbol(s, n, p2, ')') {
            Some(p3) => Some((t, p3)),
            None => None,
        }
    }

    /// Parse a whole input into a term. The input must hold exactly one
    /// term of the grammar, with whitespace free between tokens; any
    /// other text, trailing text included, is a `ParseError`.
    pub fn parse(s: &str) -> (r: Result<Term, ParseError>)
        ensures
            match r {
                Ok(t) => sp_parse(s@) == Some(t@),
                Err(_) => sp_parse(s@) is None,
            },
    {
        let n = s.unicode_len();
        proof {
            assert(s@.skip(0) =~= s@);
        }
        match Self::parse_term(s, n, 0) {
            Some((t, p)) => if p == n {
                proof {
                    assert(s@.skip(p as int).len() == 0);
                }
                Ok(t)
            } else {
                proof {
                    assert(s@.skip(p as int).len() > 0);
                }
                Err(ParseError {  })
            },
            None => Err(ParseError {  }),
        }
    }
}

impl core::str::FromStr for Term {
    type Err = ParseError;

    /// Parse the concrete syntax, as `Parser::parse` does.
    fn from_str(s: &str) -> Result<Term, ParseError> {
        Parser::parse(s)
    }
}

} // verus!
