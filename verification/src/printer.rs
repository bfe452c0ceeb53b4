//! The printer: renders a term back to concrete syntax with minimal
//! parenthesization.
//!
//! A variable prints as its decimal index, an abstraction as
//! `\<label>. <body>`, and an application as its left spine flattened
//! into a chain: each element of the chain is bare when it is a
//! variable and parenthesized otherwise, and the final argument is
//! parenthesized exactly when it is itself an application.

use vstd::prelude::*;

use crate::term::Term;
use crate::term::TermSpec;

verus! {

/// The decimal digit character for a value below ten.
pub open spec fn digit_char(d: nat) -> char {
    if d == 0 {
        '0'
    } else if d == 1 {
        '1'
    } else if d == 2 {
        '2'
    } else if d == 3 {
        '3'
    } else if d == 4 {
        '4'
    } else if d == 5 {
        '5'
    } else if d == 6 {
        '6'
    } else if d == 7 {
        '7'
    } else if d == 8 {
        '8'
    } else {
        '9'
    }
}

/// The decimal digits of a number, most significant first.
pub open spec fn dec_digits(n: nat) -> Seq<char>
    decreases n,
{
    if n < 10 {
        seq![digit_char(n)]
    } else {
        dec_digits(n / 10) + seq![digit_char(n % 10)]
    }
}

/// What a term prints as.
pub open spec fn printed(t: TermSpec) -> Seq<char>
    decreases t, 0int,
{
    match t {
        TermSpec::Var(v) => dec_digits(v),
        TermSpec::Abs(l, b) => seq!['\\'] + dec_digits(l) + seq!['.', ' '] + printed(*b),
        TermSpec::App(f, a) => printed_fun(*f) + (match *a {
            TermSpec::App(_, _) => seq!['('] + printed(*a) + seq![')'],
            _ => printed(*a),
        }),
    }
}

/// What one element of an application chain prints as: bare for a
/// variable, parenthesized otherwise.
pub open spec fn printed_elem(t: TermSpec) -> Seq<char>
    decreases t, 1int,
{
    match t {
        TermSpec::Var(_) => printed(t),
        _ => seq!['('] + printed(t) + seq![')'],
    }
}

/// What the function position of an application prints as: the left
/// spine, one element and one space at a time.
pub open spec fn printed_fun(f: TermSpec) -> Seq<char>
    decreases f, 2int,
{
    match f {
        TermSpec::App(g, b) => printed_fun(*g) + printed_elem(*b) + seq![' '],
        _ => printed_elem(f) + seq![' '],
    }
}

/// Append one decimal digit character.
fn push_digit(out: &mut String, d: u32)
    requires
        d < 10,
    ensures
        final(out)@ == old(out)@ + seq![digit_char(d as nat)],
{
    proof {
        reveal_strlit("0");
        reveal_strlit("1");
        reveal_strlit("2");
        reveal_strlit("3");
        reveal_strlit("4");
        reveal_strlit("5");
        reveal_strlit("6");
        reveal_strlit("7");
        reveal_strlit("8");
        reveal_strlit("9");
    }
    match d {
        0 => out.append("0"),
        1 => out.append("1"),
        2 => out.append("2"),
        3 => out.append("3"),
        4 => out.append("4"),
        5 => out.append("5"),
        6 => out.append("6"),
        7 => out.append("7"),
        8 => out.append("8"),
        _ => out.append("9"),
    }
    proof {
        assert(final(out)@ =~= old(out)@ + seq![digit_char(d as nat)]);
    }
}

/// Append the decimal rendering of a number.
fn push_number(out: &mut String, n: u32)
    ensures
        final(out)@ == old(out)@ + dec_digits(n as nat),
    decreases n,
{
    if n < 10 {
        push_digit(out, n);
    } else {
        push_number(out, n / 10);
        push_digit(out, n % 10);
        proof {
            assert(final(out)@ =~= old(out)@ + dec_digits(n as nat));
        }
    }
}

impl Term {
    /// Append the rendering of the term.
    fn write_term(&self, out: &mut String)
        ensures
            final(out)@ == old(out)@ + printed(self@),
        decreases self, 0int,
    {
        proof {
            reveal_strlit("\\");
            reveal_strlit(". ");
            reveal_strlit("(");
            reveal_strlit(")");
        }
        match self {
            Term::Var(v) => {
                push_number(out, *v);
            },
            Term::Abs(l, b) => {
                out.append("\\");
                push_number(out, *l);
                out.append(". ");
                b.write_term(out);
                proof {
                    assert(final(out)@ =~= old(out)@ + printed(self@));
                }
            },
            Term::App(f, a) => {
                f.write_fun(out);
                match &**a {
                    Term::App(_, _) => {
                        out.append("(");
                        a.write_term(out);
                        out.append(")");
                    },
                    _ => {
                        a.write_term(out);
                    },
                }
                proof {
                    assert(final(out)@ =~= old(out)@ + printed(self@));
                }
            },
        }
    }

    /// Append one chain element: bare for a variable, else in
    /// parentheses.
    fn write_elem(&self, out: &mut String)
        ensures
            final(out)@ == old(out)@ + printed_elem(self@),
        decreases self, 1int,
    {
        proof {
            reveal_strlit("(");
            reveal_strlit(")");
        }
        match self {
            Term::Var(_) => {
                self.write_term(out);
            },
            _ => {
                out.append("(");
                self.write_term(out);
                out.append(")");
                proof {
                    assert(final(out)@ =~= old(out)@ + printed_elem(self@));
                }
            },
        }
    }

    /// Append the function position of an application: the flattened
    /// left spine, each element followed by a space.
    fn write_fun(&self, out: &mut String)
        ensures
            final(out)@ == old(out)@ + printed_fun(self@),
        decreases self, 2int,
    {
        proof {
            reveal_strlit(" ");
        }
        match self {
            Term::App(g, b) => {
                g.write_fun(out);
                b.write_elem(out);
                out.append(" ");
                proof {
                    assert(final(out)@ =~= old(out)@ + printed_fun(self@));
                }
            },
            _ => {
                self.write_elem(out);
                out.append(" ");
                proof {
                    assert(final(out)@ =~= old(out)@ + printed_fun(self@));
                }
            },
        }
    }

    /// Render the term to its concrete syntax.
    pub fn format(&self) -> (r: String)
        ensures
            r@ == printed(self@),
    {
        let mut out = String::new();
        self.write_term(&mut out);
        proof {
            assert(out@ =~= printed(self@));
        }
        out
    }
}

} // verus!
