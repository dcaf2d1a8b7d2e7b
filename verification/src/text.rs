//! Scores and values as text.

use crate::chess::Color;
use crate::eval::Eval;
use crate::score::Score;
use vstd::prelude::*;

verus! {

/// The character of a digit.
pub open spec fn digit(d: int) -> char {
    if d == 0 {
        '0'
    } else if d == 1 {
        '1'
    } else if d == 2 {
        '2'
    } else if d == 3 {
        '3'
    } else if d == 4 {
        '4'
    } else if d == 5 {
        '5'
    } else if d == 6 {
        '6'
    } else if d == 7 {
        '7'
    } else if d == 8 {
        '8'
    } else {
        '9'
    }
}

/// The digits of a number in base ten, without leading zeros.
pub open spec fn digits(n: nat) -> Seq<char>
    decreases n,
{
    if n < 10 {
        seq![digit(n as int)]
    } else {
        digits(n / 10).push(digit((n % 10) as int))
    }
}

/// A whole number as text: a minus before the digits of a negative one.
pub open spec fn whole_text(n: int) -> Seq<char> {
    if n < 0 {
        seq!['-'] + digits((-n) as nat)
    } else {
        digits(n as nat)
    }
}

/// The thousandths `f` of a point as text: nothing for none, else a point and
/// up to three digits, without zeros at the end.
pub open spec fn fraction_text(f: int) -> Seq<char> {
    if f == 0 {
        Seq::empty()
    } else if f % 10 != 0 {
        seq!['.', digit(f / 100), digit((f / 10) % 10), digit(f % 10)]
    } else if (f / 10) % 10 != 0 {
        seq!['.', digit(f / 100), digit((f / 10) % 10)]
    } else {
        seq!['.', digit(f / 100)]
    }
}

/// A score as text: `inf` and `-inf` for the infinities; for a finite score
/// its points, and its thousandths behind a point where it has any.
pub open spec fn score_text(score: Score) -> Seq<char> {
    match score {
        Score::PosInf => seq!['i', 'n', 'f'],
        Score::NegInf => seq!['-', 'i', 'n', 'f'],
        Score::Finite(x) => {
            let size = if x < 0 {
                -x
            } else {
                x as int
            };
            let sign = if x < 0 {
                seq!['-']
            } else {
                Seq::empty()
            };
            sign + digits((size / 1000) as nat) + fraction_text(size % 1000)
        },
    }
}

/// A value as text: a score as `score_text` gives it; a mate as the sign of
/// the side, `+` for White and `-` for Black, then `M` and the number of
/// moves.
pub open spec fn eval_text(eval: Eval) -> Seq<char> {
    match eval {
        Eval::Numeric(score) => score_text(score),
        Eval::MateIn(Color::White, n) => seq!['+', 'M'] + whole_text(n as int),
        Eval::MateIn(Color::Black, n) => seq!['-', 'M'] + whole_text(n as int),
    }
}

fn digit_char(d: u64) -> (c: char)
    requires
        d < 10,
    ensures
        c == digit(d as int),
{
    if d == 0 {
        '0'
    } else if d == 1 {
        '1'
    } else if d == 2 {
        '2'
    } else if d == 3 {
        '3'
    } else if d == 4 {
        '4'
    } else if d == 5 {
        '5'
    } else if d == 6 {
        '6'
    } else if d == 7 {
        '7'
    } else if d == 8 {
        '8'
    } else {
        '9'
    }
}

fn push_digits(out: &mut Vec<char>, n: u64)
    ensures
        final(out)@ == old(out)@ + digits(n as nat),
    decreases n,
{
    if n >= 10 {
        push_digits(out, n / 10);
    }
    out.push(digit_char(n % 10));
    assert(out@ =~= old(out)@ + digits(n as nat));
}

fn push_fraction(out: &mut Vec<char>, f: u64)
    requires
        f < 1000,
    ensures
        final(out)@ == old(out)@ + fraction_text(f as int),
{
    if f != 0 {
        out.push('.');
        out.push(digit_char(f / 100));
        if f % 10 != 0 {
            out.push(digit_char((f / 10) % 10));
            out.push(digit_char(f % 10));
        } else if (f / 10) % 10 != 0 {
            out.push(digit_char((f / 10) % 10));
        }
    }
    assert(out@ =~= old(out)@ + fraction_text(f as int));
}

/// The size of a number.
fn size_of(x: i64) -> (r: u64)
    ensures
        r == if x < 0 {
            -x
        } else {
            x as int
        },
{
    if x < 0 {
        ((-(x + 1)) as u64) + 1
    } else {
        x as u64
    }
}

/// The characters of a score as text.
pub fn score_chars(score: &Score) -> (r: Vec<char>)
    ensures
        r@ == score_text(*score),
{
    let mut out: Vec<char> = Vec::new();
    match score {
        Score::PosInf => {
            out.push('i');
            out.push('n');
            out.push('f');
        },
        Score::NegInf => {
            out.push('-');
            out.push('i');
            out.push('n');
            out.push('f');
        },
        Score::Finite(x) => {
            if *x < 0 {
                out.push('-');
            }
            let size = size_of(*x);
            push_digits(&mut out, size / 1000);
            push_fraction(&mut out, size % 1000);
        },
    }
    assert(out@ =~= score_text(*score));
    out
}

/// The characters of a value as text.
pub fn eval_chars(eval: &Eval) -> (r: Vec<char>)
    ensures
        r@ == eval_text(*eval),
{
    match eval {
        Eval::Numeric(score) => score_chars(score),
        Eval::MateIn(color, value) => {
            let mut out: Vec<char> = Vec::new();
            out.push(
                match color {
                    Color::Black => '-',
                    Color::White => '+',
                },
            );
            out.push('M');
            let wide: i64 = *value as i64;
            if wide < 0 {
                out.push('-');
            }
            push_digits(&mut out, size_of(wide));
            assert(out@ =~= eval_text(*eval));
            out
        },
    }
}

/// Collects characters into a `String`, a call of `String::from_iter`: the
/// string holds the characters given, in their order.
#[verifier::external_body]
fn collect(chars: &Vec<char>) -> (r: String)
    ensures
        r@ == chars@,
{
    String::from_iter(chars.iter())
}

impl Eval {
    /// The value as text, such as `1.5`, `-0.25`, `inf`, `+M3` or `-M0`.
    pub fn to_text(&self) -> (r: String)
        ensures
            r@ == eval_text(*self),
    {
        collect(&eval_chars(self))
    }
}

impl Score {
    /// The score as text, such as `1.5`, `-0.25`, `inf` or `-inf`.
    pub fn to_text(&self) -> (r: String)
        ensures
            r@ == score_text(*self),
    {
        collect(&score_chars(self))
    }
}

} // verus!
