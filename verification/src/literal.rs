//! Literal values and the literal parser.
//!
//! The parser is pure: it maps a lexeme to a boolean, a number, or a string
//! value, trying the three shapes in that order, and fails on everything
//! else.  The scanner runs it on every lexeme it emits and treats a failure
//! as "no literal attached".

use vstd::prelude::*;
use crate::model::{
    LitV, spec_literal, is_number_text, spec_is_digit, all_digits, number_tail, dot_at,
    lemma_dotted_witness,
};
use crate::scanner::is_digit;
use vstd::string::StrSliceExecFns;

verus! {

/// A parsed literal value.  A number is carried as its exact text: its value
/// is the double-precision decode of that text, which the caller performs.
#[derive(Debug)]
pub enum Literal {
    /// A string literal's inner text, surrounding quotes stripped.
    String(String),
    /// A number literal's text, one or more digits with an optional decimal
    /// point and fraction.
    Number(String),
    /// A boolean literal, from the spellings `true` and `false`.
    Boolean(bool),
}

impl View for Literal {
    type V = LitV;

    open spec fn view(&self) -> LitV {
        match self {
            Literal::String(s) => LitV::Str(s@),
            Literal::Number(s) => LitV::Num(s@),
            Literal::Boolean(b) => LitV::Bool(*b),
        }
    }
}

/// Failure of the literal parser: the offending text and a message.  Never
/// fatal; the scanner merely attaches no literal.
#[derive(Debug)]
pub struct ParseLiteralErr {
    literal: String,
    message: String,
}

impl ParseLiteralErr {
    /// The view of the offending text.
    pub closed spec fn literal_view(&self) -> Seq<char> {
        self.literal@
    }

    /// The view of the message.
    pub closed spec fn message_view(&self) -> Seq<char> {
        self.message@
    }

    /// The text that parsed as no literal.
    pub fn literal(&self) -> (r: &String)
        ensures
            r@ == self.literal_view(),
    {
        &self.literal
    }

    /// A human-readable account of the failure.
    pub fn message(&self) -> (r: &String)
        ensures
            r@ == self.message_view(),
    {
        &self.message
    }
}

impl Literal {
    /// Parse a lexeme into the literal it spells, or report that it spells
    /// none.  Succeeds exactly when the model attaches a literal, and
    /// returns exactly that literal.
    pub fn parse(s: String) -> (r: Result<Literal, ParseLiteralErr>)
        ensures
            match spec_literal(s@) {
                Some(l) => r is Ok && r->Ok_0@ == l,
                None => r is Err && r->Err_0.literal_view() == s@,
            },
    {
        match parse_bool(&s) {
            Ok(l) => Ok(l),
            Err(_) => match parse_number(&s) {
                Ok(l) => Ok(l),
                Err(_) => parse_string(&s),
            },
        }
    }
}

/// Parse the boolean spellings `true` and `false`, exactly.
pub fn parse_bool(s: &String) -> (r: Result<Literal, ParseLiteralErr>)
    ensures
        s@ == "true"@ ==> r == Ok::<Literal, ParseLiteralErr>(Literal::Boolean(true)),
        s@ == "false"@ ==> r == Ok::<Literal, ParseLiteralErr>(Literal::Boolean(false)),
        s@ != "true"@ && s@ != "false"@ ==> r is Err && r->Err_0.literal_view() == s@,
{
    proof {
        reveal_strlit("true");
        reveal_strlit("false");
        assert("true"@.len() == 4);
        assert("false"@.len() == 5);
    }
    if s.eq(&"true".to_owned()) {
        Ok(Literal::Boolean(true))
    } else if s.eq(&"false".to_owned()) {
        Ok(Literal::Boolean(false))
    } else {
        Err(ParseLiteralErr {
            literal: s.clone(),
            message: "provided string was not a boolean".to_owned(),
        })
    }
}

/// Parse a number text: optional sign, integer digits, optional decimal
/// point with fraction digits.  Succeeds exactly on the texts the model
/// calls numbers, and carries the text itself.
pub fn parse_number(s: &String) -> (r: Result<Literal, ParseLiteralErr>)
    ensures
        is_number_text(s@) ==> r is Ok && r->Ok_0@ == LitV::Num(s@),
        !is_number_text(s@) ==> r is Err && r->Err_0.literal_view() == s@,
{
    let st = s.as_str();
    let n = st.unicode_len();
    let ghost off: int = if s@.len() > 0 && (s@[0] == '+' || s@[0] == '-') {
        1int
    } else {
        0int
    };
    let ghost t: Seq<char> = if off == 1 {
        s@.drop_first()
    } else {
        s@
    };
    assert(t == number_tail(s@));
    assert(t.len() == s@.len() - off);
    assert(forall|k: int| 0 <= k < t.len() ==> t[k] == s@[k + off]);
    let mut idx: usize = 0;
    if n == 0 {
        return Err(number_err(s));
    }
    let c0 = st.get_char(0);
    if c0 == '+' || c0 == '-' {
        idx = 1;
    }
    assert(idx == off);
    if idx == n {
        // A sign alone.
        assert(t.len() == 0);
        return Err(number_err(s));
    }
    // The integer digits.
    let d1 = idx;
    while idx < n && is_digit(st.get_char(idx))
        invariant
            d1 <= idx <= n,
            n == s@.len(),
            st@ == s@,
            d1 == off,
            forall|k: int| d1 <= k < idx ==> spec_is_digit(#[trigger] s@[k]),
            idx < n ==> idx < s@.len(),
        decreases n - idx,
    {
        idx = idx + 1;
    }
    if idx == d1 {
        // The first character after the sign is no digit.
        proof {
            assert(t[0] == s@[off]);
            assert(!spec_is_digit(t[0]));
            if is_number_text(s@) {
                if !all_digits(t) {
                    let d = lemma_dotted_witness(t);
                    assert(dot_at(t, d));
                    assert(spec_is_digit(t[0]));
                }
                assert(false);
            }
        }
        return Err(number_err(s));
    }
    if idx == n {
        // Digits to the end: an integer.
        proof {
            assert forall|k: int| 0 <= k < t.len() implies spec_is_digit(#[trigger] t[k]) by {
                assert(t[k] == s@[k + off]);
            }
            assert(all_digits(t));
            assert(is_number_text(s@));
        }
        return Ok(Literal::Number(s.clone()));
    }
    let c = st.get_char(idx);
    if c != '.' {
        // A character that is neither digit nor point.
        proof {
            let w = idx - off;
            assert(t[w] == s@[idx as int]);
            assert(!spec_is_digit(t[w]) && t[w] != '.');
            if is_number_text(s@) {
                if !all_digits(t) {
                    let d = lemma_dotted_witness(t);
                    assert(dot_at(t, d));
                    if d < w {
                        assert(spec_is_digit(t[d]));
                    } else if d > w {
                        assert(spec_is_digit(t[w]));
                    }
                }
                assert(false);
            }
        }
        return Err(number_err(s));
    }
    // The fraction digits.
    let d2 = idx + 1;
    let mut j = d2;
    while j < n && is_digit(st.get_char(j))
        invariant
            d2 <= j <= n,
            n == s@.len(),
            st@ == s@,
            forall|k: int| d2 <= k < j ==> spec_is_digit(#[trigger] s@[k]),
        decreases n - j,
    {
        j = j + 1;
    }
    let ghost dot: int = idx - off;
    proof {
        assert(t[dot] == s@[idx as int]);
        assert(t[dot] == '.');
        assert(!spec_is_digit(t[dot]));
        assert(!all_digits(t));
        assert forall|k: int| 0 <= k < dot implies spec_is_digit(#[trigger] t[k]) by {
            assert(t[k] == s@[k + off]);
        }
    }
    if j == d2 {
        // A point with no fraction digit after it.
        proof {
            if is_number_text(s@) {
                if !all_digits(t) {
                    let d = lemma_dotted_witness(t);
                    assert(dot_at(t, d));
                    if d < dot {
                        assert(spec_is_digit(t[d]));
                    } else if d == dot {
                        // A digit would have to follow the point.
                        assert(dot + 1 < t.len());
                        assert(d2 < n && !spec_is_digit(s@[d2 as int]));
                        assert(t[dot + 1] == s@[d2 as int]);
                        assert(spec_is_digit(t[dot + 1]));
                    } else {
                        assert(spec_is_digit(t[dot]));
                    }
                }
                assert(false);
            }
        }
        return Err(number_err(s));
    }
    if j < n {
        // Fraction digits, then something else.
        proof {
            let w = j - off;
            assert(t[w] == s@[j as int]);
            assert(!spec_is_digit(t[w]));
            if is_number_text(s@) {
                if !all_digits(t) {
                    let d = lemma_dotted_witness(t);
                    assert(dot_at(t, d));
                    if d < dot {
                        assert(spec_is_digit(t[d]));
                    } else if d == dot {
                        assert(dot < w < t.len());
                        assert(spec_is_digit(t[w]));
                    } else {
                        assert(spec_is_digit(t[dot]));
                    }
                }
                assert(false);
            }
        }
        return Err(number_err(s));
    }
    proof {
        assert(0 < dot);
        assert(d2 < j && j == n);
        assert(dot < t.len() - 1);
        assert forall|k: int| dot < k < t.len() implies spec_is_digit(#[trigger] t[k]) by {
            assert(t[k] == s@[k + off]);
            assert(d2 <= k + off < n);
        }
        assert(dot_at(t, dot));
        assert(is_number_text(s@));
    }
    Ok(Literal::Number(s.clone()))
}

fn number_err(s: &String) -> (r: ParseLiteralErr)
    ensures
        r.literal_view() == s@,
{
    ParseLiteralErr { literal: s.clone(), message: "invalid number literal".to_owned() }
}

/// Parse a quoted string: at least two characters, the first and last both
/// double quotes; the payload is the text between them.
pub fn parse_string(s: &String) -> (r: Result<Literal, ParseLiteralErr>)
    ensures
        s@.len() >= 2 && s@[0] == '"' && s@[s@.len() - 1] == '"' ==> r is Ok
            && r->Ok_0@ == LitV::Str(s@.subrange(1, s@.len() - 1)),
        !(s@.len() >= 2 && s@[0] == '"' && s@[s@.len() - 1] == '"') ==> r is Err
            && r->Err_0.literal_view() == s@,
{
    let st = s.as_str();
    let n = st.unicode_len();
    if n < 2 {
        return Err(ParseLiteralErr {
            literal: s.clone(),
            message: "incorrectly formatted string".to_owned(),
        });
    }
    let c0 = st.get_char(0);
    let cl = st.get_char(n - 1);
    if c0 == '"' && cl == '"' {
        let inner = st.substring_char(1, n - 1);
        Ok(Literal::String(inner.to_owned()))
    } else {
        Err(ParseLiteralErr {
            literal: s.clone(),
            message: "incorrectly formatted string".to_owned(),
        })
    }
}

} // verus!
