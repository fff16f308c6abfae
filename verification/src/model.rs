//! The mathematical model of scanning.
//!
//! `scan_at` says, for a source text viewed as a `Seq<char>`, exactly which
//! tokens come out of the scanner, or which error ends it.  The executable
//! scanner in `crate::scanner` is proved to produce exactly this sequence,
//! and the laws in `crate::laws` are proved of it.

use vstd::prelude::*;
use crate::token_type::Type;

verus! {

/// Whether `char::is_alphabetic` holds of `c`.  The Unicode `Alphabetic`
/// property has no short statement; the trusted wrapper in `crate::scanner`
/// ties this name to the library call.
pub uninterp spec fn alphabetic(c: char) -> bool;

/// Horizontal whitespace: skipped between tokens, advancing the column.
pub open spec fn is_ws(c: char) -> bool {
    c == ' ' || c == '\r' || c == '\t'
}

/// What trimming removes from an end of a lexeme: whitespace or a newline.
pub open spec fn is_blank(c: char) -> bool {
    is_ws(c) || c == '\n'
}

/// `s` with leading and trailing blanks removed: what the emission
/// protocol records as a lexeme.
pub open spec fn spec_trim(s: Seq<char>) -> Seq<char>
    decreases s.len(),
{
    if s.len() == 0 {
        s
    } else if is_blank(s[0]) {
        spec_trim(s.drop_first())
    } else if is_blank(s[s.len() - 1]) {
        spec_trim(s.drop_last())
    } else {
        s
    }
}

/// A lexeme that neither begins nor ends with a blank is its own trim.
pub proof fn lemma_trim_fixed(s: Seq<char>)
    requires
        s.len() > 0,
        !is_blank(s[0]),
        !is_blank(s[s.len() - 1]),
    ensures
        spec_trim(s) == s,
{
}

/// A decimal digit.
pub open spec fn spec_is_digit(c: char) -> bool {
    '0' <= c && c <= '9'
}

/// First character of an identifier: alphabetic or underscore.  Whitespace
/// and the newline are never alphabetic, so the definition carries that
/// exclusion outright.
pub open spec fn spec_is_alpha(c: char) -> bool {
    (alphabetic(c) || c == '_') && !is_ws(c) && c != '\n'
}

/// Continuation character of an identifier.
pub open spec fn spec_is_alphanumeric(c: char) -> bool {
    spec_is_alpha(c) || spec_is_digit(c)
}

/// The decimal point.
pub open spec fn spec_is_dot(c: char) -> bool {
    c == '.'
}

/// Every character of `s` is a decimal digit.
pub open spec fn all_digits(s: Seq<char>) -> bool {
    forall|k: int| 0 <= k < s.len() ==> spec_is_digit(#[trigger] s[k])
}

/// `s` with its optional leading sign removed.
pub open spec fn number_tail(s: Seq<char>) -> Seq<char> {
    if s.len() > 0 && (s[0] == '+' || s[0] == '-') {
        s.drop_first()
    } else {
        s
    }
}

/// `t` is one or more digits, a decimal point at index `d`, and one or more
/// digits to the end.
pub open spec fn dot_at(t: Seq<char>, d: int) -> bool {
    0 < d < t.len() - 1 && t[d] == '.'
        && (forall|k: int| 0 <= k < d ==> spec_is_digit(#[trigger] t[k]))
        && (forall|k: int| d < k < t.len() ==> spec_is_digit(#[trigger] t[k]))
}

/// `t` is a dotted number: digits, a point, digits.
pub open spec fn number_dotted(t: Seq<char>) -> bool {
    exists|d: int| #[trigger] dot_at(t, d)
}

/// The decimal point's position in a dotted number text.
pub proof fn lemma_dotted_witness(t: Seq<char>) -> (d: int)
    requires
        number_dotted(t),
    ensures
        dot_at(t, d),
{
    choose|d: int| dot_at(t, d)
}

/// Whether `s` spells a number: an optional sign, one or more integer
/// digits, and optionally a decimal point followed by one or more fraction
/// digits.  Exponents, hexadecimal forms and infinities are not numbers.
pub open spec fn is_number_text(s: Seq<char>) -> bool {
    let t = number_tail(s);
    t.len() > 0 && (all_digits(t) || number_dotted(t))
}

/// The parsed literal value a lexeme carries, if any.
pub enum LitV {
    /// A string literal's inner text, quotes stripped.
    Str(Seq<char>),
    /// A number literal's text; its value is the double-precision decode of
    /// that text, which the library leaves to its caller.
    Num(Seq<char>),
    /// A boolean literal.
    Bool(bool),
}

/// What the literal parser attaches to a lexeme: a boolean for the exact
/// spellings `true` and `false`, a number for number texts, a string for a
/// quoted text, and nothing otherwise.
pub open spec fn spec_literal(s: Seq<char>) -> Option<LitV> {
    if s == "true"@ {
        Some(LitV::Bool(true))
    } else if s == "false"@ {
        Some(LitV::Bool(false))
    } else if is_number_text(s) {
        Some(LitV::Num(s))
    } else if s.len() >= 2 && s[0] == '"' && s[s.len() - 1] == '"' {
        Some(LitV::Str(s.subrange(1, s.len() - 1)))
    } else {
        None
    }
}

/// The kind a reserved spelling maps to, or `None` for every other lexeme.
pub open spec fn keyword_kind_of(s: Seq<char>) -> Option<Type> {
    if s == "and"@ {
        Some(Type::And)
    } else if s == "class"@ {
        Some(Type::Class)
    } else if s == "else"@ {
        Some(Type::Else)
    } else if s == "false"@ {
        Some(Type::False)
    } else if s == "for"@ {
        Some(Type::For)
    } else if s == "fun"@ {
        Some(Type::Fun)
    } else if s == "if"@ {
        Some(Type::If)
    } else if s == "nil"@ {
        Some(Type::Nil)
    } else if s == "or"@ {
        Some(Type::Or)
    } else if s == "print"@ {
        Some(Type::Print)
    } else if s == "return"@ {
        Some(Type::Return)
    } else if s == "super"@ {
        Some(Type::Super)
    } else if s == "this"@ {
        Some(Type::This)
    } else if s == "true"@ {
        Some(Type::True)
    } else if s == "var"@ {
        Some(Type::Var)
    } else if s == "while"@ {
        Some(Type::While)
    } else {
        None
    }
}

/// A token as the model sees it.  `position` is `(line, column)` at the
/// moment the emission was committed.
pub struct TokenV {
    pub kind: Type,
    pub lexeme: Seq<char>,
    pub literal: Option<LitV>,
    pub position: (int, int),
}

/// The two lexical errors.
#[derive(PartialEq, Eq, Structural, Clone, Copy, Debug)]
pub enum ErrKind {
    /// A leading character matched no dispatch arm.
    UnexpectedCharacter,
    /// End of input inside a string literal.
    UnterminatedString,
}

/// A scan error as the model sees it: its kind, the text buffered when it
/// was raised, and the position then current.
pub struct ScanErrorV {
    pub kind: ErrKind,
    pub text: Seq<char>,
    pub position: (int, int),
}

/// Position after consuming one character: a newline goes down to the start
/// of the next line, anything else moves one column forward.
pub open spec fn pos_after(p: (int, int), c: char) -> (int, int) {
    if c == '\n' {
        (p.0 + 1, 0)
    } else {
        (p.0, p.1 + 1)
    }
}

/// Position after consuming a sequence of characters in order.
pub open spec fn pos_after_seq(p: (int, int), s: Seq<char>) -> (int, int)
    decreases s.len(),
{
    if s.len() == 0 {
        p
    } else {
        pos_after_seq(pos_after(p, s[0]), s.drop_first())
    }
}

pub proof fn lemma_pos_after_seq_snoc(p: (int, int), s: Seq<char>, c: char)
    ensures
        pos_after_seq(p, s.push(c)) == pos_after(pos_after_seq(p, s), c),
    decreases s.len(),
{
    if s.len() == 0 {
        assert(s.push(c).drop_first() =~= Seq::<char>::empty());
        assert(s.push(c)[0] == c);
        assert(pos_after_seq(p, s) == p);
        assert(pos_after_seq(pos_after(p, c), Seq::<char>::empty()) == pos_after(p, c));
    } else {
        assert(s.push(c).drop_first() =~= s.drop_first().push(c));
        assert(s.push(c)[0] == s[0]);
        lemma_pos_after_seq_snoc(pos_after(p, s[0]), s.drop_first(), c);
    }
}

/// Over characters none of which is a newline, the position moves straight
/// across the line.
pub proof fn lemma_pos_after_seq_no_newline(p: (int, int), s: Seq<char>)
    requires
        forall|k: int| 0 <= k < s.len() ==> #[trigger] s[k] != '\n',
    ensures
        pos_after_seq(p, s) == (p.0, p.1 + s.len()),
    decreases s.len(),
{
    if s.len() > 0 {
        lemma_pos_after_seq_no_newline(pos_after(p, s[0]), s.drop_first());
    }
}

/// End of the run of digits starting at `i`: the first index at or past `i`
/// holding no digit, or the length of `cs`.
pub open spec fn digits_end(cs: Seq<char>, i: int) -> int
    decreases cs.len() - i,
{
    if 0 <= i < cs.len() && spec_is_digit(cs[i]) {
        digits_end(cs, i + 1)
    } else {
        i
    }
}

/// End of the run of identifier characters starting at `i`.
pub open spec fn alnum_end(cs: Seq<char>, i: int) -> int
    decreases cs.len() - i,
{
    if 0 <= i < cs.len() && spec_is_alphanumeric(cs[i]) {
        alnum_end(cs, i + 1)
    } else {
        i
    }
}

/// First index at or past `i` holding `stop`, or the length of `cs`.
pub open spec fn find_char(cs: Seq<char>, i: int, stop: char) -> int
    decreases cs.len() - i,
{
    if 0 <= i < cs.len() {
        if cs[i] == stop {
            i
        } else {
            find_char(cs, i + 1, stop)
        }
    } else {
        cs.len() as int
    }
}

pub proof fn lemma_digits_end(cs: Seq<char>, i: int)
    requires
        0 <= i <= cs.len(),
    ensures
        i <= digits_end(cs, i) <= cs.len(),
        forall|k: int| i <= k < digits_end(cs, i) ==> spec_is_digit(#[trigger] cs[k]),
        digits_end(cs, i) < cs.len() ==> !spec_is_digit(cs[digits_end(cs, i)]),
    decreases cs.len() - i,
{
    if i < cs.len() && spec_is_digit(cs[i]) {
        lemma_digits_end(cs, i + 1);
    }
}

pub proof fn lemma_alnum_end(cs: Seq<char>, i: int)
    requires
        0 <= i <= cs.len(),
    ensures
        i <= alnum_end(cs, i) <= cs.len(),
        forall|k: int| i <= k < alnum_end(cs, i) ==> spec_is_alphanumeric(#[trigger] cs[k]),
        alnum_end(cs, i) < cs.len() ==> !spec_is_alphanumeric(cs[alnum_end(cs, i)]),
    decreases cs.len() - i,
{
    if i < cs.len() && spec_is_alphanumeric(cs[i]) {
        lemma_alnum_end(cs, i + 1);
    }
}

pub proof fn lemma_find_char(cs: Seq<char>, i: int, stop: char)
    requires
        0 <= i <= cs.len(),
    ensures
        i <= find_char(cs, i, stop) <= cs.len(),
        forall|k: int| i <= k < find_char(cs, i, stop) ==> #[trigger] cs[k] != stop,
        find_char(cs, i, stop) < cs.len() ==> cs[find_char(cs, i, stop)] == stop,
    decreases cs.len() - i,
{
    if i < cs.len() && cs[i] != stop {
        lemma_find_char(cs, i + 1, stop);
    }
}

/// The kind of a token formed by one character alone.
pub open spec fn single_kind(c: char) -> Option<Type> {
    if c == '(' {
        Some(Type::LeftParen)
    } else if c == ')' {
        Some(Type::RightParen)
    } else if c == '{' {
        Some(Type::LeftBrace)
    } else if c == '}' {
        Some(Type::RightBrace)
    } else if c == ',' {
        Some(Type::Comma)
    } else if c == '.' {
        Some(Type::Dot)
    } else if c == '-' {
        Some(Type::Minus)
    } else if c == '+' {
        Some(Type::Plus)
    } else if c == ';' {
        Some(Type::Semicolon)
    } else if c == '*' {
        Some(Type::Star)
    } else {
        None
    }
}

/// The kinds of a character that may pair with a following `=`: the kind
/// alone, and the kind of the pair.
pub open spec fn pair_kinds(c: char) -> Option<(Type, Type)> {
    if c == '!' {
        Some((Type::Bang, Type::BangEqual))
    } else if c == '=' {
        Some((Type::Equal, Type::EqualEqual))
    } else if c == '<' {
        Some((Type::Less, Type::LessEqual))
    } else if c == '>' {
        Some((Type::Greater, Type::GreaterEqual))
    } else {
        None
    }
}

/// A token at emission: the literal parser runs on every lexeme.
pub open spec fn mk_token(kind: Type, lexeme: Seq<char>, p: (int, int)) -> TokenV {
    TokenV { kind, lexeme, literal: spec_literal(lexeme), position: p }
}

/// Prepend a token to the outcome of the rest of the scan.
pub open spec fn with_token(
    t: TokenV,
    rest: Result<Seq<TokenV>, ScanErrorV>,
) -> Result<Seq<TokenV>, ScanErrorV> {
    match rest {
        Ok(ts) => Ok(seq![t] + ts),
        Err(e) => Err(e),
    }
}

/// The scan of `cs` from index `i` at position `p`: the remaining tokens in
/// source order, or the first error.  Index `i` counts characters already
/// consumed; `p` is the position they produced.
pub open spec fn scan_at(cs: Seq<char>, i: int, p: (int, int)) -> Result<Seq<TokenV>, ScanErrorV>
    decreases cs.len() - i,
    when 0 <= i
    via scan_at_decreases
{
    if i >= cs.len() {
        Ok(Seq::empty())
    } else {
        let c = cs[i];
        if single_kind(c) is Some {
            let q = (p.0, p.1 + 1);
            with_token(
                mk_token(single_kind(c)->Some_0, cs.subrange(i, i + 1), q),
                scan_at(cs, i + 1, q),
            )
        } else if pair_kinds(c) is Some {
            let ks = pair_kinds(c)->Some_0;
            if i + 1 < cs.len() && cs[i + 1] == '=' {
                let q = (p.0, p.1 + 2);
                with_token(mk_token(ks.1, cs.subrange(i, i + 2), q), scan_at(cs, i + 2, q))
            } else {
                let q = (p.0, p.1 + 1);
                with_token(mk_token(ks.0, cs.subrange(i, i + 1), q), scan_at(cs, i + 1, q))
            }
        } else if c == '/' {
            if i + 1 < cs.len() && cs[i + 1] == '/' {
                // A line comment: everything through the next newline is
                // consumed and nothing is emitted.
                let e = find_char(cs, i + 2, '\n');
                if e < cs.len() {
                    scan_at(cs, e + 1, (p.0 + 1, 0))
                } else {
                    Ok(Seq::empty())
                }
            } else {
                let q = (p.0, p.1 + 1);
                with_token(mk_token(Type::Slash, cs.subrange(i, i + 1), q), scan_at(cs, i + 1, q))
            }
        } else if c == '"' {
            let e = find_char(cs, i + 1, '"');
            if e < cs.len() {
                let lexeme = cs.subrange(i, e + 1);
                let q = pos_after_seq(p, lexeme);
                with_token(mk_token(Type::String, lexeme, q), scan_at(cs, e + 1, q))
            } else {
                let text = cs.subrange(i, cs.len() as int);
                Err(ScanErrorV {
                    kind: ErrKind::UnterminatedString,
                    text,
                    position: pos_after_seq(p, text),
                })
            }
        } else if is_ws(c) {
            scan_at(cs, i + 1, (p.0, p.1 + 1))
        } else if c == '\n' {
            scan_at(cs, i + 1, (p.0 + 1, 0))
        } else if spec_is_digit(c) {
            let j = digits_end(cs, i + 1);
            // Two characters of lookahead: a decimal point joins the number
            // only when a digit follows it.
            if j + 1 < cs.len() && cs[j] == '.' && spec_is_digit(cs[j + 1]) {
                let k = digits_end(cs, j + 1);
                let q = (p.0, p.1 + (k - i));
                with_token(mk_token(Type::Number, cs.subrange(i, k), q), scan_at(cs, k, q))
            } else {
                let q = (p.0, p.1 + (j - i));
                with_token(mk_token(Type::Number, cs.subrange(i, j), q), scan_at(cs, j, q))
            }
        } else if spec_is_alpha(c) {
            let j = alnum_end(cs, i + 1);
            let lexeme = cs.subrange(i, j);
            let kind = match keyword_kind_of(lexeme) {
                Some(k) => k,
                None => Type::Identifier,
            };
            let q = (p.0, p.1 + (j - i));
            with_token(mk_token(kind, lexeme, q), scan_at(cs, j, q))
        } else {
            Err(ScanErrorV { kind: ErrKind::UnexpectedCharacter, text: Seq::empty(), position: p })
        }
    }
}

#[via_fn]
proof fn scan_at_decreases(cs: Seq<char>, i: int, p: (int, int)) {
    if 0 <= i < cs.len() {
        lemma_digits_end(cs, i + 1);
        let j = digits_end(cs, i + 1);
        if 0 <= j + 1 <= cs.len() {
            lemma_digits_end(cs, j + 1);
        }
        lemma_alnum_end(cs, i + 1);
        lemma_find_char(cs, i + 1, '"');
        if i + 2 <= cs.len() {
            lemma_find_char(cs, i + 2, '\n');
        }
    }
}

/// One step of the scan at a dispatch point: the end of the stream, the
/// next token together with the reading point and position after it, or
/// the error that ends the scan.
pub enum StepV {
    /// The input is exhausted, possibly after trailing whitespace or a
    /// final comment: the stream ends.
    Done,
    /// The next token, and the state from which the scan goes on.
    Tok(TokenV, int, (int, int)),
    /// The first lexical error.
    Fail(ScanErrorV),
}

/// The first step of the scan of `cs` from index `i` at position `p`.  It
/// consumes whitespace and comments silently and stops at the first token,
/// error, or the end of the input; `scan_at` is its transitive closure.
pub open spec fn first_step(cs: Seq<char>, i: int, p: (int, int)) -> StepV
    decreases cs.len() - i,
    when 0 <= i
    via first_step_decreases
{
    if i >= cs.len() {
        StepV::Done
    } else {
        let c = cs[i];
        if single_kind(c) is Some {
            let q = (p.0, p.1 + 1);
            StepV::Tok(mk_token(single_kind(c)->Some_0, cs.subrange(i, i + 1), q), i + 1, q)
        } else if pair_kinds(c) is Some {
            let ks = pair_kinds(c)->Some_0;
            if i + 1 < cs.len() && cs[i + 1] == '=' {
                let q = (p.0, p.1 + 2);
                StepV::Tok(mk_token(ks.1, cs.subrange(i, i + 2), q), i + 2, q)
            } else {
                let q = (p.0, p.1 + 1);
                StepV::Tok(mk_token(ks.0, cs.subrange(i, i + 1), q), i + 1, q)
            }
        } else if c == '/' {
            if i + 1 < cs.len() && cs[i + 1] == '/' {
                let e = find_char(cs, i + 2, '\n');
                if e < cs.len() {
                    first_step(cs, e + 1, (p.0 + 1, 0))
                } else {
                    StepV::Done
                }
            } else {
                let q = (p.0, p.1 + 1);
                StepV::Tok(mk_token(Type::Slash, cs.subrange(i, i + 1), q), i + 1, q)
            }
        } else if c == '"' {
            let e = find_char(cs, i + 1, '"');
            if e < cs.len() {
                let lexeme = cs.subrange(i, e + 1);
                let q = pos_after_seq(p, lexeme);
                StepV::Tok(mk_token(Type::String, lexeme, q), e + 1, q)
            } else {
                let text = cs.subrange(i, cs.len() as int);
                StepV::Fail(
                    ScanErrorV {
                        kind: ErrKind::UnterminatedString,
                        text,
                        position: pos_after_seq(p, text),
                    },
                )
            }
        } else if is_ws(c) {
            first_step(cs, i + 1, (p.0, p.1 + 1))
        } else if c == '\n' {
            first_step(cs, i + 1, (p.0 + 1, 0))
        } else if spec_is_digit(c) {
            let j = digits_end(cs, i + 1);
            if j + 1 < cs.len() && cs[j] == '.' && spec_is_digit(cs[j + 1]) {
                let k = digits_end(cs, j + 1);
                let q = (p.0, p.1 + (k - i));
                StepV::Tok(mk_token(Type::Number, cs.subrange(i, k), q), k, q)
            } else {
                let q = (p.0, p.1 + (j - i));
                StepV::Tok(mk_token(Type::Number, cs.subrange(i, j), q), j, q)
            }
        } else if spec_is_alpha(c) {
            let j = alnum_end(cs, i + 1);
            let lexeme = cs.subrange(i, j);
            let kind = match keyword_kind_of(lexeme) {
                Some(k) => k,
                None => Type::Identifier,
            };
            let q = (p.0, p.1 + (j - i));
            StepV::Tok(mk_token(kind, lexeme, q), j, q)
        } else {
            StepV::Fail(
                ScanErrorV { kind: ErrKind::UnexpectedCharacter, text: Seq::empty(), position: p },
            )
        }
    }
}

#[via_fn]
proof fn first_step_decreases(cs: Seq<char>, i: int, p: (int, int)) {
    if 0 <= i < cs.len() && i + 2 <= cs.len() {
        lemma_find_char(cs, i + 2, '\n');
    }
}

/// What the scan does at a line comment: everything through the next
/// newline is consumed and nothing is emitted; at a newline the scan goes
/// on from the next line, and at the end of the input it stops.
#[verifier::rlimit(100)]
pub proof fn lemma_scan_at_comment(cs: Seq<char>, i: int, p: (int, int))
    requires
        0 <= i < cs.len(),
        cs[i] == '/',
        i + 1 < cs.len(),
        cs[i + 1] == '/',
    ensures
        find_char(cs, i + 2, '\n') < cs.len() ==> scan_at(cs, i, p) == scan_at(
            cs,
            find_char(cs, i + 2, '\n') + 1,
            (p.0 + 1, 0int),
        ) && first_step(cs, i, p) == first_step(
            cs,
            find_char(cs, i + 2, '\n') + 1,
            (p.0 + 1, 0int),
        ),
        find_char(cs, i + 2, '\n') >= cs.len() ==> scan_at(cs, i, p) == Ok::<
            Seq<TokenV>,
            ScanErrorV,
        >(Seq::empty()) && first_step(cs, i, p) is Done,
{
    assert(single_kind('/') is None);
    assert(pair_kinds('/') is None);
    lemma_find_char(cs, i + 2, '\n');
    let e = find_char(cs, i + 2, '\n');
    if e >= cs.len() {
        assert(scan_at(cs, i, p) == Ok::<Seq<TokenV>, ScanErrorV>(Seq::empty()));
        assert(first_step(cs, i, p) is Done);
    } else {
        assert(scan_at(cs, i, p) == scan_at(cs, e + 1, (p.0 + 1, 0)));
        assert(first_step(cs, i, p) == first_step(cs, e + 1, (p.0 + 1, 0)));
    }
}

/// The scan of a whole source: the full token sequence, or the first error.
pub open spec fn spec_scan(cs: Seq<char>) -> Result<Seq<TokenV>, ScanErrorV> {
    scan_at(cs, 0, (0, 0))
}

} // verus!
