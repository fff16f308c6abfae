//! The scanner engine.
//!
//! `Scanner` walks the source one character at a time, keeping the
//! `(line, column)` position and the lexeme built so far, and `next` yields
//! one token or error per call, exactly as the model's `scan_at` says.
//! `scan` collects a whole source into its token list, or the first error.

use vstd::prelude::*;
use crate::model::{
    spec_is_digit, spec_is_alpha, spec_is_alphanumeric, spec_is_dot, alphabetic, ErrKind,
    ScanErrorV, TokenV, pos_after, pos_after_seq, digits_end, alnum_end, find_char, single_kind,
    pair_kinds, mk_token, with_token, scan_at, spec_scan, keyword_kind_of, is_ws, is_blank,
    spec_trim, lemma_trim_fixed, first_step, StepV,
    lemma_digits_end, lemma_alnum_end, lemma_find_char, lemma_pos_after_seq_snoc,
    lemma_scan_at_comment,
    lemma_pos_after_seq_no_newline,
};
use crate::token::{Token, Position};
use crate::token_type::Type;
use crate::literal::Literal;

verus! {

/// The token list a successful scan returns.
pub type Tokens = Vec<Token>;

/// One step of the scan: a token, or the error that ends it.
pub type Scan = Result<Token, ScanError>;

/// A lexical error: its kind, the position at which it was raised, and the
/// text buffered at that moment.
#[derive(Debug)]
pub struct ScanError {
    position: Position,
    kind: ErrKind,
    text: String,
}

impl View for ScanError {
    type V = ScanErrorV;

    closed spec fn view(&self) -> ScanErrorV {
        ScanErrorV {
            kind: self.kind,
            text: self.text@,
            position: (self.position.0 as int, self.position.1 as int),
        }
    }
}

impl ScanError {
    /// The `(line, column)` at which the error was raised.
    pub fn position(&self) -> (r: Position)
        ensures
            (r.0 as int, r.1 as int) == self@.position,
    {
        self.position
    }

    /// Which of the two lexical errors this is.
    pub fn kind(&self) -> (r: ErrKind)
        ensures
            r == self@.kind,
    {
        self.kind
    }

    /// The text buffered when the error was raised.
    pub fn text(&self) -> (r: &String)
        ensures
            r@ == self@.text,
    {
        &self.text
    }
}

/// The sixteen reserved spellings and their kinds, in the order the
/// model's lookup tries them.
pub open spec fn keyword_table_ok(t: Seq<(String, Type)>) -> bool {
    &&& t.len() == 16
    &&& t[0].0@ == "and"@ && t[0].1 == Type::And
    &&& t[1].0@ == "class"@ && t[1].1 == Type::Class
    &&& t[2].0@ == "else"@ && t[2].1 == Type::Else
    &&& t[3].0@ == "false"@ && t[3].1 == Type::False
    &&& t[4].0@ == "for"@ && t[4].1 == Type::For
    &&& t[5].0@ == "fun"@ && t[5].1 == Type::Fun
    &&& t[6].0@ == "if"@ && t[6].1 == Type::If
    &&& t[7].0@ == "nil"@ && t[7].1 == Type::Nil
    &&& t[8].0@ == "or"@ && t[8].1 == Type::Or
    &&& t[9].0@ == "print"@ && t[9].1 == Type::Print
    &&& t[10].0@ == "return"@ && t[10].1 == Type::Return
    &&& t[11].0@ == "super"@ && t[11].1 == Type::Super
    &&& t[12].0@ == "this"@ && t[12].1 == Type::This
    &&& t[13].0@ == "true"@ && t[13].1 == Type::True
    &&& t[14].0@ == "var"@ && t[14].1 == Type::Var
    &&& t[15].0@ == "while"@ && t[15].1 == Type::While
}

/// The table of reserved words, in lookup order.
pub fn reserved_words() -> (r: Vec<(String, Type)>)
    ensures
        keyword_table_ok(r@),
{
    let mut rs: Vec<(String, Type)> = Vec::new();
    rs.push(("and".to_owned(), Type::And));
    rs.push(("class".to_owned(), Type::Class));
    rs.push(("else".to_owned(), Type::Else));
    rs.push(("false".to_owned(), Type::False));
    rs.push(("for".to_owned(), Type::For));
    rs.push(("fun".to_owned(), Type::Fun));
    rs.push(("if".to_owned(), Type::If));
    rs.push(("nil".to_owned(), Type::Nil));
    rs.push(("or".to_owned(), Type::Or));
    rs.push(("print".to_owned(), Type::Print));
    rs.push(("return".to_owned(), Type::Return));
    rs.push(("super".to_owned(), Type::Super));
    rs.push(("this".to_owned(), Type::This));
    rs.push(("true".to_owned(), Type::True));
    rs.push(("var".to_owned(), Type::Var));
    rs.push(("while".to_owned(), Type::While));
    rs
}

/// Look a lexeme up among the reserved words: its keyword kind if it has
/// one, else `Identifier`.
fn lookup_keyword(words: &Vec<(String, Type)>, lexeme: &String) -> (r: Type)
    requires
        keyword_table_ok(words@),
    ensures
        r == match keyword_kind_of(lexeme@) {
            Some(k) => k,
            None => Type::Identifier,
        },
{
    let mut w: usize = 0;
    while w < words.len()
        invariant
            keyword_table_ok(words@),
            0 <= w <= 16,
            forall|m: int| 0 <= m < w ==> lexeme@ != #[trigger] words@[m].0@,
        decreases words@.len() - w,
    {
        if lexeme.eq(&words[w].0) {
            return words[w].1;
        }
        w = w + 1;
    }
    Type::Identifier
}

/// Whether `ch` may continue an identifier.
pub fn is_alphanumeric(ch: char) -> (r: bool)
    ensures
        r == spec_is_alphanumeric(ch),
{
    is_alpha(ch) || is_digit(ch)
}

/// Whether `ch` may open an identifier: alphabetic or an underscore.
pub fn is_alpha(ch: char) -> (r: bool)
    ensures
        r == spec_is_alpha(ch),
{
    char_is_alphabetic(ch) || ch == '_'
}

/// Whether `ch` is a decimal digit.
pub fn is_digit(ch: char) -> (r: bool)
    ensures
        r == spec_is_digit(ch),
{
    '0' <= ch && ch <= '9'
}

/// Whether `ch` is the decimal point.
pub fn is_dot(ch: char) -> (r: bool)
    ensures
        r == spec_is_dot(ch),
{
    ch == '.'
}

/// Relies on `char::is_alphabetic`: the result depends on the character
/// alone, and no whitespace or newline character is alphabetic.
#[verifier::external_body]
fn char_is_alphabetic(c: char) -> (r: bool)
    ensures
        r == alphabetic(c),
        c == ' ' || c == '\r' || c == '\t' || c == '\n' ==> !r,
{
    c.is_alphabetic()
}

/// Relies on `String::from_iter` over `char`: the string of exactly these
/// characters, in order.
#[verifier::external_body]
fn chars_to_string(v: &Vec<char>) -> (s: String)
    ensures
        s@ == v@,
{
    v.iter().collect()
}

/// Relies on `str::chars`: the characters of the string, in order.
#[verifier::external_body]
fn string_to_chars(s: &str) -> (v: Vec<char>)
    ensures
        v@ == s@,
{
    s.chars().collect()
}

/// Whether trimming removes `c` from an end of a lexeme.
fn is_blank_char(c: char) -> (r: bool)
    ensures
        r == is_blank(c),
{
    c == ' ' || c == '\r' || c == '\t' || c == '\n'
}

/// Drop leading and trailing blanks, as the emission protocol requires of
/// a lexeme.
fn trim_chars(v: &Vec<char>) -> (r: Vec<char>)
    ensures
        r@ == spec_trim(v@),
{
    let n = v.len();
    let mut a: usize = 0;
    proof {
        assert(v@.subrange(0, n as int) =~= v@);
    }
    while a < n && is_blank_char(v[a])
        invariant
            0 <= a <= n,
            n == v@.len(),
            spec_trim(v@) == spec_trim(v@.subrange(a as int, n as int)),
        decreases n - a,
    {
        proof {
            assert(v@.subrange(a as int, n as int).drop_first() =~= v@.subrange(
                a as int + 1,
                n as int,
            ));
        }
        a = a + 1;
    }
    if a == n {
        proof {
            assert(v@.subrange(a as int, n as int) =~= Seq::<char>::empty());
        }
        return Vec::new();
    }
    let mut b: usize = n;
    while b > a && is_blank_char(v[b - 1])
        invariant
            a < b <= n,
            n == v@.len(),
            a < n,
            !is_blank(v@[a as int]),
            spec_trim(v@) == spec_trim(v@.subrange(a as int, b as int)),
        decreases b,
    {
        proof {
            assert(v@.subrange(a as int, b as int).drop_last() =~= v@.subrange(
                a as int,
                b as int - 1,
            ));
        }
        b = b - 1;
    }
    proof {
        assert(a < b);
        assert(v@.subrange(a as int, b as int)[0] == v@[a as int]);
        assert(!is_blank(v@.subrange(a as int, b as int)[b - a - 1]));
        lemma_trim_fixed(v@.subrange(a as int, b as int));
    }
    let mut r: Vec<char> = Vec::new();
    let mut k = a;
    proof {
        assert(v@.subrange(a as int, a as int) =~= Seq::<char>::empty());
    }
    while k < b
        invariant
            a <= k <= b <= n,
            n == v@.len(),
            r@ == v@.subrange(a as int, k as int),
        decreases b - k,
    {
        proof {
            assert(v@.subrange(a as int, k as int).push(v@[k as int]) =~= v@.subrange(
                a as int,
                k as int + 1,
            ));
        }
        r.push(v[k]);
        k = k + 1;
    }
    r
}

/// Wrap a value as the successful outcome of one scan step.
pub fn some_ok<T, E>(x: T) -> (r: Option<Result<T, E>>)
    ensures
        r == Some(Result::<T, E>::Ok(x)),
{
    Some(Ok(x))
}

/// Wrap an error as the failed outcome of one scan step.
pub fn some_err<T, E>(x: E) -> (r: Option<Result<T, E>>)
    ensures
        r == Some(Result::<T, E>::Err(x)),
{
    Some(Err(x))
}

/// Which class of characters a slurp keeps consuming.
#[derive(Clone, Copy, PartialEq, Eq, Structural)]
pub enum CharClass {
    Digit,
    AlphaNumeric,
}

/// The class membership test, at the spec level.
pub open spec fn spec_in_class(cl: CharClass, c: char) -> bool {
    match cl {
        CharClass::Digit => spec_is_digit(c),
        CharClass::AlphaNumeric => spec_is_alphanumeric(c),
    }
}

/// Where the run of characters of class `cl` starting at `i` ends.
pub open spec fn class_end(cl: CharClass, cs: Seq<char>, i: int) -> int {
    match cl {
        CharClass::Digit => digits_end(cs, i),
        CharClass::AlphaNumeric => alnum_end(cs, i),
    }
}

fn in_class(cl: CharClass, c: char) -> (r: bool)
    ensures
        r == spec_in_class(cl, c),
{
    match cl {
        CharClass::Digit => is_digit(c),
        CharClass::AlphaNumeric => is_alphanumeric(c),
    }
}

/// The scanner: the source, how far it has read, the current position, the
/// lexeme being built, and the keyword table.
pub struct Scanner {
    source: Vec<char>,
    n: usize,
    i: usize,
    position: Position,
    current: Vec<char>,
    reserved_words: Vec<(String, Type)>,
}

impl Scanner {
    /// The source being scanned.
    pub closed spec fn src(&self) -> Seq<char> {
        self.source@
    }

    /// How many characters have been read.
    pub closed spec fn at(&self) -> int {
        self.i as int
    }

    /// The current position.
    pub closed spec fn pos_of(&self) -> (int, int) {
        (self.position.0 as int, self.position.1 as int)
    }

    /// The lexeme buffered so far.
    pub closed spec fn buffered(&self) -> Seq<char> {
        self.current@
    }

    /// The keyword table's view.
    pub closed spec fn table(&self) -> Seq<(String, Type)> {
        self.reserved_words@
    }

    /// The cached character count of the source.
    pub closed spec fn cap(&self) -> int {
        self.n as int
    }

    /// Well-formedness: the cached length is the source's, reading has not
    /// passed the end, the position never exceeds the count of characters
    /// read, and the keyword table is the right one.
    pub closed spec fn inv(&self) -> bool {
        &&& self.n as nat == self.source@.len()
        &&& self.i <= self.n
        &&& self.position.0 as int <= self.i as int
        &&& self.position.1 as int <= self.i as int
        &&& keyword_table_ok(self.reserved_words@)
    }

    /// The reading point of a well-formed scanner lies within its source,
    /// and neither position component ever exceeds it: enough for a caller
    /// to instantiate the public model lemmas at the scanner's own state.
    pub proof fn lemma_inv_bounds(&self)
        requires
            self.inv(),
        ensures
            0 <= self.at() <= self.src().len(),
            0 <= self.pos_of().0 <= self.at(),
            0 <= self.pos_of().1 <= self.at(),
    {
    }

    /// A fresh scanner over `source`, at the start, with position `(0, 0)`
    /// and an empty lexeme buffer.
    pub fn new(source: String) -> (s: Scanner)
        ensures
            s.inv(),
            s.src() == source@,
            s.at() == 0,
            s.pos_of() == (0int, 0int),
            s.buffered().len() == 0,
    {
        let chars = string_to_chars(source.as_str());
        let n = chars.len();
        Scanner {
            source: chars,
            n,
            i: 0,
            position: (0, 0),
            current: Vec::new(),
            reserved_words: reserved_words(),
        }
    }

    /// Move one column forward.
    pub fn forward(&mut self)
        requires
            old(self).pos_of().1 < u64::MAX as int,
        ensures
            final(self).pos_of() == (old(self).pos_of().0, old(self).pos_of().1 + 1),
            final(self).src() == old(self).src(),
            final(self).at() == old(self).at(),
            final(self).buffered() == old(self).buffered(),
            final(self).table() == old(self).table(),
            final(self).cap() == old(self).cap(),
    {
        self.position = (self.position.0, self.position.1 + 1);
    }

    /// Go down to the start of the next line.
    pub fn down(&mut self)
        requires
            old(self).pos_of().0 < u64::MAX as int,
        ensures
            final(self).pos_of() == (old(self).pos_of().0 + 1, 0int),
            final(self).src() == old(self).src(),
            final(self).at() == old(self).at(),
            final(self).buffered() == old(self).buffered(),
            final(self).table() == old(self).table(),
            final(self).cap() == old(self).cap(),
    {
        self.position = (self.position.0 + 1, 0);
    }

    /// Record one consumed character: update the position as the character
    /// demands and append it to the lexeme buffer.
    pub fn consume(&mut self, ch: char)
        requires
            old(self).pos_of().0 < u64::MAX as int,
            old(self).pos_of().1 < u64::MAX as int,
        ensures
            final(self).pos_of() == pos_after(old(self).pos_of(), ch),
            final(self).buffered() == old(self).buffered().push(ch),
            final(self).src() == old(self).src(),
            final(self).at() == old(self).at(),
            final(self).table() == old(self).table(),
            final(self).cap() == old(self).cap(),
    {
        if ch == '\n' {
            self.down();
        } else {
            self.forward();
        }
        self.current.push(ch);
    }

    /// Build the token for the buffered lexeme: trim it, run the literal
    /// parser on it, and stamp the current position.
    pub fn token(&self, tt: Type) -> (t: Token)
        ensures
            t@ == mk_token(tt, spec_trim(self.buffered()), self.pos_of()),
    {
        let trimmed = trim_chars(&self.current);
        let lexeme = chars_to_string(&trimmed);
        match Literal::parse(lexeme.clone()) {
            Ok(lit) => Token::new(tt, lexeme, Some(lit), self.position),
            Err(_) => Token::new(tt, lexeme, None, self.position),
        }
    }

    /// Emit the buffered lexeme, trimmed, as a token of kind `tt` and clear
    /// the buffer.
    pub fn emit(&mut self, tt: Type) -> (t: Token)
        ensures
            t@ == mk_token(tt, spec_trim(old(self).buffered()), old(self).pos_of()),
            final(self).buffered().len() == 0,
            final(self).pos_of() == old(self).pos_of(),
            final(self).src() == old(self).src(),
            final(self).at() == old(self).at(),
            final(self).table() == old(self).table(),
            final(self).cap() == old(self).cap(),
            old(self).inv() ==> final(self).inv(),
    {
        let tok = self.token(tt);
        self.current = Vec::new();
        tok
    }

    /// The error for a character no dispatch arm matches: the current
    /// position and the buffered text.
    pub fn unexpected_error(&self) -> (e: ScanError)
        ensures
            e@ == (ScanErrorV {
                kind: ErrKind::UnexpectedCharacter,
                text: self.buffered(),
                position: self.pos_of(),
            }),
    {
        ScanError {
            position: self.position,
            kind: ErrKind::UnexpectedCharacter,
            text: chars_to_string(&self.current),
        }
    }

    /// The error for a string literal still open at the end of the input.
    pub fn unterminated_error(&self) -> (e: ScanError)
        ensures
            e@ == (ScanErrorV {
                kind: ErrKind::UnterminatedString,
                text: self.buffered(),
                position: self.pos_of(),
            }),
    {
        ScanError {
            position: self.position,
            kind: ErrKind::UnterminatedString,
            text: chars_to_string(&self.current),
        }
    }

    /// If the next unread character is `mc`, read past it and hand it back;
    /// otherwise read nothing.  The position and the buffer are untouched.
    pub fn taste(&mut self, mc: char) -> (r: Option<char>)
        requires
            old(self).inv(),
        ensures
            final(self).inv(),
            final(self).src() == old(self).src(),
            final(self).pos_of() == old(self).pos_of(),
            final(self).buffered() == old(self).buffered(),
            final(self).table() == old(self).table(),
            if old(self).at() < old(self).src().len() && old(self).src()[old(self).at()] == mc {
                r == Some(mc) && final(self).at() == old(self).at() + 1
            } else {
                r == None::<char> && final(self).at() == old(self).at()
            },
    {
        if self.i < self.n {
            let c = self.source[self.i];
            if c == mc {
                self.i = self.i + 1;
                return Some(c);
            }
        }
        None
    }

    /// Consume characters until `stop` has been consumed, or the input is
    /// exhausted.  Every consumed character, `stop` included, updates the
    /// position; the lexeme buffer is untouched.
    pub fn skip_til(&mut self, stop: char)
        requires
            old(self).inv(),
        ensures
            final(self).inv(),
            final(self).src() == old(self).src(),
            final(self).buffered() == old(self).buffered(),
            final(self).table() == old(self).table(),
            ({
                let cs = old(self).src();
                let e = find_char(cs, old(self).at(), stop);
                &&& final(self).at() == if e < cs.len() {
                    e + 1
                } else {
                    cs.len() as int
                }
                &&& final(self).pos_of() == pos_after_seq(
                    old(self).pos_of(),
                    cs.subrange(old(self).at(), final(self).at()),
                )
            }),
    {
        let ghost cs = self.source@;
        let ghost i0 = self.i as int;
        let ghost p0 = self.pos_of();
        let ghost e = find_char(cs, i0, stop);
        let ghost buf0 = self.current@;
        let ghost tbl0 = self.reserved_words@;
        proof {
            lemma_find_char(cs, i0, stop);
            assert(cs.subrange(i0, i0) =~= Seq::<char>::empty());
        }
        loop
            invariant_except_break
                self.inv(),
                self.source@ == cs,
                self.current@ == buf0,
                self.reserved_words@ == tbl0,
                0 <= i0 <= cs.len(),
                e == find_char(cs, i0, stop),
                i0 <= self.i as int <= cs.len(),
                find_char(cs, self.i as int, stop) == e,
                self.pos_of() == pos_after_seq(p0, cs.subrange(i0, self.i as int)),
            ensures
                self.inv(),
                self.source@ == cs,
                self.current@ == buf0,
                self.reserved_words@ == tbl0,
                self.i as int == if e < cs.len() {
                    e + 1
                } else {
                    cs.len() as int
                },
                self.pos_of() == pos_after_seq(p0, cs.subrange(i0, self.i as int)),
            decreases cs.len() - self.i as int,
        {
            if self.i >= self.n {
                proof {
                    assert(find_char(cs, self.i as int, stop) == cs.len());
                }
                break;
            }
            let c = self.source[self.i];
            let ghost iold = self.i as int;
            self.i = self.i + 1;
            proof {
                assert(cs.subrange(i0, iold + 1) =~= cs.subrange(i0, iold).push(c));
                lemma_pos_after_seq_snoc(p0, cs.subrange(i0, iold), c);
            }
            if c == '\n' {
                self.down();
            } else {
                self.forward();
            }
            if c == stop {
                proof {
                    assert(find_char(cs, iold, stop) == iold);
                }
                break;
            }
            proof {
                assert(find_char(cs, iold, stop) == find_char(cs, iold + 1, stop));
            }
        }
    }

    /// Consume characters up to, but not including, the next `stop`, or to
    /// the end of the input, appending each to the lexeme buffer.
    pub fn slurp_til(&mut self, stop: char)
        requires
            old(self).inv(),
        ensures
            final(self).inv(),
            final(self).src() == old(self).src(),
            final(self).table() == old(self).table(),
            ({
                let cs = old(self).src();
                let e = find_char(cs, old(self).at(), stop);
                &&& final(self).at() == e
                &&& final(self).buffered() == old(self).buffered() + cs.subrange(
                    old(self).at(),
                    e,
                )
                &&& final(self).pos_of() == pos_after_seq(
                    old(self).pos_of(),
                    cs.subrange(old(self).at(), e),
                )
            }),
    {
        let ghost cs = self.source@;
        let ghost i0 = self.i as int;
        let ghost p0 = self.pos_of();
        let ghost e = find_char(cs, i0, stop);
        let ghost buf0 = self.current@;
        let ghost tbl0 = self.reserved_words@;
        proof {
            lemma_find_char(cs, i0, stop);
            assert(cs.subrange(i0, i0) =~= Seq::<char>::empty());
            assert(buf0 + cs.subrange(i0, i0) =~= buf0);
        }
        loop
            invariant_except_break
                self.inv(),
                self.source@ == cs,
                self.reserved_words@ == tbl0,
                0 <= i0 <= cs.len(),
                e == find_char(cs, i0, stop),
                i0 <= self.i as int <= cs.len(),
                find_char(cs, self.i as int, stop) == e,
                self.current@ == buf0 + cs.subrange(i0, self.i as int),
                self.pos_of() == pos_after_seq(p0, cs.subrange(i0, self.i as int)),
            ensures
                self.inv(),
                self.source@ == cs,
                self.reserved_words@ == tbl0,
                self.i as int == e,
                self.current@ == buf0 + cs.subrange(i0, e),
                self.pos_of() == pos_after_seq(p0, cs.subrange(i0, e)),
            decreases cs.len() - self.i as int,
        {
            if self.i >= self.n {
                proof {
                    assert(find_char(cs, self.i as int, stop) == cs.len());
                }
                break;
            }
            let c = self.source[self.i];
            if c == stop {
                proof {
                    assert(find_char(cs, self.i as int, stop) == self.i as int);
                }
                break;
            }
            let ghost iold = self.i as int;
            self.i = self.i + 1;
            proof {
                assert(cs.subrange(i0, iold + 1) =~= cs.subrange(i0, iold).push(c));
                assert(buf0 + cs.subrange(i0, iold + 1) =~= (buf0 + cs.subrange(i0, iold)).push(
                    c,
                ));
                lemma_pos_after_seq_snoc(p0, cs.subrange(i0, iold), c);
                assert(find_char(cs, iold, stop) == find_char(cs, iold + 1, stop));
            }
            self.consume(c);
        }
    }

    /// Consume the run of characters of class `keep_going` that starts at
    /// the reading point, appending each to the lexeme buffer.
    pub fn slurp_while(&mut self, keep_going: CharClass)
        requires
            old(self).inv(),
        ensures
            final(self).inv(),
            final(self).src() == old(self).src(),
            final(self).table() == old(self).table(),
            ({
                let cs = old(self).src();
                let e = class_end(keep_going, cs, old(self).at());
                &&& final(self).at() == e
                &&& final(self).buffered() == old(self).buffered() + cs.subrange(
                    old(self).at(),
                    e,
                )
                &&& final(self).pos_of() == pos_after_seq(
                    old(self).pos_of(),
                    cs.subrange(old(self).at(), e),
                )
            }),
    {
        let ghost cs = self.source@;
        let ghost i0 = self.i as int;
        let ghost p0 = self.pos_of();
        let ghost e = class_end(keep_going, cs, i0);
        let ghost buf0 = self.current@;
        let ghost tbl0 = self.reserved_words@;
        proof {
            match keep_going {
                CharClass::Digit => lemma_digits_end(cs, i0),
                CharClass::AlphaNumeric => lemma_alnum_end(cs, i0),
            }
            assert(cs.subrange(i0, i0) =~= Seq::<char>::empty());
            assert(buf0 + cs.subrange(i0, i0) =~= buf0);
        }
        loop
            invariant_except_break
                self.inv(),
                self.source@ == cs,
                self.reserved_words@ == tbl0,
                0 <= i0 <= cs.len(),
                e == class_end(keep_going, cs, i0),
                i0 <= self.i as int <= cs.len(),
                class_end(keep_going, cs, self.i as int) == e,
                self.current@ == buf0 + cs.subrange(i0, self.i as int),
                self.pos_of() == pos_after_seq(p0, cs.subrange(i0, self.i as int)),
            ensures
                self.inv(),
                self.source@ == cs,
                self.reserved_words@ == tbl0,
                self.i as int == e,
                self.current@ == buf0 + cs.subrange(i0, e),
                self.pos_of() == pos_after_seq(p0, cs.subrange(i0, e)),
            decreases cs.len() - self.i as int,
        {
            if self.i >= self.n {
                proof {
                    assert(class_end(keep_going, cs, self.i as int) == self.i as int);
                }
                break;
            }
            let c = self.source[self.i];
            if !in_class(keep_going, c) {
                proof {
                    assert(class_end(keep_going, cs, self.i as int) == self.i as int);
                }
                break;
            }
            let ghost iold = self.i as int;
            self.i = self.i + 1;
            proof {
                assert(cs.subrange(i0, iold + 1) =~= cs.subrange(i0, iold).push(c));
                assert(buf0 + cs.subrange(i0, iold + 1) =~= (buf0 + cs.subrange(i0, iold)).push(
                    c,
                ));
                lemma_pos_after_seq_snoc(p0, cs.subrange(i0, iold), c);
                assert(class_end(keep_going, cs, iold) == class_end(keep_going, cs, iold + 1));
            }
            self.consume(c);
        }
    }

    /// Consume `mc` and emit the buffered lexeme as a token of `emission`.
    pub fn digest(&mut self, mc: char, emission: Type) -> (t: Token)
        requires
            old(self).pos_of().0 < u64::MAX as int,
            old(self).pos_of().1 < u64::MAX as int,
        ensures
            t@ == mk_token(
                emission,
                spec_trim(old(self).buffered().push(mc)),
                pos_after(old(self).pos_of(), mc),
            ),
            final(self).buffered().len() == 0,
            final(self).pos_of() == pos_after(old(self).pos_of(), mc),
            final(self).src() == old(self).src(),
            final(self).at() == old(self).at(),
            final(self).table() == old(self).table(),
            final(self).cap() == old(self).cap(),
    {
        self.consume(mc);
        self.emit(emission)
    }

    /// Recognize a number: the digits already begun by `ch`, and, when a
    /// decimal point directly followed by a digit comes next, the point and
    /// the fraction digits after it.
    pub fn number(&mut self, ch: char) -> (t: Token)
        requires
            old(self).inv(),
            old(self).buffered().len() == 0,
            1 <= old(self).at() <= old(self).src().len(),
            ch == old(self).src()[old(self).at() - 1],
            spec_is_digit(ch),
            old(self).pos_of().0 <= old(self).at() - 1,
            old(self).pos_of().1 <= old(self).at() - 1,
        ensures
            final(self).inv(),
            final(self).buffered().len() == 0,
            final(self).src() == old(self).src(),
            final(self).table() == old(self).table(),
            ({
                let cs = old(self).src();
                let i0 = old(self).at() - 1;
                let p = old(self).pos_of();
                let j = digits_end(cs, old(self).at());
                let k = if j + 1 < cs.len() && cs[j] == '.' && spec_is_digit(cs[j + 1]) {
                    digits_end(cs, j + 1)
                } else {
                    j
                };
                let q = (p.0, p.1 + (k - i0));
                &&& final(self).at() == k
                &&& final(self).pos_of() == q
                &&& t@ == mk_token(Type::Number, cs.subrange(i0, k), q)
            }),
    {
        let ghost cs = self.source@;
        let ghost i0 = self.i as int - 1;
        let ghost p = self.pos_of();
        let ghost j = digits_end(cs, i0 + 1);
        proof {
            lemma_digits_end(cs, i0 + 1);
        }
        self.consume(ch);
        self.slurp_while(CharClass::Digit);
        proof {
            assert(self.current@ =~= cs.subrange(i0, j));
            assert(forall|m: int|
                i0 + 1 <= m < j ==> #[trigger] cs.subrange(i0 + 1, j)[m - i0 - 1] != '\n');
            lemma_pos_after_seq_no_newline((p.0, p.1 + 1), cs.subrange(i0 + 1, j));
            assert(self.pos_of() == (p.0, p.1 + (j - i0)));
        }
        if self.i < self.n {
            if self.i + 1 < self.n {
                let c1 = self.source[self.i];
                let c2 = self.source[self.i + 1];
                if is_dot(c1) && is_digit(c2) {
                    let ghost k = digits_end(cs, j + 1);
                    proof {
                        lemma_digits_end(cs, j + 1);
                    }
                    self.i = self.i + 1;
                    self.consume(c1);
                    self.slurp_while(CharClass::Digit);
                    proof {
                        assert(self.current@ =~= cs.subrange(i0, k));
                        assert(forall|m: int|
                            j + 1 <= m < k ==> #[trigger] cs.subrange(j + 1, k)[m - j - 1]
                                != '\n');
                        lemma_pos_after_seq_no_newline(
                            (p.0, p.1 + (j - i0) + 1),
                            cs.subrange(j + 1, k),
                        );
                        assert(self.pos_of() == (p.0, p.1 + (k - i0)));
                    }
                }
            }
        }
        proof {
            let end = self.i as int;
            assert(self.current@ == cs.subrange(i0, end));
            assert(cs.subrange(i0, end)[0] == cs[i0]);
            assert(cs.subrange(i0, end)[end - i0 - 1] == cs[end - 1]);
            assert(spec_is_digit(cs[end - 1])) by {
                if end == i0 + 1 {
                    assert(cs[i0] == ch);
                } else if end <= j {
                    assert(i0 + 1 <= end - 1 < j);
                } else {
                    let k = digits_end(cs, j + 1);
                    assert(j + 1 <= end - 1 < k);
                }
            }
            lemma_trim_fixed(cs.subrange(i0, end));
        }
        self.emit(Type::Number)
    }

    /// Recognize an identifier begun by `ch`, and resolve it against the
    /// reserved words.
    pub fn identifier(&mut self, ch: char) -> (t: Token)
        requires
            old(self).inv(),
            old(self).buffered().len() == 0,
            1 <= old(self).at() <= old(self).src().len(),
            ch == old(self).src()[old(self).at() - 1],
            spec_is_alpha(ch),
            old(self).pos_of().0 <= old(self).at() - 1,
            old(self).pos_of().1 <= old(self).at() - 1,
        ensures
            final(self).inv(),
            final(self).buffered().len() == 0,
            final(self).src() == old(self).src(),
            final(self).table() == old(self).table(),
            ({
                let cs = old(self).src();
                let i0 = old(self).at() - 1;
                let p = old(self).pos_of();
                let j = alnum_end(cs, old(self).at());
                let lexeme = cs.subrange(i0, j);
                let kind = match keyword_kind_of(lexeme) {
                    Some(k) => k,
                    None => Type::Identifier,
                };
                let q = (p.0, p.1 + (j - i0));
                &&& final(self).at() == j
                &&& final(self).pos_of() == q
                &&& t@ == mk_token(kind, lexeme, q)
            }),
    {
        let ghost cs = self.source@;
        let ghost i0 = self.i as int - 1;
        let ghost p = self.pos_of();
        let ghost j = alnum_end(cs, i0 + 1);
        proof {
            lemma_alnum_end(cs, i0 + 1);
        }
        self.consume(ch);
        self.slurp_while(CharClass::AlphaNumeric);
        proof {
            assert(self.current@ =~= cs.subrange(i0, j));
            assert(forall|m: int|
                i0 + 1 <= m < j ==> #[trigger] cs.subrange(i0 + 1, j)[m - i0 - 1] != '\n');
            lemma_pos_after_seq_no_newline((p.0, p.1 + 1), cs.subrange(i0 + 1, j));
            assert(self.pos_of() == (p.0, p.1 + (j - i0)));
        }
        proof {
            assert(self.current@ == cs.subrange(i0, j));
            assert(cs.subrange(i0, j)[0] == cs[i0]);
            assert(cs.subrange(i0, j)[j - i0 - 1] == cs[j - 1]);
            assert(!is_blank(cs[j - 1])) by {
                if j > i0 + 1 {
                    assert(spec_is_alphanumeric(cs[j - 1]));
                }
            }
            lemma_trim_fixed(cs.subrange(i0, j));
        }
        let lexeme = chars_to_string(&self.current);
        let tt = lookup_keyword(&self.reserved_words, &lexeme);
        self.emit(tt)
    }
}

/// What one call of `next` must satisfy, for the scan of `cs` from index
/// `i` at position `p`, with `s` the scanner's final state.  The yield is
/// pinned to the model's `first_step` at that pre-state: the stream ends
/// exactly when the step is `Done`, with everything consumed; a token is
/// exactly the step's token, leaving the scanner exactly at the step's
/// post-state; an error is exactly the step's error.  Alongside, the
/// composite outcome `scan_at` is carried in the form `scan` consumes.
pub open spec fn step_matches(
    r: Option<Scan>,
    cs: Seq<char>,
    i: int,
    p: (int, int),
    s: Scanner,
) -> bool {
    match r {
        None => first_step(cs, i, p) is Done && scan_at(cs, i, p) == Ok::<
            Seq<TokenV>,
            ScanErrorV,
        >(Seq::empty()) && s.at() == s.src().len() && s.buffered().len() == 0,
        Some(step) => match step {
            Ok(t) => first_step(cs, i, p) == StepV::Tok(t@, s.at(), s.pos_of()) && scan_at(
                cs,
                i,
                p,
            ) == with_token(t@, scan_at(cs, s.at(), s.pos_of())) && s.buffered().len() == 0,
            Err(e) => first_step(cs, i, p) == StepV::Fail(e@) && scan_at(cs, i, p) == Err::<
                Seq<TokenV>,
                ScanErrorV,
            >(e@),
        },
    }
}

impl Scanner {
    /// Skip a character that moves the column, and go on scanning.
    pub fn skip_forward(&mut self) -> (r: Option<Scan>)
        requires
            old(self).inv(),
            old(self).buffered().len() == 0,
            1 <= old(self).at(),
            old(self).pos_of().0 <= old(self).at() - 1,
            old(self).pos_of().1 <= old(self).at() - 1,
        ensures
            final(self).inv(),
            final(self).src() == old(self).src(),
            final(self).table() == old(self).table(),
            old(self).at() <= final(self).at(),
            step_matches(
                r,
                old(self).src(),
                old(self).at(),
                (old(self).pos_of().0, old(self).pos_of().1 + 1),
                *final(self),
            ),
        decreases self.cap() - self.at(), 1int,
    {
        self.forward();
        self.next()
    }

    /// Skip the newline, and go on scanning on the next line.
    pub fn skip_down(&mut self) -> (r: Option<Scan>)
        requires
            old(self).inv(),
            old(self).buffered().len() == 0,
            1 <= old(self).at(),
            old(self).pos_of().0 <= old(self).at() - 1,
            old(self).pos_of().1 <= old(self).at() - 1,
        ensures
            final(self).inv(),
            final(self).src() == old(self).src(),
            final(self).table() == old(self).table(),
            old(self).at() <= final(self).at(),
            step_matches(
                r,
                old(self).src(),
                old(self).at(),
                (old(self).pos_of().0 + 1, 0int),
                *final(self),
            ),
        decreases self.cap() - self.at(), 1int,
    {
        self.down();
        self.next()
    }

    /// Skip the rest of a comment line, through its newline, and go on
    /// scanning.
    pub fn skip_line(&mut self) -> (r: Option<Scan>)
        requires
            old(self).inv(),
            old(self).buffered().len() == 0,
        ensures
            final(self).inv(),
            final(self).src() == old(self).src(),
            final(self).table() == old(self).table(),
            old(self).at() <= final(self).at(),
            ({
                let cs = old(self).src();
                let e = find_char(cs, old(self).at(), '\n');
                if e < cs.len() {
                    step_matches(r, cs, e + 1, (old(self).pos_of().0 + 1, 0int), *final(self))
                } else {
                    r is None && final(self).at() == cs.len() && final(self).buffered().len() == 0
                }
            }),
        decreases self.cap() - self.at(), 2int,
    {
        let ghost cs = self.source@;
        let ghost i0 = self.i as int;
        let ghost p = self.pos_of();
        let ghost e = find_char(cs, i0, '\n');
        proof {
            lemma_find_char(cs, i0, '\n');
        }
        self.skip_til('\n');
        proof {
            if e < cs.len() {
                assert(cs.subrange(i0, e + 1) =~= cs.subrange(i0, e).push('\n'));
                lemma_pos_after_seq_snoc(p, cs.subrange(i0, e), '\n');
                assert(forall|m: int|
                    i0 <= m < e ==> #[trigger] cs.subrange(i0, e)[m - i0] != '\n');
                lemma_pos_after_seq_no_newline(p, cs.subrange(i0, e));
                assert(self.pos_of() == (p.0 + 1, 0int));
            }
        }
        let ghost p2 = self.pos_of();
        let r = self.next();
        proof {
            if e >= cs.len() {
                // Nothing followed the comment: the step from the end of
                // the input is the end of the stream.
                assert(first_step(cs, cs.len() as int, p2) is Done);
            }
        }
        r
    }

    /// Emit the one-character token that `ch` forms: one of the ten
    /// single-character punctuators, or a slash that no second slash
    /// follows.
    fn one_char(&mut self, ch: char, kind: Type) -> (r: Option<Scan>)
        requires
            old(self).inv(),
            old(self).buffered().len() == 0,
            1 <= old(self).at() <= old(self).src().len(),
            ch == old(self).src()[old(self).at() - 1],
            single_kind(ch) == Some(kind) || (ch == '/' && kind == Type::Slash && !(old(
                self,
            ).at() < old(self).src().len() && old(self).src()[old(self).at()] == '/')),
            old(self).pos_of().0 <= old(self).at() - 1,
            old(self).pos_of().1 <= old(self).at() - 1,
        ensures
            final(self).inv(),
            final(self).src() == old(self).src(),
            final(self).table() == old(self).table(),
            old(self).at() <= final(self).at(),
            step_matches(
                r,
                old(self).src(),
                old(self).at() - 1,
                old(self).pos_of(),
                *final(self),
            ),
    {
        let ghost cs = self.source@;
        let ghost i0 = self.i as int - 1;
        let ghost p = self.pos_of();
        proof {
            assert(self.current@ =~= Seq::<char>::empty());
            assert(cs.subrange(i0, i0 + 1) =~= Seq::<char>::empty().push(cs[i0]));
        }
        proof {
            assert(!is_blank(ch));
            lemma_trim_fixed(Seq::<char>::empty().push(ch));
        }
        let t = self.digest(ch, kind);
        proof {
            assert(scan_at(cs, i0, p) == with_token(
                t@,
                scan_at(cs, self.i as int, self.pos_of()),
            ));
            assert(first_step(cs, i0, p) == StepV::Tok(t@, self.i as int, self.pos_of()));
        }
        some_ok(t)
    }

    /// Emit the operator that `ch` opens: the two-character form when `=`
    /// follows, else the one-character form.
    fn operator(&mut self, ch: char) -> (r: Option<Scan>)
        requires
            old(self).inv(),
            old(self).buffered().len() == 0,
            1 <= old(self).at() <= old(self).src().len(),
            ch == old(self).src()[old(self).at() - 1],
            pair_kinds(ch) is Some,
            old(self).pos_of().0 <= old(self).at() - 1,
            old(self).pos_of().1 <= old(self).at() - 1,
        ensures
            final(self).inv(),
            final(self).src() == old(self).src(),
            final(self).table() == old(self).table(),
            old(self).at() <= final(self).at(),
            step_matches(
                r,
                old(self).src(),
                old(self).at() - 1,
                old(self).pos_of(),
                *final(self),
            ),
    {
        let ghost cs = self.source@;
        let ghost i0 = self.i as int - 1;
        let ghost p = self.pos_of();
        let ghost ks = pair_kinds(ch)->Some_0;
        let kinds = match ch {
            '!' => (Type::Bang, Type::BangEqual),
            '=' => (Type::Equal, Type::EqualEqual),
            '<' => (Type::Less, Type::LessEqual),
            _ => (Type::Greater, Type::GreaterEqual),
        };
        proof {
            assert(kinds == ks);
            assert(self.current@ =~= Seq::<char>::empty());
            assert(cs.subrange(i0, i0 + 1) =~= Seq::<char>::empty().push(cs[i0]));
        }
        self.consume(ch);
        match self.taste('=') {
            Some(nc) => {
                proof {
                    assert(cs.subrange(i0, i0 + 2) =~= Seq::<char>::empty().push(ch).push('='));
                    assert(!is_blank(ch) && !is_blank('='));
                    lemma_trim_fixed(Seq::<char>::empty().push(ch).push('='));
                }
                let t = self.digest(nc, kinds.1);
                proof {
                    assert(scan_at(cs, i0, p) == with_token(
                        t@,
                        scan_at(cs, self.i as int, self.pos_of()),
                    ));
                    assert(first_step(cs, i0, p) == StepV::Tok(t@, self.i as int, self.pos_of()));
                }
                some_ok(t)
            },
            None => {
                proof {
                    assert(!is_blank(ch));
                    lemma_trim_fixed(Seq::<char>::empty().push(ch));
                }
                let t = self.emit(kinds.0);
                proof {
                    assert(scan_at(cs, i0, p) == with_token(
                        t@,
                        scan_at(cs, self.i as int, self.pos_of()),
                    ));
                    assert(first_step(cs, i0, p) == StepV::Tok(t@, self.i as int, self.pos_of()));
                }
                some_ok(t)
            },
        }
    }

    /// Recognize a string literal opened by `ch`: its contents through the
    /// closing quote, or the unterminated-string error when the input ends
    /// first.
    fn string_token(&mut self, ch: char) -> (r: Option<Scan>)
        requires
            old(self).inv(),
            old(self).buffered().len() == 0,
            1 <= old(self).at() <= old(self).src().len(),
            ch == old(self).src()[old(self).at() - 1],
            ch == '"',
            old(self).pos_of().0 <= old(self).at() - 1,
            old(self).pos_of().1 <= old(self).at() - 1,
        ensures
            final(self).inv(),
            final(self).src() == old(self).src(),
            final(self).table() == old(self).table(),
            old(self).at() <= final(self).at(),
            step_matches(
                r,
                old(self).src(),
                old(self).at() - 1,
                old(self).pos_of(),
                *final(self),
            ),
    {
        let ghost cs = self.source@;
        let ghost i0 = self.i as int - 1;
        let ghost p = self.pos_of();
        let ghost e = find_char(cs, i0 + 1, '"');
        proof {
            assert(self.current@ =~= Seq::<char>::empty());
            lemma_find_char(cs, i0 + 1, '"');
        }
        self.consume(ch);
        self.slurp_til('"');
        proof {
            assert(self.current@ =~= cs.subrange(i0, e));
            assert(cs.subrange(i0, e).drop_first() =~= cs.subrange(i0 + 1, e));
            assert(self.pos_of() == pos_after_seq(p, cs.subrange(i0, e)));
        }
        if self.i < self.n {
            let c2 = self.source[self.i];
            self.i = self.i + 1;
            proof {
                assert(cs.subrange(i0, e + 1) =~= cs.subrange(i0, e).push(c2));
                lemma_pos_after_seq_snoc(p, cs.subrange(i0, e), c2);
            }
            proof {
                assert(cs.subrange(i0, e + 1)[0] == cs[i0]);
                assert(cs.subrange(i0, e + 1)[e - i0] == cs[e]);
                lemma_trim_fixed(cs.subrange(i0, e + 1));
            }
            let t = self.digest(c2, Type::String);
            proof {
                assert(scan_at(cs, i0, p) == with_token(
                    t@,
                    scan_at(cs, self.i as int, self.pos_of()),
                ));
                assert(first_step(cs, i0, p) == StepV::Tok(t@, self.i as int, self.pos_of()));
            }
            some_ok(t)
        } else {
            let err = self.unterminated_error();
            proof {
                assert(cs.subrange(i0, e) == cs.subrange(i0, cs.len() as int));
                assert(scan_at(cs, i0, p) == Err::<Seq<TokenV>, ScanErrorV>(err@));
                assert(first_step(cs, i0, p) == StepV::Fail(err@));
            }
            some_err(err)
        }
    }

    /// Dispatch on a character no other arm claims: a digit opens a number,
    /// a letter or underscore opens an identifier, and anything else is the
    /// unexpected-character error.
    fn other(&mut self, ch: char) -> (r: Option<Scan>)
        requires
            old(self).inv(),
            old(self).buffered().len() == 0,
            1 <= old(self).at() <= old(self).src().len(),
            ch == old(self).src()[old(self).at() - 1],
            single_kind(ch) is None,
            pair_kinds(ch) is None,
            ch != '/' && ch != '"' && !is_ws(ch) && ch != '\n',
            old(self).pos_of().0 <= old(self).at() - 1,
            old(self).pos_of().1 <= old(self).at() - 1,
        ensures
            final(self).inv(),
            final(self).src() == old(self).src(),
            final(self).table() == old(self).table(),
            old(self).at() <= final(self).at(),
            step_matches(
                r,
                old(self).src(),
                old(self).at() - 1,
                old(self).pos_of(),
                *final(self),
            ),
    {
        let ghost cs = self.source@;
        let ghost i0 = self.i as int - 1;
        let ghost p = self.pos_of();
        if is_digit(ch) {
            proof {
                lemma_digits_end(cs, i0 + 1);
                let j = digits_end(cs, i0 + 1);
                if j + 1 < cs.len() && cs[j] == '.' && spec_is_digit(cs[j + 1]) {
                    lemma_digits_end(cs, j + 1);
                }
            }
            let t = self.number(ch);
            proof {
                assert(scan_at(cs, i0, p) == with_token(
                    t@,
                    scan_at(cs, self.i as int, self.pos_of()),
                ));
                assert(first_step(cs, i0, p) == StepV::Tok(t@, self.i as int, self.pos_of()));
            }
            some_ok(t)
        } else if is_alpha(ch) {
            proof {
                lemma_alnum_end(cs, i0 + 1);
            }
            let t = self.identifier(ch);
            proof {
                assert(scan_at(cs, i0, p) == with_token(
                    t@,
                    scan_at(cs, self.i as int, self.pos_of()),
                ));
                assert(first_step(cs, i0, p) == StepV::Tok(t@, self.i as int, self.pos_of()));
            }
            some_ok(t)
        } else {
            let err = self.unexpected_error();
            proof {
                assert(self.current@ =~= Seq::<char>::empty());
                assert(scan_at(cs, i0, p) == Err::<Seq<TokenV>, ScanErrorV>(err@));
                assert(first_step(cs, i0, p) == StepV::Fail(err@));
            }
            some_err(err)
        }
    }

    /// One step of the scan: exactly the next token the model's
    /// `first_step` names at this point, leaving the scanner exactly at the
    /// step's post-state; exactly the first error; or nothing at the end of
    /// the stream, every character of the source then consumed.
    pub fn next(&mut self) -> (r: Option<Scan>)
        requires
            old(self).inv(),
            old(self).buffered().len() == 0,
        ensures
            final(self).inv(),
            final(self).src() == old(self).src(),
            final(self).table() == old(self).table(),
            old(self).at() <= final(self).at(),
            r matches Some(Ok(_)) ==> old(self).at() < final(self).at(),
            step_matches(
                r,
                old(self).src(),
                old(self).at(),
                old(self).pos_of(),
                *final(self),
            ),
        decreases self.cap() - self.at(), 0int,
    {
        if self.i >= self.n {
            proof {
                assert(first_step(self.source@, self.i as int, self.pos_of()) is Done);
            }
            return None;
        }
        let ghost cs = self.source@;
        let ghost i0 = self.i as int;
        let ghost p = self.pos_of();
        let ch = self.source[self.i];
        self.i = self.i + 1;
        match ch {
            '(' => self.one_char(ch, Type::LeftParen),
            ')' => self.one_char(ch, Type::RightParen),
            '{' => self.one_char(ch, Type::LeftBrace),
            '}' => self.one_char(ch, Type::RightBrace),
            ',' => self.one_char(ch, Type::Comma),
            '.' => self.one_char(ch, Type::Dot),
            '-' => self.one_char(ch, Type::Minus),
            '+' => self.one_char(ch, Type::Plus),
            ';' => self.one_char(ch, Type::Semicolon),
            '*' => self.one_char(ch, Type::Star),
            '!' => self.operator(ch),
            '=' => self.operator(ch),
            '<' => self.operator(ch),
            '>' => self.operator(ch),
            '/' => {
                match self.taste('/') {
                    Some(_) => {
                        proof {
                            lemma_scan_at_comment(cs, i0, p);
                        }
                        self.skip_line()
                    },
                    None => self.one_char(ch, Type::Slash),
                }
            },
            '"' => self.string_token(ch),
            ' ' => {
                proof {
                    assert(scan_at(cs, i0, p) == scan_at(cs, i0 + 1, (p.0, p.1 + 1)));
                    assert(first_step(cs, i0, p) == first_step(cs, i0 + 1, (p.0, p.1 + 1)));
                }
                self.skip_forward()
            },
            '\r' => {
                proof {
                    assert(scan_at(cs, i0, p) == scan_at(cs, i0 + 1, (p.0, p.1 + 1)));
                    assert(first_step(cs, i0, p) == first_step(cs, i0 + 1, (p.0, p.1 + 1)));
                }
                self.skip_forward()
            },
            '\t' => {
                proof {
                    assert(scan_at(cs, i0, p) == scan_at(cs, i0 + 1, (p.0, p.1 + 1)));
                    assert(first_step(cs, i0, p) == first_step(cs, i0 + 1, (p.0, p.1 + 1)));
                }
                self.skip_forward()
            },
            '\n' => {
                proof {
                    assert(scan_at(cs, i0, p) == scan_at(cs, i0 + 1, (p.0 + 1, 0int)));
                    assert(first_step(cs, i0, p) == first_step(cs, i0 + 1, (p.0 + 1, 0int)));
                }
                self.skip_down()
            },
            _ => self.other(ch),
        }
    }
}

/// Scan a whole source: its full token list in source order, or the first
/// lexical error.  The result is exactly what the model assigns to the
/// source.
pub fn scan(source: String) -> (r: Result<Tokens, ScanError>)
    ensures
        match spec_scan(source@) {
            Ok(toks) => r is Ok && r->Ok_0@.map_values(|t: Token| t@) == toks,
            Err(e) => r is Err && r->Err_0@ == e,
        },
{
    let mut scanner = Scanner::new(source);
    let mut tokens: Vec<Token> = Vec::new();
    let ghost cs = scanner.src();
    proof {
        assert(tokens@.map_values(|t: Token| t@) =~= Seq::<TokenV>::empty());
    }
    loop
        invariant
            scanner.inv(),
            scanner.buffered().len() == 0,
            scanner.src() == cs,
            cs == source@,
            match scan_at(cs, scanner.at(), scanner.pos_of()) {
                Ok(rest) => spec_scan(cs) == Ok::<Seq<TokenV>, ScanErrorV>(
                    tokens@.map_values(|t: Token| t@) + rest,
                ),
                Err(e) => spec_scan(cs) == Err::<Seq<TokenV>, ScanErrorV>(e),
            },
        decreases scanner.cap() - scanner.at(),
    {
        let ghost toks0 = tokens@.map_values(|t: Token| t@);
        match scanner.next() {
            None => {
                proof {
                    assert(toks0 + Seq::<TokenV>::empty() =~= toks0);
                }
                return Ok(tokens);
            },
            Some(step) => match step {
                Ok(t) => {
                    proof {
                        if scan_at(cs, scanner.at(), scanner.pos_of()) is Ok {
                            let rest = scan_at(cs, scanner.at(), scanner.pos_of())->Ok_0;
                            assert(toks0 + (seq![t@] + rest) =~= (toks0 + seq![t@]) + rest);
                        }
                    }
                    tokens.push(t);
                    proof {
                        assert(tokens@.map_values(|t2: Token| t2@) =~= toks0 + seq![t@]);
                    }
                },
                Err(e) => {
                    return Err(e);
                },
            },
        }
    }
}

} // verus!
