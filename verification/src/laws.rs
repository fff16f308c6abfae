//! Laws of the scanner, proved of the model in `crate::model`.
//!
//! The executable `scan` returns exactly what `spec_scan` assigns to a
//! source, so each law stated here of `spec_scan` holds of `scan`'s output.

use vstd::prelude::*;
use crate::token_type::Type;
use crate::model::{
    TokenV, LitV, scan_at, spec_scan, spec_literal, keyword_kind_of, is_number_text, spec_trim,
    is_ws, single_kind, pair_kinds, mk_token, spec_is_digit, spec_is_alpha,
    spec_is_alphanumeric, all_digits, number_tail, dot_at, number_dotted, lemma_dotted_witness,
    digits_end, alnum_end, find_char, lemma_digits_end, lemma_alnum_end, lemma_find_char,
    pos_after, pos_after_seq, lemma_scan_at_comment,
};

verus! {

/// Lexicographic order on `(line, column)` positions.
pub open spec fn lex_le(a: (int, int), b: (int, int)) -> bool {
    a.0 < b.0 || (a.0 == b.0 && a.1 <= b.1)
}

/// The lexeme is a contiguous slice of the source.
pub open spec fn from_source(cs: Seq<char>, t: TokenV) -> bool {
    exists|a: int, b: int| 0 <= a <= b <= cs.len() && t.lexeme == #[trigger] cs.subrange(a, b)
}

/// Everything the laws state of one token.
#[verifier::opaque]
pub open spec fn token_ok(cs: Seq<char>, t: TokenV) -> bool {
    &&& from_source(cs, t)
    &&& spec_trim(t.lexeme) == t.lexeme
    &&& t.literal == spec_literal(t.lexeme)
    &&& t.kind == Type::Number ==> is_number_text(t.lexeme) && t.literal == Some(
        LitV::Num(t.lexeme),
    )
    &&& t.kind == Type::String ==> t.lexeme.len() >= 2 && t.lexeme[0] == '"'
        && t.lexeme[t.lexeme.len() - 1] == '"' && t.literal == Some(
        LitV::Str(t.lexeme.subrange(1, t.lexeme.len() - 1)),
    )
    &&& keyword_kind_of(t.lexeme) is Some ==> t.kind == keyword_kind_of(t.lexeme)->Some_0
}

/// The positions of `toks` are at or past `p` and never go backwards.
pub open spec fn chain_from(p: (int, int), toks: Seq<TokenV>) -> bool {
    &&& forall|k: int| 0 <= k < toks.len() ==> lex_le(p, (#[trigger] toks[k]).position)
    &&& forall|k: int|
        0 <= k < toks.len() - 1 ==> lex_le(
            (#[trigger] toks[k]).position,
            (#[trigger] toks[k + 1]).position,
        )
}

#[verifier::rlimit(100)]
proof fn lemma_pos_after_seq_le(p: (int, int), s: Seq<char>)
    ensures
        lex_le(p, pos_after_seq(p, s)),
    decreases s.len(),
{
    if s.len() > 0 {
        lemma_pos_after_seq_le(pos_after(p, s[0]), s.drop_first());
    }
}

proof fn lemma_cons_ok(cs: Seq<char>, t: TokenV, rest: Seq<TokenV>)
    requires
        token_ok(cs, t),
        forall|k: int| 0 <= k < rest.len() ==> token_ok(cs, #[trigger] rest[k]),
    ensures
        forall|k: int| 0 <= k < (seq![t] + rest).len() ==> token_ok(cs, #[trigger] (seq![t]
            + rest)[k]),
{
    let all = seq![t] + rest;
    assert forall|k: int| 0 <= k < all.len() implies token_ok(cs, #[trigger] all[k]) by {
        if k == 0 {
            assert(all[0] == t);
        } else {
            assert(all[k] == rest[k - 1]);
        }
    }
}

proof fn lemma_cons_chain(p: (int, int), t: TokenV, rest: Seq<TokenV>)
    requires
        lex_le(p, t.position),
        chain_from(t.position, rest),
    ensures
        chain_from(p, seq![t] + rest),
{
    let all = seq![t] + rest;
    assert forall|k: int| 0 <= k < all.len() implies lex_le(p, (#[trigger] all[k]).position) by {
        if k == 0 {
            assert(all[0] == t);
        } else {
            assert(all[k] == rest[k - 1]);
            assert(lex_le(t.position, rest[k - 1].position));
        }
    }
    assert forall|k: int|
        0 <= k < all.len() - 1 implies lex_le(
        (#[trigger] all[k]).position,
        (#[trigger] all[k + 1]).position,
    ) by {
        if k == 0 {
            assert(all[0] == t);
            if rest.len() > 0 {
                assert(all[1] == rest[0]);
                assert(lex_le(t.position, rest[0].position));
            }
        } else {
            assert(all[k] == rest[k - 1]);
            assert(all[k + 1] == rest[k]);
            assert(lex_le(rest[k - 1].position, rest[(k - 1) + 1].position));
        }
    }
}

/// No reserved word begins with anything but a lower-case letter.
proof fn lemma_keyword_first_char(s: Seq<char>)
    requires
        s.len() == 0 || !('a' <= s[0] && s[0] <= 'z'),
    ensures
        keyword_kind_of(s) is None,
{
    reveal_strlit("and");
    reveal_strlit("class");
    reveal_strlit("else");
    reveal_strlit("false");
    reveal_strlit("for");
    reveal_strlit("fun");
    reveal_strlit("if");
    reveal_strlit("nil");
    reveal_strlit("or");
    reveal_strlit("print");
    reveal_strlit("return");
    reveal_strlit("super");
    reveal_strlit("this");
    reveal_strlit("true");
    reveal_strlit("var");
    reveal_strlit("while");
}

/// A text that opens with no digit and no sign spells no number.
proof fn lemma_not_number(s: Seq<char>)
    requires
        s.len() > 0,
        !spec_is_digit(s[0]),
        s[0] != '+',
        s[0] != '-',
    ensures
        !is_number_text(s),
{
    if is_number_text(s) {
        let t = number_tail(s);
        assert(t == s);
        assert(!spec_is_digit(t[0]));
        if !all_digits(t) {
            let d = lemma_dotted_witness(t);
            assert(dot_at(t, d));
            assert(spec_is_digit(t[0]));
        }
        assert(false);
    }
}

/// The lexemes `true` and `false` are the only ones whose literal is a
/// boolean; a lexeme of digits, with an optional dotted fraction, carries
/// itself as a number.
proof fn lemma_digits_literal(s: Seq<char>)
    requires
        s.len() > 0,
        spec_is_digit(s[0]),
        is_number_text(s),
    ensures
        spec_literal(s) == Some(LitV::Num(s)),
{
    reveal_strlit("true");
    reveal_strlit("false");
    assert(s != "true"@ && s != "false"@);
}

/// A quoted lexeme's literal is its inner text.
proof fn lemma_quoted_literal(s: Seq<char>)
    requires
        s.len() >= 2,
        s[0] == '"',
        s[s.len() - 1] == '"',
    ensures
        spec_literal(s) == Some(LitV::Str(s.subrange(1, s.len() - 1))),
{
    reveal_strlit("true");
    reveal_strlit("false");
    assert(s != "true"@ && s != "false"@);
    lemma_not_number(s);
}

/// The walk behind the laws: when the scan of `cs` from `i` at `p`
/// succeeds, every token it yields satisfies `token_ok`, and their
/// positions start at or past `p` and never go backwards.
#[verifier::rlimit(100)]
proof fn lemma_scan_at_ok(cs: Seq<char>, i: int, p: (int, int))
    requires
        0 <= i <= cs.len(),
        scan_at(cs, i, p) is Ok,
    ensures
        forall|k: int|
            0 <= k < scan_at(cs, i, p)->Ok_0.len() ==> token_ok(
                cs,
                #[trigger] scan_at(cs, i, p)->Ok_0[k],
            ),
        chain_from(p, scan_at(cs, i, p)->Ok_0),
    decreases cs.len() - i,
{
    let toks = scan_at(cs, i, p)->Ok_0;
    if i >= cs.len() {
        // Nothing is yielded.
    } else {
        let c = cs[i];
        if single_kind(c) is Some || (c == '/' && !(i + 1 < cs.len() && cs[i + 1] == '/')) {
            let q = (p.0, p.1 + 1);
            let kind = if single_kind(c) is Some {
                single_kind(c)->Some_0
            } else {
                Type::Slash
            };
            let lexeme = cs.subrange(i, i + 1);
            let t = mk_token(kind, lexeme, q);
            lemma_scan_at_ok(cs, i + 1, q);
            assert(token_ok(cs, t)) by {
                reveal(token_ok);
                assert(lexeme[0] == c && lexeme.len() == 1);
                assert(spec_trim(lexeme) == lexeme);
                lemma_keyword_first_char(lexeme);
                assert(kind != Type::Number && kind != Type::String);
            }
            lemma_cons_ok(cs, t, scan_at(cs, i + 1, q)->Ok_0);
            lemma_cons_chain(p, t, scan_at(cs, i + 1, q)->Ok_0);
            assert(toks == seq![t] + scan_at(cs, i + 1, q)->Ok_0);
        } else if pair_kinds(c) is Some {
            let ks = pair_kinds(c)->Some_0;
            if i + 1 < cs.len() && cs[i + 1] == '=' {
                let q = (p.0, p.1 + 2);
                let lexeme = cs.subrange(i, i + 2);
                let t = mk_token(ks.1, lexeme, q);
                lemma_scan_at_ok(cs, i + 2, q);
                assert(token_ok(cs, t)) by {
                reveal(token_ok);
                    assert(lexeme[0] == c && lexeme[1] == '=' && lexeme.len() == 2);
                    assert(spec_trim(lexeme) == lexeme);
                    lemma_keyword_first_char(lexeme);
                    assert(ks.1 != Type::Number && ks.1 != Type::String);
                }
                lemma_cons_ok(cs, t, scan_at(cs, i + 2, q)->Ok_0);
                lemma_cons_chain(p, t, scan_at(cs, i + 2, q)->Ok_0);
                assert(toks == seq![t] + scan_at(cs, i + 2, q)->Ok_0);
            } else {
                let q = (p.0, p.1 + 1);
                let lexeme = cs.subrange(i, i + 1);
                let t = mk_token(ks.0, lexeme, q);
                lemma_scan_at_ok(cs, i + 1, q);
                assert(token_ok(cs, t)) by {
                reveal(token_ok);
                    assert(lexeme[0] == c && lexeme.len() == 1);
                    assert(spec_trim(lexeme) == lexeme);
                    lemma_keyword_first_char(lexeme);
                    assert(ks.0 != Type::Number && ks.0 != Type::String);
                }
                lemma_cons_ok(cs, t, scan_at(cs, i + 1, q)->Ok_0);
            lemma_cons_chain(p, t, scan_at(cs, i + 1, q)->Ok_0);
                assert(toks == seq![t] + scan_at(cs, i + 1, q)->Ok_0);
            }
        } else if c == '/' {
            // A comment: nothing is yielded before the next line.
            lemma_scan_at_comment(cs, i, p);
            let e = find_char(cs, i + 2, '\n');
            lemma_find_char(cs, i + 2, '\n');
            if e < cs.len() {
                lemma_scan_at_ok(cs, e + 1, (p.0 + 1, 0));
            }
        } else if c == '"' {
            let e = find_char(cs, i + 1, '"');
            lemma_find_char(cs, i + 1, '"');
            assert(e < cs.len());
            let lexeme = cs.subrange(i, e + 1);
            let q = pos_after_seq(p, lexeme);
            let t = mk_token(Type::String, lexeme, q);
            lemma_scan_at_ok(cs, e + 1, q);
            lemma_pos_after_seq_le(p, lexeme);
            assert(token_ok(cs, t)) by {
                reveal(token_ok);
                assert(lexeme[0] == '"' && lexeme[lexeme.len() - 1] == cs[e]);
                assert(spec_trim(lexeme) == lexeme);
                lemma_quoted_literal(lexeme);
                lemma_keyword_first_char(lexeme);
            }
            lemma_cons_ok(cs, t, scan_at(cs, e + 1, q)->Ok_0);
            lemma_cons_chain(p, t, scan_at(cs, e + 1, q)->Ok_0);
            assert(toks == seq![t] + scan_at(cs, e + 1, q)->Ok_0);
        } else if is_ws(c) {
            lemma_scan_at_ok(cs, i + 1, (p.0, p.1 + 1));
        } else if c == '\n' {
            lemma_scan_at_ok(cs, i + 1, (p.0 + 1, 0));
        } else if spec_is_digit(c) {
            lemma_digits_end(cs, i + 1);
            let j = digits_end(cs, i + 1);
            let k = if j + 1 < cs.len() && cs[j] == '.' && spec_is_digit(cs[j + 1]) {
                lemma_digits_end(cs, j + 1);
                digits_end(cs, j + 1)
            } else {
                j
            };
            let q = (p.0, p.1 + (k - i));
            let lexeme = cs.subrange(i, k);
            let t = mk_token(Type::Number, lexeme, q);
            lemma_scan_at_ok(cs, k, q);
            assert(token_ok(cs, t)) by {
                reveal(token_ok);
                assert(lexeme[0] == c && lexeme[lexeme.len() - 1] == cs[k - 1]);
                assert(spec_is_digit(cs[k - 1]));
                assert(spec_trim(lexeme) == lexeme);
                assert(is_number_text(lexeme)) by {
                    assert(number_tail(lexeme) == lexeme);
                    if k == j {
                        assert forall|m: int| 0 <= m < lexeme.len() implies spec_is_digit(
                            #[trigger] lexeme[m],
                        ) by {
                            assert(lexeme[m] == cs[i + m]);
                        }
                        assert(all_digits(lexeme));
                    } else {
                        let d = j - i;
                        assert(lexeme[d] == cs[j] == '.');
                        assert forall|m: int| 0 <= m < d implies spec_is_digit(
                            #[trigger] lexeme[m],
                        ) by {
                            assert(lexeme[m] == cs[i + m]);
                        }
                        assert forall|m: int| d < m < lexeme.len() implies spec_is_digit(
                            #[trigger] lexeme[m],
                        ) by {
                            assert(lexeme[m] == cs[i + m]);
                        }
                        assert(dot_at(lexeme, d));
                        assert(number_dotted(lexeme));
                    }
                }
                lemma_digits_literal(lexeme);
                lemma_keyword_first_char(lexeme);
            }
            lemma_cons_ok(cs, t, scan_at(cs, k, q)->Ok_0);
            lemma_cons_chain(p, t, scan_at(cs, k, q)->Ok_0);
            assert(toks == seq![t] + scan_at(cs, k, q)->Ok_0);
        } else if spec_is_alpha(c) {
            lemma_alnum_end(cs, i + 1);
            let j = alnum_end(cs, i + 1);
            let lexeme = cs.subrange(i, j);
            let kind = match keyword_kind_of(lexeme) {
                Some(kk) => kk,
                None => Type::Identifier,
            };
            let q = (p.0, p.1 + (j - i));
            let t = mk_token(kind, lexeme, q);
            lemma_scan_at_ok(cs, j, q);
            assert(token_ok(cs, t)) by {
                reveal(token_ok);
                assert(lexeme[0] == c && lexeme[lexeme.len() - 1] == cs[j - 1]);
                assert(j - 1 == i || spec_is_alphanumeric(cs[j - 1]));
                assert(spec_trim(lexeme) == lexeme);
                assert(kind != Type::Number && kind != Type::String) by {
                    reveal_strlit("and");
                    reveal_strlit("class");
                    reveal_strlit("else");
                    reveal_strlit("false");
                    reveal_strlit("for");
                    reveal_strlit("fun");
                    reveal_strlit("if");
                    reveal_strlit("nil");
                    reveal_strlit("or");
                    reveal_strlit("print");
                    reveal_strlit("return");
                    reveal_strlit("super");
                    reveal_strlit("this");
                    reveal_strlit("true");
                    reveal_strlit("var");
                    reveal_strlit("while");
                }
            }
            lemma_cons_ok(cs, t, scan_at(cs, j, q)->Ok_0);
            lemma_cons_chain(p, t, scan_at(cs, j, q)->Ok_0);
            assert(toks == seq![t] + scan_at(cs, j, q)->Ok_0);
        } else {
            assert(scan_at(cs, i, p) is Err);
        }
    }
}

/// Every token's lexeme is a contiguous slice of the source, and trimming
/// leaves it unchanged.
#[verifier::rlimit(100)]
pub proof fn lemma_lexemes_verbatim(cs: Seq<char>)
    requires
        spec_scan(cs) is Ok,
    ensures
        forall|k: int|
            0 <= k < spec_scan(cs)->Ok_0.len() ==> from_source(cs, #[trigger] spec_scan(
                cs,
            )->Ok_0[k]) && spec_trim(spec_scan(cs)->Ok_0[k].lexeme) == spec_scan(
                cs,
            )->Ok_0[k].lexeme,
{
    reveal(token_ok);
    lemma_scan_at_ok(cs, 0, (0, 0));
}

/// Every `Number` token carries its lexeme as its number literal, and the
/// lexeme spells a number; its double-precision value is the decode of the
/// lexeme, which the library leaves to its caller.
#[verifier::rlimit(100)]
pub proof fn lemma_number_literal(cs: Seq<char>)
    requires
        spec_scan(cs) is Ok,
    ensures
        forall|k: int|
            0 <= k < spec_scan(cs)->Ok_0.len() && (#[trigger] spec_scan(cs)->Ok_0[k]).kind
                == Type::Number ==> is_number_text(spec_scan(cs)->Ok_0[k].lexeme) && spec_scan(
                cs,
            )->Ok_0[k].literal == Some(LitV::Num(spec_scan(cs)->Ok_0[k].lexeme)),
{
    reveal(token_ok);
    lemma_scan_at_ok(cs, 0, (0, 0));
}

/// Every `String` token's lexeme opens and closes with a double quote, and
/// its literal is the text between them.
#[verifier::rlimit(100)]
pub proof fn lemma_string_literal(cs: Seq<char>)
    requires
        spec_scan(cs) is Ok,
    ensures
        forall|k: int|
            0 <= k < spec_scan(cs)->Ok_0.len() && (#[trigger] spec_scan(cs)->Ok_0[k]).kind
                == Type::String ==> {
                let lexeme = spec_scan(cs)->Ok_0[k].lexeme;
                lexeme.len() >= 2 && lexeme[0] == '"' && lexeme[lexeme.len() - 1] == '"'
                    && spec_scan(cs)->Ok_0[k].literal == Some(
                    LitV::Str(lexeme.subrange(1, lexeme.len() - 1)),
                )
            },
{
    reveal(token_ok);
    lemma_scan_at_ok(cs, 0, (0, 0));
}

/// Positions never go backwards: each token's position is lexicographically
/// at or past its predecessor's.
#[verifier::rlimit(100)]
pub proof fn lemma_positions_monotonic(cs: Seq<char>)
    requires
        spec_scan(cs) is Ok,
    ensures
        forall|k: int|
            0 <= k < spec_scan(cs)->Ok_0.len() - 1 ==> lex_le(
                (#[trigger] spec_scan(cs)->Ok_0[k]).position,
                spec_scan(cs)->Ok_0[k + 1].position,
            ),
{
    reveal(token_ok);
    lemma_scan_at_ok(cs, 0, (0, 0));
}

/// A token whose lexeme is a reserved spelling has the keyword's kind,
/// never `Identifier`.
#[verifier::rlimit(100)]
pub proof fn lemma_keyword_identity(cs: Seq<char>)
    requires
        spec_scan(cs) is Ok,
    ensures
        forall|k: int|
            0 <= k < spec_scan(cs)->Ok_0.len() && keyword_kind_of(
                (#[trigger] spec_scan(cs)->Ok_0[k]).lexeme,
            ) is Some ==> spec_scan(cs)->Ok_0[k].kind == keyword_kind_of(
                spec_scan(cs)->Ok_0[k].lexeme,
            )->Some_0,
{
    reveal(token_ok);
    lemma_scan_at_ok(cs, 0, (0, 0));
}

} // verus!
