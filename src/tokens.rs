//! The token sequence of a document, and how minifying keeps it.
use vstd::prelude::*;

use crate::block_string::{dedent, print_block, QUOTE};
use crate::lexer::{
    block_scan,
    digits_end,
    first_terminator,
    is_digit,
    is_name_continue,
    lemma_block_scan_end,
    lemma_digits_end_bounds,
    lemma_first_terminator,
    lemma_lex_token_end,
    lemma_name_end_bounds,
    lemma_string_end_bounds,
    lemma_trivia_end_bounds,
    lex_token,
    name_end,
    string_end,
    trivia_end,
    Token,
    DOT,
    LOWER_E,
    MINUS,
};
use crate::{minified, minify_error, minify_from, separator, MinifyError};

verus! {

/// The tokens from position `i` on, each with its text in the output: the
/// source text, or the reprint of a block string.
pub open spec fn tokens_from(s: Seq<u8>, i: int) -> Result<Seq<(Token, Seq<u8>)>, MinifyError>
    decreases s.len() - i,
    via tokens_decreases
{
    let j = trivia_end(s, i, false);
    if i < 0 || j >= s.len() {
        Ok(Seq::empty())
    } else {
        match lex_token(s, j) {
            Err(e) => Err(minify_error(s, j, e)),
            Ok((t, e)) => {
                let lexeme = if t == Token::BlockStringDelimiter {
                    print_block(dedent(block_scan(s, e, e).0))
                } else {
                    s.subrange(j, e)
                };
                let next = if t == Token::BlockStringDelimiter {
                    block_scan(s, e, e).1
                } else {
                    e
                };
                match tokens_from(s, next) {
                    Ok(rest) => Ok(seq![(t, lexeme)] + rest),
                    Err(err) => Err(err),
                }
            },
        }
    }
}

#[via_fn]
proof fn tokens_decreases(s: Seq<u8>, i: int) {
    if 0 <= i <= s.len() {
        lemma_trivia_end_bounds(s, i, false);
        let j = trivia_end(s, i, false);
        if j < s.len() {
            lemma_lex_token_end(s, j);
            if let Ok((t, e)) = lex_token(s, j) {
                lemma_block_scan_end(s, e, e);
            }
        }
    }
}

/// The token sequence of a document.
pub open spec fn tokens(s: Seq<u8>) -> Result<Seq<(Token, Seq<u8>)>, MinifyError> {
    tokens_from(s, 0)
}

/// The tokens written one after the other, with a space where the join
/// policy asks for one; `last` is the token before them.
pub open spec fn render(ts: Seq<(Token, Seq<u8>)>, last: Option<Token>) -> Seq<u8>
    decreases ts.len(),
{
    if ts.len() == 0 {
        Seq::empty()
    } else {
        separator(ts[0].0, last) + ts[0].1 + render(ts.drop_first(), Some(ts[0].0))
    }
}

/// A variable or directive followed, with no space, by a number or boolean
/// that starts with a name character would read as one longer name.
pub open spec fn fuses(p: Token, c: Token, first: u8) -> bool {
    (p == Token::Variable || p == Token::Directive) && (c == Token::Int || c == Token::Float || c
        == Token::Bool) && is_name_continue(first)
}

/// No token that would run into the variable or directive before it.
pub open spec fn stay_apart(ts: Seq<(Token, Seq<u8>)>, last: Option<Token>) -> bool
    decreases ts.len(),
{
    ts.len() == 0 || (ts[0].1.len() > 0 && !(last matches Some(p) && fuses(p, ts[0].0, ts[0].1[0]))
        && stay_apart(ts.drop_first(), Some(ts[0].0)))
}

/// No number or boolean in the document runs into the variable or directive
/// before it.
pub open spec fn tokens_stay_apart(s: Seq<u8>) -> bool {
    tokens(s) matches Ok(ts) ==> stay_apart(ts, None)
}

/// The minified output is the rendering of the token sequence.
pub proof fn lemma_minify_from_render(s: Seq<u8>, i: int, last: Option<Token>)
    requires
        0 <= i <= s.len(),
    ensures
        minify_from(s, i, last) == match tokens_from(s, i) {
            Ok(ts) => Ok::<Seq<u8>, MinifyError>(render(ts, last)),
            Err(e) => Err(e),
        },
    decreases s.len() - i,
{
    lemma_trivia_end_bounds(s, i, false);
    let j = trivia_end(s, i, false);
    if j < s.len() {
        lemma_lex_token_end(s, j);
        if let Ok((t, e)) = lex_token(s, j) {
            let lexeme = if t == Token::BlockStringDelimiter {
                print_block(dedent(block_scan(s, e, e).0))
            } else {
                s.subrange(j, e)
            };
            let next = if t == Token::BlockStringDelimiter {
                block_scan(s, e, e).1
            } else {
                e
            };
            lemma_block_scan_end(s, e, e);
            lemma_minify_from_render(s, next, Some(t));
            if let Ok(rest) = tokens_from(s, next) {
                let ts = seq![(t, lexeme)] + rest;
                assert(ts.drop_first() =~= rest);
                assert(ts[0] == (t, lexeme));
                assert(separator(t, last) + lexeme + render(rest, Some(t)) =~= separator(t, last)
                    + lexeme + render(rest, Some(t)));
            }
        }
    } else {
        assert(render(Seq::<(Token, Seq<u8>)>::empty(), last) =~= Seq::<u8>::empty());
    }
}

pub proof fn lemma_digits_end_props(s: Seq<u8>, a: int)
    requires
        0 <= a <= s.len(),
    ensures
        forall|k: int| a <= k < digits_end(s, a) ==> is_digit(#[trigger] s[k]),
        digits_end(s, a) < s.len() ==> !is_digit(s[digits_end(s, a)]),
    decreases s.len() - a,
{
    lemma_digits_end_bounds(s, a);
    if a < s.len() && is_digit(s[a]) {
        lemma_digits_end_props(s, a + 1);
    }
}

pub proof fn lemma_digits_end_exact(o: Seq<u8>, a: int, d: int)
    requires
        0 <= a <= d <= o.len(),
        forall|k: int| a <= k < d ==> is_digit(#[trigger] o[k]),
        d == o.len() || !is_digit(o[d]),
    ensures
        digits_end(o, a) == d,
    decreases d - a,
{
    if a < d {
        lemma_digits_end_exact(o, a + 1, d);
    }
}

pub proof fn lemma_name_end_props(s: Seq<u8>, a: int)
    requires
        0 <= a <= s.len(),
    ensures
        forall|k: int| a <= k < name_end(s, a) ==> is_name_continue(#[trigger] s[k]),
        name_end(s, a) < s.len() ==> !is_name_continue(s[name_end(s, a)]),
    decreases s.len() - a,
{
    lemma_name_end_bounds(s, a);
    if a < s.len() && is_name_continue(s[a]) {
        lemma_name_end_props(s, a + 1);
    }
}

pub proof fn lemma_name_end_exact(o: Seq<u8>, a: int, d: int)
    requires
        0 <= a <= d <= o.len(),
        forall|k: int| a <= k < d ==> is_name_continue(#[trigger] o[k]),
        d == o.len() || !is_name_continue(o[d]),
    ensures
        name_end(o, a) == d,
    decreases d - a,
{
    if a < d {
        lemma_name_end_exact(o, a + 1, d);
    }
}

/// Where a string body reads the same, it ends at the same place.
pub proof fn lemma_string_end_frame(s: Seq<u8>, q: int, e: int, o: Seq<u8>, q2: int)
    requires
        0 <= q < e <= s.len(),
        string_end(s, q) == Some(e),
        0 <= q2,
        q2 + (e - q) <= o.len(),
        forall|k: int| q <= k < e ==> o[q2 + (k - q)] == #[trigger] s[k],
    ensures
        string_end(o, q2) == Some(q2 + (e - q)),
    decreases e - q,
{
    assert(o[q2 + (q - q)] == s[q]);
    if s[q] != QUOTE {
        if s[q] == 0x5cu8 {
            lemma_string_end_bounds(s, q + 2);
            assert(o[q2 + ((q + 1) - q)] == s[q + 1]);
            assert forall|k: int| q + 2 <= k < e implies o[(q2 + 2) + (k - (q + 2))] == #[trigger] s[k] by {
                assert(o[q2 + (k - q)] == s[k]);
            }
            lemma_string_end_frame(s, q + 2, e, o, q2 + 2);
        } else {
            lemma_string_end_bounds(s, q + 1);
            assert forall|k: int| q + 1 <= k < e implies o[(q2 + 1) + (k - (q + 1))] == #[trigger] s[k] by {
                assert(o[q2 + (k - q)] == s[k]);
            }
            lemma_string_end_frame(s, q + 1, e, o, q2 + 1);
        }
    }
}

/// The byte at `k` ends a token of kind `t` that runs up to `k`.
pub open spec fn stops_before(t: Token, o: Seq<u8>, k: int) -> bool {
    k == o.len() || match t {
        Token::Identifier | Token::Bool | Token::Variable | Token::Directive => !is_name_continue(
            o[k],
        ),
        Token::Int => !is_digit(o[k]) && !(o[k] == DOT && k + 1 < o.len() && is_digit(o[k + 1])),
        Token::Float => !is_digit(o[k]) && o[k] != LOWER_E,
        Token::String => o[k] != QUOTE,
        _ => true,
    }
}

/// The text of `s` at `j..e` stands in `o` at `q`.
pub open spec fn same_window(s: Seq<u8>, j: int, e: int, o: Seq<u8>, q: int) -> bool {
    0 <= j <= e <= s.len() && 0 <= q && q + (e - j) <= o.len() && forall|k: int|
        j <= k < e ==> o[q + (k - j)] == #[trigger] s[k]
}

proof fn lemma_window_digits(s: Seq<u8>, j: int, e: int, o: Seq<u8>, q: int, a: int, d: int)
    requires
        same_window(s, j, e, o, q),
        j <= a <= d <= e,
        forall|k: int| a <= k < d ==> is_digit(#[trigger] s[k]),
    ensures
        forall|k: int| q + (a - j) <= k < q + (d - j) ==> is_digit(#[trigger] o[k]),
{
    assert forall|k: int| q + (a - j) <= k < q + (d - j) implies is_digit(#[trigger] o[k]) by {
        let m = j + (k - q);
        assert(o[q + (m - j)] == s[m]);
    }
}

proof fn lemma_window_names(s: Seq<u8>, j: int, e: int, o: Seq<u8>, q: int, a: int)
    requires
        same_window(s, j, e, o, q),
        j <= a <= e,
        forall|k: int| a <= k < e ==> is_name_continue(#[trigger] s[k]),
    ensures
        forall|k: int| q + (a - j) <= k < q + (e - j) ==> is_name_continue(#[trigger] o[k]),
{
    assert forall|k: int| q + (a - j) <= k < q + (e - j) implies is_name_continue(
        #[trigger] o[k],
    ) by {
        let m = j + (k - q);
        assert(o[q + (m - j)] == s[m]);
    }
}

proof fn lemma_relex_number(s: Seq<u8>, j: int, e: int, t: Token, o: Seq<u8>, q: int)
    requires
        0 <= j < s.len(),
        lex_token(s, j) == Ok::<(Token, int), crate::lexer::LexingError>((t, e)),
        t == Token::Int || t == Token::Float,
        same_window(s, j, e, o, q),
        stops_before(t, o, q + (e - j)),
    ensures
        crate::lexer::number_token(o, q) == Some((t, q + (e - j))),
{
    lemma_lex_token_end(s, j);
    let n = e - j;
    assert(crate::lexer::number_token(s, j) == Some((t, e)));
    assert(o[q + (j - j)] == s[j]);
    let a = if s[j] == MINUS {
        j + 1
    } else {
        j
    };
    let a2 = q + (a - j);
    lemma_digits_end_bounds(s, a);
    lemma_digits_end_props(s, a);
    let d = digits_end(s, a);
    let d2 = q + (d - j);
    if t == Token::Int {
        assert(e == d);
        lemma_window_digits(s, j, e, o, q, a, d);
        lemma_digits_end_exact(o, a2, d2);
    } else {
        lemma_digits_end_bounds(s, d + 1);
        lemma_digits_end_props(s, d + 1);
        let f = digits_end(s, d + 1);
        if f + 2 <= s.len() {
            lemma_digits_end_bounds(s, f + 2);
            lemma_digits_end_props(s, f + 2);
        }
        if f + 1 <= s.len() {
            lemma_digits_end_bounds(s, f + 1);
            lemma_digits_end_props(s, f + 1);
        }
        assert(d + 1 < e);
        assert(f <= e);
        lemma_window_digits(s, j, e, o, q, a, d);
        assert(o[q + (d - j)] == s[d]);
        assert(o[q + ((d + 1) - j)] == s[d + 1]);
        lemma_digits_end_exact(o, a2, d2);
        let f2 = q + (f - j);
        lemma_window_digits(s, j, e, o, q, d + 1, f);
        if f < e {
            assert(o[q + (f - j)] == s[f]);
            assert(o[q + ((f + 1) - j)] == s[f + 1]);
        }
        lemma_digits_end_exact(o, d2 + 1, f2);
        if f < e {
            let e0 = if f + 1 < s.len() && (s[f + 1] == 0x2bu8 || s[f + 1] == MINUS) {
                f + 2
            } else {
                f + 1
            };
            if e0 == f + 2 {
                assert(o[q + ((f + 2) - j)] == s[f + 2]);
            }
            lemma_window_digits(s, j, e, o, q, e0, e);
            lemma_digits_end_exact(o, q + (e0 - j), q + n);
        }
    }
}

/// A token that is not a block string reads the same wherever its text
/// stands, as long as the byte after it ends it.
pub proof fn lemma_relex_token(s: Seq<u8>, j: int, e: int, t: Token, o: Seq<u8>, q: int)
    requires
        0 <= j < s.len(),
        lex_token(s, j) == Ok::<(Token, int), crate::lexer::LexingError>((t, e)),
        t != Token::BlockStringDelimiter,
        same_window(s, j, e, o, q),
        stops_before(t, o, q + (e - j)),
    ensures
        lex_token(o, q) == Ok::<(Token, int), crate::lexer::LexingError>((t, q + (e - j))),
{
    lemma_lex_token_end(s, j);
    let n = e - j;
    let c = s[j];
    assert(o[q + (j - j)] == s[j]);
    if n > 1 {
        assert(o[q + ((j + 1) - j)] == s[j + 1]);
    }
    if n > 2 {
        assert(o[q + ((j + 2) - j)] == s[j + 2]);
    }
    if t == Token::String {
        lemma_string_end_bounds(s, j + 1);
        lemma_string_end_frame(s, j + 1, e, o, q + 1);
        lemma_first_terminator(s, j, e);
        lemma_first_terminator(o, q, q + n);
        if let Some(p) = first_terminator(o, q, q + n) {
            let m = j + (p - q);
            assert(o[q + (m - j)] == s[m]);
        }
    } else if t == Token::Int || t == Token::Float {
        lemma_relex_number(s, j, e, t, o, q);
    } else if t == Token::Variable || t == Token::Directive {
        lemma_name_end_bounds(s, j + 2);
        lemma_name_end_props(s, j + 2);
        lemma_window_names(s, j, e, o, q, j + 2);
        lemma_name_end_exact(o, q + 2, q + n);
    } else if t == Token::Identifier || t == Token::Bool {
        lemma_name_end_bounds(s, j + 1);
        lemma_name_end_props(s, j + 1);
        lemma_window_names(s, j, e, o, q, j + 1);
        lemma_name_end_exact(o, q + 1, q + n);
        assert(o.subrange(q, q + n) =~= s.subrange(j, e)) by {
            assert forall|k: int| 0 <= k < n implies o.subrange(q, q + n)[k] == s.subrange(j, e)[k] by {
                assert(o[q + ((j + k) - j)] == s[j + k]);
            }
        }
    }
}

/// The text of the token that the scanner finds at `j`, and where the
/// scanner goes on.
pub open spec fn token_text(s: Seq<u8>, j: int, t: Token, e: int) -> (Seq<u8>, int) {
    if t == Token::BlockStringDelimiter {
        (print_block(dedent(block_scan(s, e, e).0)), block_scan(s, e, e).1)
    } else {
        (s.subrange(j, e), e)
    }
}

/// What follows a token in the rendering ends it: the end of the text, a
/// space, or the first byte of a token that cannot continue it.
proof fn lemma_next_stops(t: Token, s: Seq<u8>, i: int, o: Seq<u8>, k: int)
    requires
        0 <= i <= s.len(),
        tokens_from(s, i) matches Ok(rest) && stay_apart(rest, Some(t)) && 0 <= k <= o.len()
            && o.subrange(k, o.len() as int) == render(rest, Some(t)),
    ensures
        stops_before(t, o, k),
{
    let rest = tokens_from(s, i)->Ok_0;
    lemma_trivia_end_bounds(s, i, false);
    let j = trivia_end(s, i, false);
    if j < s.len() {
        lemma_lex_token_end(s, j);
        let (t2, e2) = lex_token(s, j)->Ok_0;
        let (x, next) = token_text(s, j, t2, e2);
        let rest2 = tokens_from(s, next)->Ok_0;
        assert(rest == seq![(t2, x)] + rest2);
        assert(rest[0] == (t2, x));
        assert(rest.drop_first() =~= rest2);
        let sep = separator(t2, Some(t));
        let r = render(rest, Some(t));
        assert(r == sep + x + render(rest2, Some(t2)));
        assert(o[k] == o.subrange(k, o.len() as int)[0]);
        if sep.len() == 0 {
            assert(r[0] == x[0]);
            if t2 == Token::BlockStringDelimiter {
                assert(x[0] == QUOTE);
            } else {
                assert(x[0] == s[j]);
                if e2 - j > 1 {
                    assert(r[1] == x[1]);
                    assert(o[k + 1] == o.subrange(k, o.len() as int)[1]);
                    assert(x[1] == s[j + 1]);
                }
            }
        } else {
            assert(r[0] == 0x20u8);
        }
    } else {
        assert(render(rest, Some(t)).len() == 0);
        assert(o.subrange(k, o.len() as int).len() == 0);
    }
}

/// A block string reads back as the same block string wherever its reprint
/// stands.
proof fn lemma_relex_block(s: Seq<u8>, j: int, o: Seq<u8>, q: int)
    requires
        0 <= j < s.len(),
        lex_token(s, j) matches Ok((t, e)) && t == Token::BlockStringDelimiter,
        0 <= q,
        q + token_text(s, j, Token::BlockStringDelimiter, j + 3).0.len() <= o.len(),
        o.subrange(q, q + token_text(s, j, Token::BlockStringDelimiter, j + 3).0.len())
            == token_text(s, j, Token::BlockStringDelimiter, j + 3).0,
    ensures
        lex_token(o, q) == Ok::<(Token, int), crate::lexer::LexingError>(
            (Token::BlockStringDelimiter, q + 3),
        ),
        token_text(o, q, Token::BlockStringDelimiter, q + 3) == (
            token_text(s, j, Token::BlockStringDelimiter, j + 3).0,
            q + token_text(s, j, Token::BlockStringDelimiter, j + 3).0.len(),
        ),
{
    let e = j + 3;
    assert(lex_token(s, j) == Ok::<(Token, int), crate::lexer::LexingError>((Token::BlockStringDelimiter, e)));
    lemma_block_scan_end(s, e, e);
    let lines = block_scan(s, e, e).0;
    let d = dedent(lines);
    let x = print_block(d);
    assert(o.subrange(q, q + x.len())[0] == o[q]);
    assert(o.subrange(q, q + x.len())[1] == o[q + 1]);
    assert(o.subrange(q, q + x.len())[2] == o[q + 2]);
    assert(x[0] == QUOTE && x[1] == QUOTE && x[2] == QUOTE);
    crate::reprint::lemma_line_end_bounds(s, e);
    crate::reprint::lemma_block_lines_clean(s, e, e);
    crate::reprint::lemma_dedent_clean(lines);
    crate::reprint::lemma_dedent_ends(lines);
    if d.len() > 0 {
        crate::block_string::lemma_ws_run_end_bounds(d.last(), 0);
    }
    crate::reprint::lemma_scan_print(o, q, d);
    crate::reprint::lemma_reread_dedent(lines);
}

/// Reading the rendering of a document's tokens gives the same tokens back.
pub proof fn lemma_relex(s: Seq<u8>, i: int, last: Option<Token>, o: Seq<u8>, p: int)
    requires
        0 <= i <= s.len(),
        tokens_from(s, i) matches Ok(ts) && stay_apart(ts, last) && 0 <= p <= o.len()
            && o.subrange(p, o.len() as int) == render(ts, last),
    ensures
        tokens_from(o, p) == tokens_from(s, i),
    decreases s.len() - i,
{
    let ts = tokens_from(s, i)->Ok_0;
    lemma_trivia_end_bounds(s, i, false);
    let j = trivia_end(s, i, false);
    if j < s.len() {
        lemma_lex_token_end(s, j);
        let (t, e) = lex_token(s, j)->Ok_0;
        let (x, next) = token_text(s, j, t, e);
        if t == Token::BlockStringDelimiter {
            lemma_block_scan_end(s, e, e);
        }
        let n = x.len() as int;
        let rest = tokens_from(s, next)->Ok_0;
        assert(ts == seq![(t, x)] + rest);
        assert(ts[0] == (t, x));
        assert(ts.drop_first() =~= rest);
        let sep = separator(t, last);
        let tail = render(rest, Some(t));
        let r = render(ts, last);
        assert(r == sep + x + tail);
        let q = p + sep.len();
        assert(o.subrange(q, q + n) =~= x) by {
            assert forall|m: int| 0 <= m < n implies o.subrange(q, q + n)[m] == x[m] by {
                assert(o[q + m] == o.subrange(p, o.len() as int)[sep.len() + m]);
                assert(r[sep.len() + m] == x[m]);
            }
        }
        assert(o.subrange(q + n, o.len() as int) =~= tail) by {
            assert forall|m: int| 0 <= m < tail.len() implies o.subrange(q + n, o.len() as int)[m]
                == tail[m] by {
                assert(o[q + n + m] == o.subrange(p, o.len() as int)[sep.len() + n + m]);
                assert(r[sep.len() + n + m] == tail[m]);
            }
        }
        if t == Token::BlockStringDelimiter {
            lemma_relex_block(s, j, o, q);
            assert(o[q] == o.subrange(q, q + n)[0]);
            assert(x[0] == QUOTE);
        } else {
            assert forall|m: int| j <= m < e implies o[q + (m - j)] == #[trigger] s[m] by {
                assert(o.subrange(q, q + n)[m - j] == o[q + (m - j)]);
            }
            assert(same_window(s, j, e, o, q));
            lemma_next_stops(t, s, e, o, q + n);
            lemma_relex_token(s, j, e, t, o, q);
            assert(o[q + (j - j)] == s[j]);
        }
        if sep.len() > 0 {
            assert(o[p] == o.subrange(p, o.len() as int)[0]);
            assert(r[0] == 0x20u8);
            assert(trivia_end(o, p + 1, false) == q);
        }
        assert(trivia_end(o, p, false) == q);
        lemma_relex(s, next, Some(t), o, q + n);
    } else {
        assert(render(ts, last).len() == 0);
        assert(o.subrange(p, o.len() as int).len() == 0);
    }
}

/// For a document in which no number or boolean runs into the variable or
/// directive before it, the minified document has the same token sequence:
/// the same kinds, the same text, and block strings with the same lines
/// after dedent.
pub proof fn minify_keeps_tokens(s: Seq<u8>)
    requires
        tokens_stay_apart(s),
    ensures
        minified(s) matches Ok(m) ==> tokens(m) == tokens(s),
{
    lemma_minify_from_render(s, 0, None);
    if let Ok(ts) = tokens(s) {
        let m = render(ts, None);
        assert(m.subrange(0, m.len() as int) =~= m);
        lemma_relex(s, 0, None, m, 0);
    }
}

/// For a document in which no number or boolean runs into the variable or
/// directive before it, minifying the minified document changes nothing.
pub proof fn minify_is_idempotent(s: Seq<u8>)
    requires
        tokens_stay_apart(s),
    ensures
        minified(s) matches Ok(m) ==> minified(m) == Ok::<Seq<u8>, MinifyError>(m),
{
    minify_keeps_tokens(s);
    lemma_minify_from_render(s, 0, None);
    if let Ok(m) = minified(s) {
        lemma_minify_from_render(m, 0, None);
    }
}

} // verus!
