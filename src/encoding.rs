//! The minified form of a UTF-8 document is UTF-8 as well: every piece of
//! the output is ASCII or a slice of the input cut next to ASCII bytes.
use vstd::prelude::*;

use vstd::utf8::{
    is_char_boundary_iff_not_is_continuation_byte,
    is_char_boundary_start_end_of_seq,
    is_continuation_byte,
    valid_utf8,
    valid_utf8_concat,
    valid_utf8_split,
};

use crate::block_string::{
    common_indent,
    dedent,
    dedent_line,
    dedented_line,
    first_nonblank,
    is_blank,
    is_ws_byte,
    join_lines,
    last_nonblank,
    leading_ws,
    lemma_ws_run_end_bounds,
    print_block,
    triple_quote,
    CARRIAGE_RETURN,
    LINE_FEED,
};
use crate::lexer::{
    block_scan,
    digits_end,
    is_digit,
    is_name_continue,
    is_terminator,
    lemma_block_scan_end,
    lemma_digits_end_bounds,
    lemma_lex_token_end,
    lemma_name_end_bounds,
    lemma_string_end_bounds,
    lemma_trivia_end_bounds,
    lex_token,
    name_end,
    string_end,
    trivia_end,
    Token,
    MINUS,
};
use crate::{minify_from, separator};

verus! {

pub open spec fn is_ascii_byte(b: u8) -> bool {
    b < 0x80u8
}

/// Position `k` does not cut a character of `s` in two.
pub open spec fn at_boundary(s: Seq<u8>, k: int) -> bool {
    k == s.len() || !is_continuation_byte(s[k])
}

pub proof fn lemma_ascii_valid(x: Seq<u8>)
    requires
        forall|k: int| 0 <= k < x.len() ==> is_ascii_byte(#[trigger] x[k]),
    ensures
        valid_utf8(x),
    decreases x.len(),
{
    if x.len() > 0 {
        let rest = x.subrange(1, x.len() as int);
        assert forall|k: int| 0 <= k < rest.len() implies is_ascii_byte(#[trigger] rest[k]) by {
            assert(rest[k] == x[k + 1]);
        }
        lemma_ascii_valid(rest);
        assert(x.drop_first() =~= rest);
    }
}

/// In valid UTF-8 no continuation byte follows an ASCII byte.
pub proof fn lemma_boundary_after_ascii(s: Seq<u8>, k: int)
    requires
        valid_utf8(s),
        0 < k <= s.len(),
        is_ascii_byte(s[k - 1]),
    ensures
        at_boundary(s, k),
{
    if k < s.len() {
        is_char_boundary_iff_not_is_continuation_byte(s, k - 1);
        valid_utf8_split(s, k - 1);
        let t = s.subrange(k - 1, s.len() as int);
        let u = s.subrange(k, s.len() as int);
        assert(t.drop_first() =~= u);
        assert(valid_utf8(u));
        is_char_boundary_iff_not_is_continuation_byte(u, 0);
        assert(u[0] == s[k]);
    }
}

/// A slice cut at two boundaries of valid UTF-8 is valid UTF-8.
pub proof fn lemma_valid_slice(s: Seq<u8>, a: int, b: int)
    requires
        valid_utf8(s),
        0 <= a <= b <= s.len(),
        a == b || at_boundary(s, a),
        at_boundary(s, b),
    ensures
        valid_utf8(s.subrange(a, b)),
{
    if a == b {
        lemma_ascii_valid(s.subrange(a, b));
    } else {
        if b < s.len() {
            is_char_boundary_iff_not_is_continuation_byte(s, b);
        } else {
            is_char_boundary_start_end_of_seq(s);
        }
        valid_utf8_split(s, b);
        let p = s.subrange(0, b);
        is_char_boundary_iff_not_is_continuation_byte(p, a);
        valid_utf8_split(p, a);
        assert(p.subrange(a, p.len() as int) =~= s.subrange(a, b));
    }
}

pub proof fn lemma_digits_end_last(s: Seq<u8>, i: int)
    requires
        0 <= i <= s.len(),
    ensures
        digits_end(s, i) > i ==> is_digit(s[digits_end(s, i) - 1]),
    decreases s.len() - i,
{
    if i < s.len() && is_digit(s[i]) {
        lemma_digits_end_last(s, i + 1);
    }
}

pub proof fn lemma_name_end_last(s: Seq<u8>, i: int)
    requires
        0 <= i <= s.len(),
    ensures
        name_end(s, i) > i ==> is_name_continue(s[name_end(s, i) - 1]),
    decreases s.len() - i,
{
    if i < s.len() && is_name_continue(s[i]) {
        lemma_name_end_last(s, i + 1);
    }
}

pub proof fn lemma_string_end_last(s: Seq<u8>, q: int)
    requires
        0 <= q <= s.len(),
    ensures
        string_end(s, q) matches Some(e) ==> s[e - 1] == 0x22u8,
    decreases s.len() - q,
{
    if q < s.len() && s[q] != 0x22u8 {
        if s[q] == 0x5cu8 {
            if q + 1 < s.len() && s[q + 1] != LINE_FEED {
                lemma_string_end_last(s, q + 2);
            }
        } else {
            lemma_string_end_last(s, q + 1);
        }
    }
}

/// A token starts and ends with an ASCII byte.
pub proof fn lemma_lex_token_ascii_ends(s: Seq<u8>, j: int)
    requires
        0 <= j < s.len(),
    ensures
        lex_token(s, j) matches Ok((t, e)) ==> is_ascii_byte(s[j]) && is_ascii_byte(s[e - 1]),
{
    lemma_lex_token_end(s, j);
    lemma_name_end_bounds(s, j + 1);
    lemma_name_end_last(s, j + 1);
    if j + 2 <= s.len() {
        lemma_name_end_bounds(s, j + 2);
        lemma_name_end_last(s, j + 2);
    }
    lemma_string_end_bounds(s, j + 1);
    lemma_string_end_last(s, j + 1);
    let a = if s[j] == MINUS {
        j + 1
    } else {
        j
    };
    lemma_digits_end_bounds(s, a);
    lemma_digits_end_last(s, a);
    let d = digits_end(s, a);
    if d + 1 < s.len() {
        lemma_digits_end_bounds(s, d + 1);
        lemma_digits_end_last(s, d + 1);
        let f = digits_end(s, d + 1);
        if f + 1 < s.len() {
            lemma_digits_end_bounds(s, f + 1);
            lemma_digits_end_last(s, f + 1);
        }
        if f + 2 < s.len() {
            lemma_digits_end_bounds(s, f + 2);
            lemma_digits_end_last(s, f + 2);
        }
    }
}

/// Every line of a block string body is valid UTF-8.
pub proof fn lemma_block_scan_valid(s: Seq<u8>, start: int, i: int)
    requires
        valid_utf8(s),
        0 <= start <= i <= s.len(),
        at_boundary(s, start),
    ensures
        forall|k: int|
            0 <= k < block_scan(s, start, i).0.len() ==> valid_utf8(
                #[trigger] block_scan(s, start, i).0[k],
            ),
    decreases s.len() - i,
{
    let r = block_scan(s, start, i);
    if i >= s.len() {
        if start < i {
            lemma_valid_slice(s, start, i);
            assert(r.0 =~= seq![s.subrange(start, i)]);
        }
    } else if i + 2 < s.len() && s[i] == 0x22u8 && s[i + 1] == 0x22u8 && s[i + 2] == 0x22u8 {
        if start < i {
            lemma_valid_slice(s, start, i);
            assert(r.0 =~= seq![s.subrange(start, i)]);
        }
    } else if i + 3 < s.len() && s[i] == 0x5cu8 && s[i + 1] == 0x22u8 && s[i + 2] == 0x22u8 && s[i
        + 3] == 0x22u8 {
        lemma_block_scan_valid(s, start, i + 4);
        assert(r == block_scan(s, start, i + 4));
    } else if is_terminator(s[i]) {
        let t = if s[i] == CARRIAGE_RETURN && i + 1 < s.len() && s[i + 1] == LINE_FEED {
            i + 2
        } else {
            i + 1
        };
        lemma_valid_slice(s, start, i);
        lemma_boundary_after_ascii(s, t);
        lemma_block_scan_valid(s, t, t);
        let rest = block_scan(s, t, t).0;
        assert forall|k: int| 0 <= k < r.0.len() implies valid_utf8(#[trigger] r.0[k]) by {
            if k > 0 {
                assert(r.0[k] == rest[k - 1]);
            } else {
                assert(r.0[0] == s.subrange(start, i));
            }
        }
    } else {
        lemma_block_scan_valid(s, start, i + 1);
        assert(r == block_scan(s, start, i + 1));
    }
}

pub proof fn lemma_common_indent_le(lines: Seq<Seq<u8>>, n: int, i: int)
    requires
        1 <= i < n <= lines.len(),
        !is_blank(lines[i]),
    ensures
        common_indent(lines, n) matches Some(c) && c <= leading_ws(lines[i]),
    decreases n,
{
    if i < n - 1 {
        lemma_common_indent_le(lines, n - 1, i);
    }
}

/// Dropping a prefix of indentation keeps a line valid UTF-8.
pub proof fn lemma_drop_indent_valid(line: Seq<u8>, c: int)
    requires
        valid_utf8(line),
        0 <= c <= line.len(),
        forall|k: int| 0 <= k < c ==> is_ws_byte(#[trigger] line[k]),
    ensures
        valid_utf8(line.subrange(c, line.len() as int)),
{
    if c == 0 {
        assert(line.subrange(c, line.len() as int) =~= line);
    } else {
        lemma_boundary_after_ascii(line, c);
        lemma_valid_slice(line, c, line.len() as int);
    }
}

pub proof fn lemma_first_last_nonblank(lines: Seq<Seq<u8>>, n: int)
    requires
        0 <= n <= lines.len(),
    ensures
        first_nonblank(lines, n) is Some <==> last_nonblank(lines, n) is Some,
        first_nonblank(lines, n) matches Some(f) ==> 0 <= f <= last_nonblank(lines, n)->0 < n,
    decreases n,
{
    if n > 0 {
        lemma_first_last_nonblank(lines, n - 1);
    }
}

/// Dedent keeps every line valid UTF-8.
pub proof fn lemma_dedent_valid(lines: Seq<Seq<u8>>)
    requires
        forall|k: int| 0 <= k < lines.len() ==> valid_utf8(#[trigger] lines[k]),
    ensures
        forall|k: int| 0 <= k < dedent(lines).len() ==> valid_utf8(#[trigger] dedent(lines)[k]),
{
    let n = lines.len() as int;
    lemma_first_last_nonblank(lines, n);
    let d = dedent(lines);
    if first_nonblank(lines, n) is Some {
        let f = first_nonblank(lines, n)->0;
        assert forall|k: int| 0 <= k < d.len() implies valid_utf8(#[trigger] d[k]) by {
            let i = f + k;
            assert(d[k] == dedented_line(lines, i));
            if i != 0 {
                let line = lines[i];
                lemma_ws_run_end_bounds(line, 0);
                match common_indent(lines, n) {
                    Some(c) => {
                        if line.len() > c {
                            if !is_blank(line) {
                                lemma_common_indent_le(lines, n, i);
                            }
                            lemma_drop_indent_valid(line, c as int);
                        } else {
                            lemma_ascii_valid(dedent_line(line, Some(c)));
                        }
                    },
                    None => {
                        lemma_ascii_valid(dedent_line(line, None));
                    },
                }
            }
        }
    }
}

pub proof fn lemma_join_lines_valid(lines: Seq<Seq<u8>>)
    requires
        forall|k: int| 0 <= k < lines.len() ==> valid_utf8(#[trigger] lines[k]),
    ensures
        valid_utf8(join_lines(lines)),
    decreases lines.len(),
{
    if lines.len() == 0 {
        lemma_ascii_valid(join_lines(lines));
    } else if lines.len() > 1 {
        let init = lines.drop_last();
        assert forall|k: int| 0 <= k < init.len() implies valid_utf8(#[trigger] init[k]) by {
            assert(init[k] == lines[k]);
        }
        lemma_join_lines_valid(init);
        lemma_ascii_valid(seq![LINE_FEED]);
        valid_utf8_concat(join_lines(init), seq![LINE_FEED]);
        valid_utf8_concat(join_lines(init) + seq![LINE_FEED], lines.last());
    }
}

/// The reprint of valid UTF-8 lines is valid UTF-8.
pub proof fn lemma_print_block_valid(lines: Seq<Seq<u8>>)
    requires
        forall|k: int| 0 <= k < lines.len() ==> valid_utf8(#[trigger] lines[k]),
    ensures
        valid_utf8(print_block(lines)),
{
    let tq = triple_quote();
    lemma_ascii_valid(tq);
    lemma_ascii_valid(seq![LINE_FEED]);
    lemma_ascii_valid(Seq::<u8>::empty());
    if lines.len() == 0 {
        valid_utf8_concat(tq, tq);
    } else {
        lemma_join_lines_valid(lines);
        let lead: Seq<u8> = if crate::block_string::needs_leading_newline(lines) {
            seq![LINE_FEED]
        } else {
            Seq::empty()
        };
        let trail: Seq<u8> = if crate::block_string::needs_trailing_newline(lines.last()) {
            seq![LINE_FEED]
        } else {
            Seq::empty()
        };
        valid_utf8_concat(tq, lead);
        valid_utf8_concat(tq + lead, join_lines(lines));
        valid_utf8_concat(tq + lead + join_lines(lines), trail);
        valid_utf8_concat(tq + lead + join_lines(lines) + trail, tq);
    }
}

/// The output for the tokens from a position that does not cut a character
/// is valid UTF-8.
pub proof fn lemma_minify_from_valid(s: Seq<u8>, i: int, last: Option<Token>)
    requires
        valid_utf8(s),
        0 <= i <= s.len(),
    ensures
        minify_from(s, i, last) matches Ok(r) ==> valid_utf8(r),
    decreases s.len() - i,
{
    lemma_trivia_end_bounds(s, i, false);
    let j = trivia_end(s, i, false);
    if j < s.len() {
        lemma_lex_token_end(s, j);
        lemma_lex_token_ascii_ends(s, j);
        if let Ok((t, e)) = lex_token(s, j) {
            let lexeme = if t == Token::BlockStringDelimiter {
                print_block(dedent(block_scan(s, e, e).0))
            } else {
                s.subrange(j, e)
            };
            let next = if t == Token::BlockStringDelimiter {
                block_scan(s, e, e).1
            } else {
                e
            };
            lemma_boundary_after_ascii(s, e);
            if t == Token::BlockStringDelimiter {
                lemma_block_scan_end(s, e, e);
                lemma_block_scan_valid(s, e, e);
                lemma_dedent_valid(block_scan(s, e, e).0);
                lemma_print_block_valid(dedent(block_scan(s, e, e).0));
            } else {
                lemma_valid_slice(s, j, e);
            }
            lemma_minify_from_valid(s, next, Some(t));
            if let Ok(rest) = minify_from(s, next, Some(t)) {
                let sep = separator(t, last);
                lemma_ascii_valid(sep);
                valid_utf8_concat(sep, lexeme);
                valid_utf8_concat(sep + lexeme, rest);
            }
        }
    } else {
        lemma_ascii_valid(Seq::<u8>::empty());
    }
}

} // verus!
