//! How long the minified document can be.
use vstd::prelude::*;

use crate::block_string::{
    dedent,
    dedented_line,
    first_nonblank,
    join_lines,
    last_nonblank,
    print_block,
    sum_lens,
    CARRIAGE_RETURN,
    LINE_FEED,
};
use crate::encoding::lemma_first_last_nonblank;
use crate::lexer::{
    block_scan,
    is_terminator,
    lemma_block_scan_end,
    lemma_lex_token_end,
    lemma_trivia_end_bounds,
    lex_token,
    trivia_end,
    Token,
};
use crate::{minified, minify_from, space_needed, separator};

verus! {

/// The number of block strings among the tokens from position `i` on.
pub open spec fn block_count_from(s: Seq<u8>, i: int) -> nat
    decreases s.len() - i,
    via block_count_decreases
{
    let j = trivia_end(s, i, false);
    if i < 0 || j >= s.len() {
        0
    } else {
        match lex_token(s, j) {
            Err(_) => 0,
            Ok((t, e)) => if t == Token::BlockStringDelimiter {
                1 + block_count_from(s, block_scan(s, e, e).1)
            } else {
                block_count_from(s, e)
            },
        }
    }
}

#[via_fn]
proof fn block_count_decreases(s: Seq<u8>, i: int) {
    if 0 <= i <= s.len() {
        lemma_trivia_end_bounds(s, i, false);
        let j = trivia_end(s, i, false);
        if j < s.len() {
            lemma_lex_token_end(s, j);
            if let Ok((t, e)) = lex_token(s, j) {
                lemma_block_scan_end(s, e, e);
            }
        }
    }
}

/// Wherever a space goes between two tokens from position `i` on, the
/// input holds at least one ignored character between them.
pub open spec fn spaces_replace_trivia_from(s: Seq<u8>, i: int, last: Option<Token>) -> bool
    decreases s.len() - i,
    via spaces_decreases
{
    let j = trivia_end(s, i, false);
    if i < 0 || j >= s.len() {
        true
    } else {
        match lex_token(s, j) {
            Err(_) => true,
            Ok((t, e)) => (space_needed(t, last) ==> i < j) && spaces_replace_trivia_from(
                s,
                if t == Token::BlockStringDelimiter {
                    block_scan(s, e, e).1
                } else {
                    e
                },
                Some(t),
            ),
        }
    }
}

#[via_fn]
proof fn spaces_decreases(s: Seq<u8>, i: int, last: Option<Token>) {
    if 0 <= i <= s.len() {
        lemma_trivia_end_bounds(s, i, false);
        let j = trivia_end(s, i, false);
        if j < s.len() {
            lemma_lex_token_end(s, j);
            if let Ok((t, e)) = lex_token(s, j) {
                lemma_block_scan_end(s, e, e);
            }
        }
    }
}

/// The number of block strings in a document.
pub open spec fn block_strings(s: Seq<u8>) -> nat {
    block_count_from(s, 0)
}

/// Every space of the minified document stands in for at least one ignored
/// character of the input.
pub open spec fn spaces_replace_trivia(s: Seq<u8>) -> bool {
    spaces_replace_trivia_from(s, 0, None)
}

pub proof fn lemma_sum_lens_concat(a: Seq<Seq<u8>>, b: Seq<Seq<u8>>)
    ensures
        sum_lens(a + b) == sum_lens(a) + sum_lens(b),
    decreases b.len(),
{
    if b.len() == 0 {
        assert(a + b =~= a);
    } else {
        assert((a + b).drop_last() =~= a + b.drop_last());
        lemma_sum_lens_concat(a, b.drop_last());
    }
}

pub proof fn lemma_sum_lens_pointwise(d: Seq<Seq<u8>>, e: Seq<Seq<u8>>)
    requires
        d.len() == e.len(),
        forall|k: int| 0 <= k < d.len() ==> (#[trigger] d[k]).len() <= e[k].len(),
    ensures
        sum_lens(d) <= sum_lens(e),
    decreases d.len(),
{
    if d.len() > 0 {
        lemma_sum_lens_pointwise(d.drop_last(), e.drop_last());
    }
}

pub proof fn lemma_join_lines_len(lines: Seq<Seq<u8>>)
    ensures
        join_lines(lines).len() <= sum_lens(lines) + lines.len(),
        lines.len() > 0 ==> join_lines(lines).len() + 1 == sum_lens(lines) + lines.len(),
    decreases lines.len(),
{
    if lines.len() > 1 {
        lemma_join_lines_len(lines.drop_last());
    } else if lines.len() == 1 {
        assert(lines.drop_last().len() == 0);
        assert(sum_lens(lines.drop_last()) == 0);
        assert(join_lines(lines) == lines[0]);
    }
}

/// The lines of a block string body, with a line feed after each, are no
/// longer than the body and one more byte.
pub proof fn lemma_block_scan_len(s: Seq<u8>, start: int, i: int)
    requires
        0 <= start <= i <= s.len(),
    ensures
        sum_lens(block_scan(s, start, i).0) + block_scan(s, start, i).0.len() <= block_scan(
            s,
            start,
            i,
        ).1 - start + 1,
    decreases s.len() - i,
{
    lemma_block_scan_end(s, start, i);
    let r = block_scan(s, start, i);
    if i >= s.len() || (i + 2 < s.len() && s[i] == 0x22u8 && s[i + 1] == 0x22u8 && s[i + 2]
        == 0x22u8) {
        if start < i {
            assert(r.0 =~= seq![s.subrange(start, i)]);
            assert(r.0.drop_last().len() == 0);
            assert(sum_lens(r.0.drop_last()) == 0);
            assert(sum_lens(r.0) == i - start);
        } else {
            assert(r.0.len() == 0);
        }
    } else if i + 3 < s.len() && s[i] == 0x5cu8 && s[i + 1] == 0x22u8 && s[i + 2] == 0x22u8 && s[i
        + 3] == 0x22u8 {
        lemma_block_scan_len(s, start, i + 4);
        assert(r == block_scan(s, start, i + 4));
    } else if is_terminator(s[i]) {
        let t = if s[i] == CARRIAGE_RETURN && i + 1 < s.len() && s[i + 1] == LINE_FEED {
            i + 2
        } else {
            i + 1
        };
        lemma_block_scan_len(s, t, t);
        let x = seq![s.subrange(start, i)];
        lemma_sum_lens_concat(x, block_scan(s, t, t).0);
        assert(x.drop_last().len() == 0);
        assert(sum_lens(x.drop_last()) == 0);
        assert(sum_lens(x) == i - start);
        assert(r.0 == x + block_scan(s, t, t).0);
        assert(r.1 == block_scan(s, t, t).1);
    } else {
        lemma_block_scan_len(s, start, i + 1);
        assert(r == block_scan(s, start, i + 1));
    }
}

/// Dedent does not make the lines longer.
pub proof fn lemma_dedent_len(lines: Seq<Seq<u8>>)
    ensures
        sum_lens(dedent(lines)) + dedent(lines).len() <= sum_lens(lines) + lines.len(),
{
    let n = lines.len() as int;
    lemma_first_last_nonblank(lines, n);
    let d = dedent(lines);
    if first_nonblank(lines, n) is Some {
        let f = first_nonblank(lines, n)->0;
        let l = last_nonblank(lines, n)->0;
        let kept = lines.subrange(f, l + 1);
        assert forall|k: int| 0 <= k < d.len() implies (#[trigger] d[k]).len() <= kept[k].len() by {
            assert(d[k] == dedented_line(lines, f + k));
        }
        lemma_sum_lens_pointwise(d, kept);
        assert(lines =~= lines.subrange(0, f) + kept + lines.subrange(l + 1, n));
        lemma_sum_lens_concat(lines.subrange(0, f), kept);
        lemma_sum_lens_concat(lines.subrange(0, f) + kept, lines.subrange(l + 1, n));
    }
}

pub proof fn lemma_print_block_len(lines: Seq<Seq<u8>>)
    ensures
        print_block(lines).len() <= 7 + sum_lens(lines) + lines.len(),
{
    lemma_join_lines_len(lines);
}

/// The output for the tokens from `i` on is at most five bytes per block
/// string longer than the input from `i` on.
pub proof fn lemma_minify_from_len(s: Seq<u8>, i: int, last: Option<Token>)
    requires
        0 <= i <= s.len(),
        spaces_replace_trivia_from(s, i, last),
    ensures
        minify_from(s, i, last) matches Ok(r) ==> r.len() <= s.len() - i + 5 * block_count_from(
            s,
            i,
        ),
    decreases s.len() - i,
{
    lemma_trivia_end_bounds(s, i, false);
    let j = trivia_end(s, i, false);
    if j < s.len() {
        lemma_lex_token_end(s, j);
        if let Ok((t, e)) = lex_token(s, j) {
            let sep = separator(t, last);
            if t == Token::BlockStringDelimiter {
                lemma_block_scan_end(s, e, e);
                let b = block_scan(s, e, e);
                lemma_block_scan_len(s, e, e);
                lemma_dedent_len(b.0);
                lemma_print_block_len(dedent(b.0));
                lemma_minify_from_len(s, b.1, Some(t));
            } else {
                lemma_minify_from_len(s, e, Some(t));
            }
        }
    }
}

/// Minifying makes a document at most five bytes longer per block string,
/// where every space that the output puts between two tokens stands in for
/// at least one ignored character of the input.
pub proof fn minified_length_bound(s: Seq<u8>)
    requires
        spaces_replace_trivia(s),
    ensures
        minified(s) matches Ok(m) ==> m.len() <= s.len() + 5 * block_strings(s),
{
    lemma_minify_from_len(s, 0, None);
}

} // verus!
