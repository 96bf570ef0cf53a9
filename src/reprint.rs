//! Reading a reprinted block string gives back the lines it was printed from.
use vstd::prelude::*;

use crate::block_string::{
    common_indent,
    dedent,
    dedent_line,
    dedented_line,
    first_nonblank,
    is_blank,
    is_ws_byte,
    join_lines,
    last_nonblank,
    leading_ws,
    lemma_ws_run_end_bounds,
    needs_leading_newline,
    needs_trailing_newline,
    print_block,
    ws_run_end,
    BACKSLASH,
    CARRIAGE_RETURN,
    LINE_FEED,
    QUOTE,
};
use crate::encoding::{lemma_common_indent_le, lemma_first_last_nonblank};
use crate::lexer::{block_scan, is_terminator};

verus! {

/// Scanning a line from position `k` as the block string scanner does meets
/// no closing delimiter and no line break inside the line.
pub open spec fn clean_from(x: Seq<u8>, k: int) -> bool
    decreases x.len() - k,
{
    if k < 0 || k >= x.len() {
        true
    } else if k + 2 < x.len() && x[k] == QUOTE && x[k + 1] == QUOTE && x[k + 2] == QUOTE {
        false
    } else if k + 3 < x.len() && x[k] == BACKSLASH && x[k + 1] == QUOTE && x[k + 2] == QUOTE && x[k
        + 3] == QUOTE {
        clean_from(x, k + 4)
    } else if is_terminator(x[k]) {
        false
    } else {
        clean_from(x, k + 1)
    }
}

/// Where the block string line that the scanner is in at `i` ends.
pub open spec fn line_end(s: Seq<u8>, i: int) -> int
    decreases s.len() - i,
{
    if i < 0 || i >= s.len() {
        i
    } else if i + 2 < s.len() && s[i] == QUOTE && s[i + 1] == QUOTE && s[i + 2] == QUOTE {
        i
    } else if i + 3 < s.len() && s[i] == BACKSLASH && s[i + 1] == QUOTE && s[i + 2] == QUOTE && s[i
        + 3] == QUOTE {
        line_end(s, i + 4)
    } else if is_terminator(s[i]) {
        i
    } else {
        line_end(s, i + 1)
    }
}

pub proof fn lemma_line_end_bounds(s: Seq<u8>, i: int)
    requires
        0 <= i <= s.len(),
    ensures
        i <= line_end(s, i) <= s.len(),
    decreases s.len() - i,
{
    if i < s.len() {
        if i + 2 < s.len() && s[i] == QUOTE && s[i + 1] == QUOTE && s[i + 2] == QUOTE {
        } else if i + 3 < s.len() && s[i] == BACKSLASH && s[i + 1] == QUOTE && s[i + 2] == QUOTE
            && s[i + 3] == QUOTE {
            lemma_line_end_bounds(s, i + 4);
        } else if !is_terminator(s[i]) {
            lemma_line_end_bounds(s, i + 1);
        }
    }
}

/// The line that the scanner is in is clean from where the scanner stands.
pub proof fn lemma_line_clean(s: Seq<u8>, start: int, i: int)
    requires
        0 <= start <= i <= s.len(),
    ensures
        clean_from(s.subrange(start, line_end(s, i)), i - start),
    decreases s.len() - i,
{
    lemma_line_end_bounds(s, i);
    let b = line_end(s, i);
    let x = s.subrange(start, b);
    let k = i - start;
    if i < s.len() {
        if i + 2 < s.len() && s[i] == QUOTE && s[i + 1] == QUOTE && s[i + 2] == QUOTE {
        } else if i + 3 < s.len() && s[i] == BACKSLASH && s[i + 1] == QUOTE && s[i + 2] == QUOTE
            && s[i + 3] == QUOTE {
            lemma_line_end_bounds(s, i + 4);
            lemma_line_clean(s, start, i + 4);
            assert(x[k] == s[i] && x[k + 1] == s[i + 1] && x[k + 2] == s[i + 2] && x[k + 3] == s[i
                + 3]);
        } else if !is_terminator(s[i]) {
            lemma_line_end_bounds(s, i + 1);
            lemma_line_clean(s, start, i + 1);
            assert(x[k] == s[i]);
            if k + 2 < x.len() {
                assert(x[k + 1] == s[i + 1] && x[k + 2] == s[i + 2]);
            }
            if k + 3 < x.len() {
                assert(x[k + 3] == s[i + 3]);
            }
        }
    }
}

/// Every line that the block string scanner yields is clean.
pub proof fn lemma_block_lines_clean(s: Seq<u8>, start: int, i: int)
    requires
        0 <= start <= i <= s.len(),
        line_end(s, start) == line_end(s, i),
    ensures
        forall|k: int|
            0 <= k < block_scan(s, start, i).0.len() ==> clean_from(
                #[trigger] block_scan(s, start, i).0[k],
                0,
            ),
    decreases s.len() - i,
{
    let r = block_scan(s, start, i);
    lemma_line_end_bounds(s, start);
    lemma_line_clean(s, start, start);
    if i >= s.len() || (i + 2 < s.len() && s[i] == QUOTE && s[i + 1] == QUOTE && s[i + 2]
        == QUOTE) {
        if start < i {
            assert(r.0 =~= seq![s.subrange(start, i)]);
        }
    } else if i + 3 < s.len() && s[i] == BACKSLASH && s[i + 1] == QUOTE && s[i + 2] == QUOTE && s[i
        + 3] == QUOTE {
        lemma_block_lines_clean(s, start, i + 4);
        assert(r == block_scan(s, start, i + 4));
    } else if is_terminator(s[i]) {
        let t = if s[i] == CARRIAGE_RETURN && i + 1 < s.len() && s[i + 1] == LINE_FEED {
            i + 2
        } else {
            i + 1
        };
        lemma_block_lines_clean(s, t, t);
        let rest = block_scan(s, t, t).0;
        assert forall|k: int| 0 <= k < r.0.len() implies clean_from(#[trigger] r.0[k], 0) by {
            if k > 0 {
                assert(r.0[k] == rest[k - 1]);
            } else {
                assert(r.0[0] == s.subrange(start, i));
            }
        }
    } else {
        lemma_block_lines_clean(s, start, i + 1);
        assert(r == block_scan(s, start, i + 1));
    }
}

/// Cleanness does not depend on a prefix that was dropped.
pub proof fn lemma_clean_shift(x: Seq<u8>, c: int, k: int)
    requires
        0 <= c <= x.len(),
        0 <= k,
    ensures
        clean_from(x, c + k) == clean_from(x.subrange(c, x.len() as int), k),
    decreases x.len() - (c + k),
{
    let y = x.subrange(c, x.len() as int);
    if c + k < x.len() {
        assert(y[k] == x[c + k]);
        if k + 1 < y.len() {
            assert(y[k + 1] == x[c + k + 1]);
        }
        if k + 2 < y.len() {
            assert(y[k + 2] == x[c + k + 2]);
        }
        if k + 3 < y.len() {
            assert(y[k + 3] == x[c + k + 3]);
        }
        lemma_clean_shift(x, c, k + 1);
        if c + k + 4 <= x.len() {
            lemma_clean_shift(x, c, k + 4);
        }
    }
}

/// Indentation is stepped over one byte at a time.
pub proof fn lemma_clean_skip_ws(x: Seq<u8>, k: int, c: int)
    requires
        0 <= k <= c <= x.len(),
        forall|j: int| k <= j < c ==> is_ws_byte(#[trigger] x[j]),
        clean_from(x, k),
    ensures
        clean_from(x, c),
    decreases c - k,
{
    if k < c {
        assert(is_ws_byte(x[k]));
        lemma_clean_skip_ws(x, k + 1, c);
    }
}

/// Dedent keeps every line clean.
pub proof fn lemma_dedent_clean(lines: Seq<Seq<u8>>)
    requires
        forall|k: int| 0 <= k < lines.len() ==> clean_from(#[trigger] lines[k], 0),
    ensures
        forall|k: int| 0 <= k < dedent(lines).len() ==> clean_from(#[trigger] dedent(lines)[k], 0),
{
    let n = lines.len() as int;
    lemma_first_last_nonblank(lines, n);
    let d = dedent(lines);
    if first_nonblank(lines, n) is Some {
        let f = first_nonblank(lines, n)->0;
        assert forall|k: int| 0 <= k < d.len() implies clean_from(#[trigger] d[k], 0) by {
            let i = f + k;
            assert(d[k] == dedented_line(lines, i));
            if i != 0 {
                let line = lines[i];
                lemma_ws_run_end_bounds(line, 0);
                if let Some(c) = common_indent(lines, n) {
                    if line.len() > c {
                        if !is_blank(line) {
                            lemma_common_indent_le(lines, n, i);
                        }
                        lemma_clean_skip_ws(line, 0, c as int);
                        lemma_clean_shift(line, c as int, 0);
                    }
                }
            }
        }
    }
}

/// The byte of `x` at `k`, the closing delimiter's quotes after its end.
pub open spec fn byte_or_quote(x: Seq<u8>, k: int) -> u8 {
    if 0 <= k < x.len() {
        x[k]
    } else {
        QUOTE
    }
}

/// Scanning `x` followed by a closing delimiter from position `k` reaches
/// the end of `x` and nothing closes earlier.
pub open spec fn closes_at_end(x: Seq<u8>, k: int) -> bool
    decreases x.len() - k,
{
    if k < 0 || k > x.len() {
        false
    } else if k == x.len() {
        true
    } else if byte_or_quote(x, k) == QUOTE && byte_or_quote(x, k + 1) == QUOTE && byte_or_quote(
        x,
        k + 2,
    ) == QUOTE {
        false
    } else if byte_or_quote(x, k) == BACKSLASH && byte_or_quote(x, k + 1) == QUOTE
        && byte_or_quote(x, k + 2) == QUOTE && byte_or_quote(x, k + 3) == QUOTE {
        k + 4 <= x.len() && closes_at_end(x, k + 4)
    } else if is_terminator(x[k]) {
        false
    } else {
        closes_at_end(x, k + 1)
    }
}

/// A clean line followed by a line feed is read as one line.
pub proof fn lemma_scan_line_then_lf(o: Seq<u8>, a: int, x: Seq<u8>, k: int)
    requires
        0 <= a,
        a + x.len() < o.len(),
        o.subrange(a, a + x.len()) == x,
        o[a + x.len()] == LINE_FEED,
        0 <= k <= x.len(),
        clean_from(x, k),
    ensures
        block_scan(o, a, a + k) == (
            seq![x] + block_scan(o, a + x.len() + 1, a + x.len() + 1).0,
            block_scan(o, a + x.len() + 1, a + x.len() + 1).1,
        ),
    decreases x.len() - k,
{
    let i = a + k;
    let b = a + x.len();
    if k < x.len() {
        assert(o.subrange(a, b)[k] == o[i]);
        if k + 1 < x.len() {
            assert(o.subrange(a, b)[k + 1] == o[i + 1]);
        }
        if k + 2 < x.len() {
            assert(o.subrange(a, b)[k + 2] == o[i + 2]);
        }
        if k + 3 < x.len() {
            assert(o.subrange(a, b)[k + 3] == o[i + 3]);
        }
        if k + 3 < x.len() && x[k] == BACKSLASH && x[k + 1] == QUOTE && x[k + 2] == QUOTE && x[k
            + 3] == QUOTE {
            lemma_scan_line_then_lf(o, a, x, k + 4);
        } else {
            lemma_scan_line_then_lf(o, a, x, k + 1);
        }
    }
}

/// A line whose scan closes at its end, followed by the closing delimiter,
/// is read as the last line.
pub proof fn lemma_scan_line_then_close(o: Seq<u8>, a: int, x: Seq<u8>, k: int)
    requires
        0 <= a,
        a + x.len() + 3 <= o.len(),
        o.subrange(a, a + x.len()) == x,
        o[a + x.len()] == QUOTE,
        o[a + x.len() + 1] == QUOTE,
        o[a + x.len() + 2] == QUOTE,
        0 <= k <= x.len(),
        closes_at_end(x, k),
    ensures
        block_scan(o, a, a + k) == (
            if 0 < x.len() {
                seq![x]
            } else {
                Seq::<Seq<u8>>::empty()
            },
            a + x.len() + 3,
        ),
    decreases x.len() - k,
{
    let i = a + k;
    let b = a + x.len();
    if k < x.len() {
        if k + 1 < x.len() {
            assert(o.subrange(a, b)[k + 1] == o[i + 1]);
        }
        if k + 2 < x.len() {
            assert(o.subrange(a, b)[k + 2] == o[i + 2]);
        }
        if k + 3 < x.len() {
            assert(o.subrange(a, b)[k + 3] == o[i + 3]);
        }
        assert(o.subrange(a, b)[k] == o[i]);
        assert(o[i] == byte_or_quote(x, k + 0));
        assert(o[i + 1] == byte_or_quote(x, k + 1));
        assert(o[i + 2] == byte_or_quote(x, k + 2));
        assert(o[i + 3] == byte_or_quote(x, k + 3));
        if byte_or_quote(x, k) == BACKSLASH && byte_or_quote(x, k + 1) == QUOTE && byte_or_quote(
            x,
            k + 2,
        ) == QUOTE && byte_or_quote(x, k + 3) == QUOTE {
            lemma_scan_line_then_close(o, a, x, k + 4);
        } else {
            lemma_scan_line_then_close(o, a, x, k + 1);
        }
    } else {
        assert(o.subrange(a, i) == x);
    }
}

/// A clean line that does not end in a quote or a backslash closes at its end.
pub proof fn lemma_closes_plain_end(x: Seq<u8>, k: int)
    requires
        0 <= k <= x.len(),
        clean_from(x, k),
        x.len() == 0 || (x.last() != QUOTE && x.last() != BACKSLASH),
    ensures
        closes_at_end(x, k),
    decreases x.len() - k,
{
    if k < x.len() {
        if k + 3 < x.len() && x[k] == BACKSLASH && x[k + 1] == QUOTE && x[k + 2] == QUOTE && x[k
            + 3] == QUOTE {
            lemma_closes_plain_end(x, k + 4);
        } else {
            lemma_closes_plain_end(x, k + 1);
        }
    }
}

/// A clean line that ends in an escaped triple quote closes at its end: the
/// scan reaches the escape at its start and steps over it.
pub proof fn lemma_closes_escaped_end(x: Seq<u8>, k: int)
    requires
        0 <= k <= x.len(),
        clean_from(x, k),
        crate::block_string::ends_with_escaped_triple_quote(x),
        k != x.len() - 1,
        k != x.len() - 2,
        k != x.len() - 3,
    ensures
        closes_at_end(x, k),
    decreases x.len() - k,
{
    let n = x.len() as int;
    assert(x.subrange(n - 4, n)[0] == x[n - 4]);
    assert(x.subrange(n - 4, n)[1] == x[n - 3]);
    assert(x.subrange(n - 4, n)[2] == x[n - 2]);
    assert(x.subrange(n - 4, n)[3] == x[n - 1]);
    assert(x[n - 4] == BACKSLASH && x[n - 3] == QUOTE && x[n - 2] == QUOTE && x[n - 1] == QUOTE);
    if k < n {
        if k + 3 < n && x[k] == BACKSLASH && x[k + 1] == QUOTE && x[k + 2] == QUOTE && x[k + 3]
            == QUOTE {
            lemma_closes_escaped_end(x, k + 4);
        } else {
            lemma_closes_escaped_end(x, k + 1);
        }
    }
}

/// A clean last line that needs no line feed before the closing delimiter
/// closes at its end.
pub proof fn lemma_closes_without_newline(x: Seq<u8>)
    requires
        clean_from(x, 0),
        !needs_trailing_newline(x),
    ensures
        closes_at_end(x, 0),
{
    if x.len() == 0 || (x.last() != QUOTE && x.last() != BACKSLASH) {
        lemma_closes_plain_end(x, 0);
    } else {
        lemma_closes_escaped_end(x, 0);
    }
}

pub proof fn lemma_join_lines_first(lines: Seq<Seq<u8>>)
    requires
        lines.len() >= 2,
    ensures
        join_lines(lines) == lines[0] + seq![LINE_FEED] + join_lines(lines.drop_first()),
    decreases lines.len(),
{
    let rest = lines.drop_first();
    if lines.len() == 2 {
        assert(lines.drop_last() =~= seq![lines[0]]);
        assert(rest =~= seq![lines[1]]);
        assert(join_lines(lines.drop_last()) == lines[0]);
        assert(join_lines(rest) == lines[1]);
        assert(join_lines(lines) =~= lines[0] + seq![LINE_FEED] + join_lines(rest));
    } else {
        let init = lines.drop_last();
        lemma_join_lines_first(init);
        assert(init.drop_first() =~= rest.drop_last());
        assert(rest.last() == lines.last());
        assert(init[0] == lines[0]);
        assert(join_lines(lines) =~= lines[0] + seq![LINE_FEED] + join_lines(rest));
    }
}

/// The joined lines, an optional line feed and the closing delimiter are
/// read back as the same lines.
pub proof fn lemma_scan_joined(o: Seq<u8>, a: int, lines: Seq<Seq<u8>>, trail: bool)
    requires
        0 <= a,
        lines.len() >= 1,
        lines.last().len() > 0,
        forall|k: int| 0 <= k < lines.len() ==> clean_from(#[trigger] lines[k], 0),
        !trail ==> closes_at_end(lines.last(), 0),
        a + join_lines(lines).len() + (if trail {
            1int
        } else {
            0int
        }) + 3 <= o.len(),
        o.subrange(a, a + join_lines(lines).len()) == join_lines(lines),
        trail ==> o[a + join_lines(lines).len()] == LINE_FEED,
        o[a + join_lines(lines).len() + (if trail {
            1int
        } else {
            0int
        })] == QUOTE,
        o[a + join_lines(lines).len() + (if trail {
            1int
        } else {
            0int
        }) + 1] == QUOTE,
        o[a + join_lines(lines).len() + (if trail {
            1int
        } else {
            0int
        }) + 2] == QUOTE,
    ensures
        block_scan(o, a, a) == (
            lines,
            a + join_lines(lines).len() + (if trail {
                1int
            } else {
                0int
            }) + 3,
        ),
    decreases lines.len(),
{
    let j = join_lines(lines);
    let x = lines[0];
    if lines.len() == 1 {
        assert(j == x);
        assert(lines =~= seq![x]);
        if trail {
            lemma_scan_line_then_lf(o, a, x, 0);
            let c = a + x.len() + 1;
            assert(block_scan(o, c, c) == (Seq::<Seq<u8>>::empty(), c + 3));
            assert(seq![x] + Seq::<Seq<u8>>::empty() =~= seq![x]);
        } else {
            lemma_scan_line_then_close(o, a, x, 0);
        }
    } else {
        let rest = lines.drop_first();
        lemma_join_lines_first(lines);
        let jr = join_lines(rest);
        let c = a + x.len() + 1;
        assert(j == x + seq![LINE_FEED] + jr);
        assert(o.subrange(a, a + x.len()) =~= x) by {
            assert forall|m: int| 0 <= m < x.len() implies o.subrange(a, a + x.len())[m] == x[m] by {
                assert(o.subrange(a, a + j.len())[m] == j[m]);
            }
        }
        assert(o[a + x.len()] == LINE_FEED) by {
            assert(o.subrange(a, a + j.len())[x.len() as int] == j[x.len() as int]);
        }
        assert(o.subrange(c, c + jr.len()) =~= jr) by {
            assert forall|m: int| 0 <= m < jr.len() implies o.subrange(c, c + jr.len())[m] == jr[m] by {
                assert(o.subrange(a, a + j.len())[x.len() + 1 + m] == j[x.len() + 1 + m]);
            }
        }
        assert forall|k: int| 0 <= k < rest.len() implies clean_from(#[trigger] rest[k], 0) by {
            assert(rest[k] == lines[k + 1]);
        }
        assert(rest.last() == lines.last());
        lemma_scan_line_then_lf(o, a, x, 0);
        lemma_scan_joined(o, c, rest, trail);
        assert(seq![x] + rest =~= lines);
    }
}

/// What the block string scanner reads back from a reprint: the printed
/// lines, after an empty one where a line feed follows the opening delimiter.
pub open spec fn reread_lines(lines: Seq<Seq<u8>>) -> Seq<Seq<u8>> {
    if lines.len() > 0 && needs_leading_newline(lines) {
        seq![Seq::<u8>::empty()] + lines
    } else {
        lines
    }
}

/// Reading a reprint of clean lines, whatever follows it.
pub proof fn lemma_scan_print(o: Seq<u8>, q: int, lines: Seq<Seq<u8>>)
    requires
        0 <= q,
        q + print_block(lines).len() <= o.len(),
        o.subrange(q, q + print_block(lines).len()) == print_block(lines),
        forall|k: int| 0 <= k < lines.len() ==> clean_from(#[trigger] lines[k], 0),
        lines.len() > 0 ==> lines.last().len() > 0,
    ensures
        block_scan(o, q + 3, q + 3) == (reread_lines(lines), q + print_block(lines).len()),
{
    let p = print_block(lines);
    assert forall|m: int| 0 <= m < p.len() implies o[q + m] == #[trigger] p[m] by {
        assert(o.subrange(q, q + p.len())[m] == p[m]);
    }
    if lines.len() == 0 {
        assert(o[q + 3] == p[3] && o[q + 4] == p[4] && o[q + 5] == p[5]);
    } else {
        let lead = needs_leading_newline(lines);
        let trail = needs_trailing_newline(lines.last());
        let j = join_lines(lines);
        let l: int = if lead {
            1
        } else {
            0
        };
        let t: int = if trail {
            1
        } else {
            0
        };
        let a = q + 3 + l;
        assert(p.len() == 3 + l + j.len() + t + 3);
        assert(o.subrange(a, a + j.len()) =~= j) by {
            assert forall|m: int| 0 <= m < j.len() implies o.subrange(a, a + j.len())[m] == j[m] by {
                assert(o[q + (3 + l + m)] == p[3 + l + m]);
            }
        }
        if trail {
            assert(o[q + (3 + l + j.len())] == p[3 + l + j.len()]);
        }
        assert(o[q + (3 + l + j.len() + t)] == p[3 + l + j.len() + t]);
        assert(o[q + (3 + l + j.len() + t + 1)] == p[3 + l + j.len() + t + 1]);
        assert(o[q + (3 + l + j.len() + t + 2)] == p[3 + l + j.len() + t + 2]);
        if !trail {
            lemma_closes_without_newline(lines.last());
        }
        lemma_scan_joined(o, a, lines, trail);
        if lead {
            assert(o[q + 3] == p[3]);
            assert(o.subrange(q + 3, q + 3) =~= Seq::<u8>::empty());
        }
    }
}

pub proof fn lemma_ws_run_end_shift(x: Seq<u8>, c: int, k: int)
    requires
        0 <= c <= x.len(),
        0 <= k,
    ensures
        ws_run_end(x.subrange(c, x.len() as int), k) == ws_run_end(x, c + k) - c,
    decreases x.len() - (c + k),
{
    if c + k < x.len() {
        assert(x.subrange(c, x.len() as int)[k] == x[c + k]);
        lemma_ws_run_end_shift(x, c, k + 1);
    }
}

pub proof fn lemma_ws_run_end_inside(x: Seq<u8>, c: int)
    requires
        0 <= c <= ws_run_end(x, 0),
    ensures
        ws_run_end(x, c) == ws_run_end(x, 0),
    decreases c,
{
    lemma_ws_run_end_bounds(x, 0);
    if c > 0 {
        lemma_ws_run_end_inside(x, c - 1);
        assert(is_ws_byte(x[c - 1]));
    }
}

/// Dropping part of the indentation leaves the rest of it.
pub proof fn lemma_leading_ws_suffix(x: Seq<u8>, c: int)
    requires
        0 <= c <= leading_ws(x),
    ensures
        leading_ws(x.subrange(c, x.len() as int)) == leading_ws(x) - c,
{
    lemma_ws_run_end_bounds(x, 0);
    lemma_ws_run_end_shift(x, c, 0);
    lemma_ws_run_end_inside(x, c);
}

pub proof fn lemma_first_nonblank_props(lines: Seq<Seq<u8>>, n: int)
    requires
        0 <= n <= lines.len(),
    ensures
        first_nonblank(lines, n) matches Some(f) ==> 0 <= f < n && !is_blank(lines[f]) && forall|m: int|
            0 <= m < f ==> is_blank(#[trigger] lines[m]),
        first_nonblank(lines, n) is None ==> forall|m: int| 0 <= m < n ==> is_blank(#[trigger] lines[m]),
    decreases n,
{
    if n > 0 {
        lemma_first_nonblank_props(lines, n - 1);
    }
}

pub proof fn lemma_last_nonblank_props(lines: Seq<Seq<u8>>, n: int)
    requires
        0 <= n <= lines.len(),
    ensures
        last_nonblank(lines, n) matches Some(l) ==> 0 <= l < n && !is_blank(lines[l]) && forall|m: int|
            l < m < n ==> is_blank(#[trigger] lines[m]),
    decreases n,
{
    if n > 0 {
        lemma_last_nonblank_props(lines, n - 1);
    }
}

pub proof fn lemma_common_indent_attained(lines: Seq<Seq<u8>>, n: int)
    requires
        0 <= n <= lines.len(),
    ensures
        common_indent(lines, n) matches Some(c) ==> exists|m: int|
            1 <= m < n && !is_blank(#[trigger] lines[m]) && leading_ws(lines[m]) == c,
    decreases n,
{
    if n > 1 {
        lemma_common_indent_attained(lines, n - 1);
        let line = lines[n - 1];
        if !is_blank(line) {
            assert(!is_blank(lines[n - 1]));
        }
    }
}

/// A dedented non-blank line that lost the common indentation starts with
/// what came after it.
pub proof fn lemma_dedented_nonblank(lines: Seq<Seq<u8>>, i: int)
    requires
        1 <= i < lines.len(),
        !is_blank(lines[i]),
    ensures
        common_indent(lines, lines.len() as int) matches Some(c) && c <= leading_ws(lines[i])
            && dedented_line(lines, i) == lines[i].subrange(c as int, lines[i].len() as int)
            && leading_ws(dedented_line(lines, i)) == leading_ws(lines[i]) - c
            && !is_blank(dedented_line(lines, i)),
{
    let n = lines.len() as int;
    lemma_common_indent_le(lines, n, i);
    let c = common_indent(lines, n)->0;
    lemma_ws_run_end_bounds(lines[i], 0);
    lemma_leading_ws_suffix(lines[i], c as int);
}

/// The first and last lines of a dedent are not blank.
pub proof fn lemma_dedent_ends(lines: Seq<Seq<u8>>)
    ensures
        dedent(lines).len() > 0 ==> !is_blank(dedent(lines)[0]) && !is_blank(dedent(lines).last()),
{
    let n = lines.len() as int;
    lemma_first_last_nonblank(lines, n);
    lemma_first_nonblank_props(lines, n);
    lemma_last_nonblank_props(lines, n);
    let d = dedent(lines);
    if first_nonblank(lines, n) is Some {
        let f = first_nonblank(lines, n)->0;
        let l = last_nonblank(lines, n)->0;
        assert(d[0] == dedented_line(lines, f));
        assert(d.last() == dedented_line(lines, l));
        if f > 0 {
            lemma_dedented_nonblank(lines, f);
        }
        if l > 0 {
            lemma_dedented_nonblank(lines, l);
        }
    }
}

/// When a reprint needs a line feed after the opening delimiter, its first
/// line has no indentation.
pub proof fn lemma_leading_newline_first_indent(lines: Seq<Seq<u8>>)
    requires
        dedent(lines).len() > 0,
        needs_leading_newline(dedent(lines)),
    ensures
        leading_ws(dedent(lines)[0]) == 0,
{
    let n = lines.len() as int;
    let d = dedent(lines);
    lemma_first_last_nonblank(lines, n);
    lemma_first_nonblank_props(lines, n);
    lemma_last_nonblank_props(lines, n);
    let f = first_nonblank(lines, n)->0;
    let l = last_nonblank(lines, n)->0;
    assert(l > f);
    lemma_common_indent_le(lines, n, l);
    let c = common_indent(lines, n)->0;
    lemma_common_indent_attained(lines, n);
    let m = choose|m: int| 1 <= m < n && !is_blank(#[trigger] lines[m]) && leading_ws(lines[m]) == c;
    assert(f <= m) by {
        if m < f {
            assert(is_blank(lines[m]));
        }
    }
    assert(m <= l) by {
        if m > l {
            assert(is_blank(lines[m]));
        }
    }
    lemma_dedented_nonblank(lines, m);
    let dm = dedented_line(lines, m);
    assert(d[m - f] == dm);
    assert(leading_ws(dm) == 0);
    lemma_ws_run_end_bounds(dm, 0);
    if m - f >= 1 {
        assert(dm.len() > 0);
        assert(!is_ws_byte(dm[0]));
        assert(d[m - f].len() == 0 || is_ws_byte(d[m - f][0]));
    }
}

pub proof fn lemma_first_nonblank_is(lines: Seq<Seq<u8>>, n: int, f: int)
    requires
        0 <= f < n <= lines.len(),
        !is_blank(lines[f]),
        forall|m: int| 0 <= m < f ==> is_blank(#[trigger] lines[m]),
    ensures
        first_nonblank(lines, n) == Some(f),
    decreases n,
{
    if n > f + 1 {
        lemma_first_nonblank_is(lines, n - 1, f);
    } else {
        lemma_first_nonblank_props(lines, f);
    }
}

/// Dedenting lines whose common indentation is none changes nothing but
/// the blank lines at the start.
pub proof fn lemma_dedent_no_indent(lines: Seq<Seq<u8>>, f: int)
    requires
        0 <= f < lines.len(),
        !is_blank(lines[f]),
        !is_blank(lines.last()),
        forall|m: int| 0 <= m < f ==> is_blank(#[trigger] lines[m]),
        lines.len() > 1 ==> common_indent(lines, lines.len() as int) == Some(0nat),
        f == 0 || f == 1,
    ensures
        dedent(lines) == lines.subrange(f, lines.len() as int),
{
    let n = lines.len() as int;
    lemma_first_nonblank_is(lines, n, f);
    let d = dedent(lines);
    assert(last_nonblank(lines, n) == Some(n - 1));
    assert forall|k: int| 0 <= k < d.len() implies d[k] == lines.subrange(f, n)[k] by {
        let i = f + k;
        assert(d[k] == dedented_line(lines, i));
        if i != 0 {
            let x = lines[i];
            assert(dedent_line(x, Some(0nat)) =~= x);
        }
    }
    assert(d =~= lines.subrange(f, n));
}

/// Dedenting what the scanner reads back from a reprint gives the printed
/// lines back.
pub proof fn lemma_reread_dedent(lines: Seq<Seq<u8>>)
    ensures
        dedent(reread_lines(dedent(lines))) == dedent(lines),
{
    let d = dedent(lines);
    lemma_dedent_ends(lines);
    if d.len() == 0 {
        assert(dedent(Seq::<Seq<u8>>::empty()) =~= Seq::<Seq<u8>>::empty());
    } else if needs_leading_newline(d) {
        lemma_leading_newline_first_indent(lines);
        let r = seq![Seq::<u8>::empty()] + d;
        assert(r[0] == Seq::<u8>::empty());
        assert(is_blank(r[0]));
        assert(r[1] == d[0]);
        assert(r.last() == d.last());
        lemma_common_indent_le(r, r.len() as int, 1);
        assert(r.subrange(1, r.len() as int) =~= d);
        lemma_dedent_no_indent(r, 1);
    } else {
        if d.len() > 1 {
            let k = choose|k: int| 1 <= k < d.len() && !((#[trigger] d[k]).len() == 0 || is_ws_byte(d[k][0]));
            lemma_ws_run_end_bounds(d[k], 0);
            assert(ws_run_end(d[k], 0) == 0);
            lemma_common_indent_le(d, d.len() as int, k);
        }
        assert(d.subrange(0, d.len() as int) =~= d);
        lemma_dedent_no_indent(d, 0);
    }
}

} // verus!
