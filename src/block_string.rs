//! Block strings: the lines of a `"""` body, their common-indentation
//! removal, and the shortest reprint of the result.
use vstd::prelude::*;

verus! {

pub const QUOTE: u8 = 0x22;

pub const BACKSLASH: u8 = 0x5c;

pub const LINE_FEED: u8 = 0x0a;

pub const CARRIAGE_RETURN: u8 = 0x0d;

/// Space or horizontal tab: the characters that make up indentation.
pub open spec fn is_ws_byte(b: u8) -> bool {
    b == 0x20u8 || b == 0x09u8
}

/// The position of the first byte at or after `i` that is not indentation.
pub open spec fn ws_run_end(line: Seq<u8>, i: int) -> int
    decreases line.len() - i,
{
    if 0 <= i < line.len() && is_ws_byte(line[i]) {
        ws_run_end(line, i + 1)
    } else {
        i
    }
}

/// Number of leading spaces and tabs of a line.
pub open spec fn leading_ws(line: Seq<u8>) -> nat {
    ws_run_end(line, 0) as nat
}

/// A line that holds nothing but indentation.
pub open spec fn is_blank(line: Seq<u8>) -> bool {
    leading_ws(line) == line.len()
}

/// The sum of the lengths of the lines.
pub open spec fn sum_lens(lines: Seq<Seq<u8>>) -> nat
    decreases lines.len(),
{
    if lines.len() == 0 {
        0
    } else {
        sum_lens(lines.drop_last()) + lines.last().len()
    }
}

/// The least indentation among the non-blank lines with index in `1..n`;
/// the first line does not take part.
pub open spec fn common_indent(lines: Seq<Seq<u8>>, n: int) -> Option<nat>
    decreases n,
{
    if n <= 1 {
        None
    } else {
        let rest = common_indent(lines, n - 1);
        let line = lines[n - 1];
        if is_blank(line) {
            rest
        } else {
            match rest {
                None => Some(leading_ws(line)),
                Some(c) => Some(if leading_ws(line) < c { leading_ws(line) } else { c }),
            }
        }
    }
}

/// The index of the first non-blank line among the first `n`.
pub open spec fn first_nonblank(lines: Seq<Seq<u8>>, n: int) -> Option<int>
    decreases n,
{
    if n <= 0 {
        None
    } else {
        match first_nonblank(lines, n - 1) {
            Some(f) => Some(f),
            None => if is_blank(lines[n - 1]) { None } else { Some(n - 1) },
        }
    }
}

/// The index of the last non-blank line among the first `n`.
pub open spec fn last_nonblank(lines: Seq<Seq<u8>>, n: int) -> Option<int>
    decreases n,
{
    if n <= 0 {
        None
    } else if !is_blank(lines[n - 1]) {
        Some(n - 1)
    } else {
        last_nonblank(lines, n - 1)
    }
}

/// A line after removing `indent` characters; a line no longer than the
/// indentation, or one when no line sets an indentation, becomes empty.
pub open spec fn dedent_line(line: Seq<u8>, indent: Option<nat>) -> Seq<u8> {
    match indent {
        Some(c) => if line.len() > c {
            line.subrange(c as int, line.len() as int)
        } else {
            Seq::empty()
        },
        None => Seq::empty(),
    }
}

/// Line `i` after dedent: every line but the first loses the common indentation.
pub open spec fn dedented_line(lines: Seq<Seq<u8>>, i: int) -> Seq<u8> {
    if i == 0 {
        lines[0]
    } else {
        dedent_line(lines[i], common_indent(lines, lines.len() as int))
    }
}

/// The dedent algorithm: remove the common indentation, then the blank lines
/// at the start and at the end.
pub open spec fn dedent(lines: Seq<Seq<u8>>) -> Seq<Seq<u8>> {
    let n = lines.len() as int;
    match (first_nonblank(lines, n), last_nonblank(lines, n)) {
        (Some(f), Some(l)) => Seq::new((l - f + 1) as nat, |k: int| dedented_line(lines, f + k)),
        _ => Seq::empty(),
    }
}

pub open spec fn triple_quote() -> Seq<u8> {
    seq![QUOTE, QUOTE, QUOTE]
}

/// The lines joined by line feeds.
pub open spec fn join_lines(lines: Seq<Seq<u8>>) -> Seq<u8>
    decreases lines.len(),
{
    if lines.len() == 0 {
        Seq::empty()
    } else if lines.len() == 1 {
        lines[0]
    } else {
        join_lines(lines.drop_last()) + seq![LINE_FEED] + lines.last()
    }
}

/// A line feed goes after the opening delimiter when there are several lines
/// and each one after the first is empty or starts with indentation.
pub open spec fn needs_leading_newline(lines: Seq<Seq<u8>>) -> bool {
    lines.len() > 1 && forall|k: int|
        1 <= k < lines.len() ==> (#[trigger] lines[k]).len() == 0 || is_ws_byte(lines[k][0])
}

pub open spec fn ends_with_escaped_triple_quote(line: Seq<u8>) -> bool {
    line.len() >= 4 && line.subrange(line.len() - 4, line.len() as int) == seq![
        BACKSLASH,
        QUOTE,
        QUOTE,
        QUOTE,
    ]
}

/// A line feed goes before the closing delimiter when the last line ends in
/// a quote or a backslash, unless it ends in an escaped triple quote.
pub open spec fn needs_trailing_newline(line: Seq<u8>) -> bool {
    line.len() > 0 && (line.last() == QUOTE || line.last() == BACKSLASH)
        && !ends_with_escaped_triple_quote(line)
}

/// The shortest block string whose value is the given lines.
pub open spec fn print_block(lines: Seq<Seq<u8>>) -> Seq<u8> {
    if lines.len() == 0 {
        triple_quote() + triple_quote()
    } else {
        triple_quote() + (if needs_leading_newline(lines) {
            seq![LINE_FEED]
        } else {
            Seq::empty()
        }) + join_lines(lines) + (if needs_trailing_newline(lines.last()) {
            seq![LINE_FEED]
        } else {
            Seq::empty()
        }) + triple_quote()
    }
}

pub proof fn lemma_ws_run_end_bounds(line: Seq<u8>, i: int)
    requires
        0 <= i <= line.len(),
    ensures
        i <= ws_run_end(line, i) <= line.len(),
        forall|j: int| i <= j < ws_run_end(line, i) ==> is_ws_byte(#[trigger] line[j]),
        ws_run_end(line, i) < line.len() ==> !is_ws_byte(line[ws_run_end(line, i)]),
    decreases line.len() - i,
{
    if i < line.len() && is_ws_byte(line[i]) {
        lemma_ws_run_end_bounds(line, i + 1);
    }
}

pub proof fn lemma_sum_lens_push(lines: Seq<Seq<u8>>, line: Seq<u8>)
    ensures
        sum_lens(lines.push(line)) == sum_lens(lines) + line.len(),
{
    assert(lines.push(line).drop_last() =~= lines);
}

pub proof fn lemma_sum_lens_prefix(lines: Seq<Seq<u8>>, k: int)
    requires
        0 <= k <= lines.len(),
    ensures
        sum_lens(lines.subrange(0, k)) <= sum_lens(lines),
    decreases lines.len(),
{
    if k < lines.len() {
        assert(lines.drop_last().subrange(0, k) =~= lines.subrange(0, k));
        lemma_sum_lens_prefix(lines.drop_last(), k);
    } else {
        assert(lines.subrange(0, k) =~= lines);
    }
}

/// The lines of a block string, each one a byte slice held in an arena.
pub struct BlockStringLines<'bump> {
    lines: Vec<&'bump [u8]>,
    total_len: usize,
}

impl<'bump> View for BlockStringLines<'bump> {
    type V = Seq<Seq<u8>>;

    closed spec fn view(&self) -> Seq<Seq<u8>> {
        Seq::new(self.lines@.len(), |i: int| self.lines@[i]@)
    }
}

impl<'bump> BlockStringLines<'bump> {
    /// The running total of the line lengths matches the lines.
    pub closed spec fn wf(&self) -> bool {
        self.total_len == sum_lens(self@)
    }

    /// No lines yet; the lines will live in `alloc`.
    pub fn new_in(alloc: &'bump bumpalo::Bump) -> (r: Self)
        ensures
            r.wf(),
            r@ == Seq::<Seq<u8>>::empty(),
    {
        let r = BlockStringLines { lines: Vec::new(), total_len: 0 };
        assert(r@ =~= Seq::<Seq<u8>>::empty());
        r
    }

    /// No lines yet, with room for `capacity` of them; the lines will live in `alloc`.
    pub fn with_capacity_in(capacity: usize, alloc: &'bump bumpalo::Bump) -> (r: Self)
        ensures
            r.wf(),
            r@ == Seq::<Seq<u8>>::empty(),
    {
        let r = BlockStringLines { lines: Vec::with_capacity(capacity), total_len: 0 };
        assert(r@ =~= Seq::<Seq<u8>>::empty());
        r
    }

    /// Appends a line.
    pub fn push(&mut self, line: &'bump [u8])
        requires
            old(self).wf(),
            sum_lens(old(self)@) + line@.len() <= usize::MAX,
        ensures
            final(self).wf(),
            final(self)@ == old(self)@.push(line@),
    {
        proof {
            lemma_sum_lens_push(self@, line@);
        }
        self.total_len = self.total_len + line.len();
        self.lines.push(line);
        assert(self@ =~= old(self)@.push(line@));
    }

    /// Number of lines.
    pub fn len(&self) -> (r: usize)
        ensures
            r == self@.len(),
    {
        self.lines.len()
    }

    /// The sum of the line lengths.
    pub fn total_len(&self) -> (r: usize)
        requires
            self.wf(),
        ensures
            r == sum_lens(self@),
    {
        self.total_len
    }

    /// Line `i`.
    pub fn line(&self, i: usize) -> (r: &'bump [u8])
        requires
            i < self@.len(),
        ensures
            r@ == self@[i as int],
    {
        self.lines[i]
    }
}

/// Whether a byte is a space or a horizontal tab.
pub fn is_graphql_whitespace(b: u8) -> (r: bool)
    ensures
        r == is_ws_byte(b),
{
    b == 0x20u8 || b == 0x09u8
}

/// Number of leading spaces and tabs of a line.
pub fn leading_whitespace(s: &[u8]) -> (r: usize)
    ensures
        r == leading_ws(s@),
{
    let mut i: usize = 0;
    while i < s.len() && is_graphql_whitespace(s[i])
        invariant
            0 <= i <= s@.len(),
            ws_run_end(s@, i as int) == ws_run_end(s@, 0),
        decreases s@.len() - i,
    {
        i = i + 1;
    }
    i
}


pub open spec fn opt_nat(o: Option<usize>) -> Option<nat> {
    match o {
        Some(c) => Some(c as nat),
        None => None,
    }
}

pub open spec fn opt_int(o: Option<usize>) -> Option<int> {
    match o {
        Some(c) => Some(c as int),
        None => None,
    }
}

/// Removes the common indentation of the lines after the first, then the
/// blank lines at the start and at the end.
pub fn dedent_block_lines_mut(lines: &mut BlockStringLines)
    requires
        old(lines).wf(),
    ensures
        final(lines).wf(),
        final(lines)@ == dedent(old(lines)@),
{
    let ghost v = lines@;
    let n = lines.lines.len();
    let mut indent_min: Option<usize> = None;
    let mut first_non_empty_line: Option<usize> = None;
    let mut last_non_empty_line: Option<usize> = None;
    let mut i: usize = 0;
    while i < n
        invariant
            n == v.len(),
            v == lines@,
            i <= n,
            opt_nat(indent_min) == common_indent(v, i as int),
            opt_int(first_non_empty_line) == first_nonblank(v, i as int),
            opt_int(last_non_empty_line) == last_nonblank(v, i as int),
            first_non_empty_line is Some <==> last_non_empty_line is Some,
            first_non_empty_line is Some ==> first_non_empty_line->0 <= last_non_empty_line->0,
            last_non_empty_line is Some ==> last_non_empty_line->0 < i,
            indent_min is Some ==> indent_min->0 < usize::MAX,
        decreases n - i,
    {
        let line = lines.lines[i];
        assert(line@ == v[i as int]);
        let indent = leading_whitespace(line);
        proof {
            lemma_ws_run_end_bounds(line@, 0);
        }
        if indent < line.len() {
            if first_non_empty_line.is_none() {
                first_non_empty_line = Some(i);
            }
            last_non_empty_line = Some(i);
            if i != 0 {
                match indent_min {
                    Some(c) => {
                        if indent < c {
                            indent_min = Some(indent);
                        }
                    },
                    None => {
                        indent_min = Some(indent);
                    },
                }
            }
        }
        i = i + 1;
    }
    match (first_non_empty_line, last_non_empty_line) {
        (Some(start), Some(end)) => {
            let mut kept: Vec<&[u8]> = Vec::with_capacity(end - start + 1);
            let mut total: usize = 0;
            let mut k: usize = start;
            while k <= end
                invariant
                    n == v.len(),
                    v == lines@,
                    lines.wf(),
                    start <= k <= end + 1,
                    end < n,
                    opt_nat(indent_min) == common_indent(v, n as int),
                    kept@.len() == k - start,
                    forall|t: int| 0 <= t < k - start ==> (#[trigger] kept@[t])@ == dedented_line(v, start + t),
                    total == sum_lens(Seq::new(kept@.len(), |t: int| kept@[t]@)),
                    total <= sum_lens(v.subrange(0, k as int)),
                decreases end + 1 - k,
            {
                let line = lines.lines[k];
                let d: &[u8] = if k == 0 {
                    line
                } else {
                    match indent_min {
                        Some(c) => {
                            if line.len() > c {
                                &line[c..line.len()]
                            } else {
                                &line[0..0]
                            }
                        },
                        None => &line[0..0],
                    }
                };
                assert(d@ == dedented_line(v, k as int)) by {
                    if k != 0 {
                        assert(d@ =~= dedent_line(v[k as int], common_indent(v, n as int)));
                    }
                };
                let ghost before = Seq::new(kept@.len(), |t: int| kept@[t]@);
                proof {
                    lemma_sum_lens_push(before, d@);
                    assert(v.subrange(0, k + 1).drop_last() =~= v.subrange(0, k as int));
                    lemma_sum_lens_prefix(v, k + 1);
                }
                total = total + d.len();
                kept.push(d);
                assert(Seq::new(kept@.len(), |t: int| kept@[t]@) =~= before.push(d@));
                k = k + 1;
            }
            lines.lines = kept;
            lines.total_len = total;
            assert(lines@ =~= dedent(v));
        },
        _ => {
            lines.lines = Vec::new();
            lines.total_len = 0;
            assert(lines@ =~= dedent(v));
        },
    }
}

/// Appends the bytes of `src`.
pub fn push_bytes(out: &mut Vec<u8>, src: &[u8])
    ensures
        final(out)@ == old(out)@ + src@,
{
    let mut i: usize = 0;
    while i < src.len()
        invariant
            i <= src@.len(),
            out@ == old(out)@ + src@.subrange(0, i as int),
        decreases src@.len() - i,
    {
        out.push(src[i]);
        i = i + 1;
        assert(out@ =~= old(out)@ + src@.subrange(0, i as int));
    }
    assert(src@.subrange(0, i as int) =~= src@);
}

fn push_triple_quote(out: &mut Vec<u8>)
    ensures
        final(out)@ == old(out)@ + triple_quote(),
{
    out.push(QUOTE);
    out.push(QUOTE);
    out.push(QUOTE);
    assert(out@ =~= old(out)@ + triple_quote());
}

/// Whether the line ends in an escaped triple quote.
fn ends_with_escaped_triple(line: &[u8]) -> (r: bool)
    ensures
        r == ends_with_escaped_triple_quote(line@),
{
    let n = line.len();
    if n < 4 {
        return false;
    }
    let r = line[n - 4] == BACKSLASH && line[n - 3] == QUOTE && line[n - 2] == QUOTE && line[n
        - 1] == QUOTE;
    assert(r == (line@.subrange(n - 4, n as int) =~= seq![BACKSLASH, QUOTE, QUOTE, QUOTE]));
    r
}

/// Prints the lines as the shortest block string that holds them, and
/// appends it to `out`.
pub fn print_block_string(lines: &BlockStringLines, out: &mut Vec<u8>)
    requires
        lines.wf(),
    ensures
        final(out)@ == old(out)@ + print_block(lines@),
{
    let ghost v = lines@;
    let n = lines.lines.len();
    if n == 0 {
        push_triple_quote(out);
        push_triple_quote(out);
        assert(out@ =~= old(out)@ + print_block(v));
        return;
    }
    out.reserve(lines.total_len());
    let mut with_leading_new_line = n > 1;
    let mut k: usize = 1;
    while k < n
        invariant
            n == v.len(),
            v == lines@,
            1 <= k <= n,
            with_leading_new_line == (n > 1 && forall|t: int|
                1 <= t < k ==> (#[trigger] v[t]).len() == 0 || is_ws_byte(v[t][0])),
        decreases n - k,
    {
        let line = lines.lines[k];
        assert(line@ == v[k as int]);
        if line.len() > 0 && !is_graphql_whitespace(line[0]) {
            with_leading_new_line = false;
        }
        k = k + 1;
    }
    assert(with_leading_new_line == needs_leading_newline(v));
    let last_line = lines.lines[n - 1];
    assert(last_line@ == v.last());
    let ends_in_quote_or_backslash = last_line.len() > 0 && (last_line[last_line.len() - 1]
        == QUOTE || last_line[last_line.len() - 1] == BACKSLASH);
    let with_trailing_newline = ends_in_quote_or_backslash && !ends_with_escaped_triple(
        last_line,
    );
    push_triple_quote(out);
    if with_leading_new_line {
        out.push(LINE_FEED);
    }
    let ghost prefix = out@;
    push_bytes(out, lines.lines[0]);
    assert(v.subrange(0, 1) =~= seq![v[0]]);
    let mut k: usize = 1;
    while k < n
        invariant
            n == v.len(),
            v == lines@,
            1 <= k <= n,
            out@ == prefix + join_lines(v.subrange(0, k as int)),
        decreases n - k,
    {
        out.push(LINE_FEED);
        push_bytes(out, lines.lines[k]);
        assert(v.subrange(0, k + 1).drop_last() =~= v.subrange(0, k as int));
        assert(out@ =~= prefix + join_lines(v.subrange(0, k + 1)));
        k = k + 1;
    }
    assert(v.subrange(0, n as int) =~= v);
    if with_trailing_newline {
        out.push(LINE_FEED);
    }
    push_triple_quote(out);
    assert(out@ =~= old(out)@ + print_block(v));
}

} // verus!
