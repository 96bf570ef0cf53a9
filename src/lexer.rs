//! The GraphQL token scanner: trivia, the longest-match token grammar, the
//! check of string literals, and the line splitting of block strings.
use vstd::prelude::*;

use core::ops::Range;

use crate::block_string::{
    dedent,
    dedent_block_lines_mut,
    print_block,
    print_block_string,
    sum_lens,
    lemma_sum_lens_push,
    BlockStringLines,
    BACKSLASH,
    CARRIAGE_RETURN,
    LINE_FEED,
    QUOTE,
};
use crate::minify_alloc::arena_copy;

verus! {

pub const COMMA: u8 = 0x2c;

pub const HASH: u8 = 0x23;

pub const DOT: u8 = 0x2e;

pub const MINUS: u8 = 0x2d;

pub const PLUS: u8 = 0x2b;

pub const DOLLAR: u8 = 0x24;

pub const AT: u8 = 0x40;

pub const LOWER_E: u8 = 0x65;

/// The kinds of token that the scanner yields.
#[derive(Clone, Copy, Debug, PartialEq, Eq, Structural)]
pub enum Token {
    BraceOpen,
    BraceClose,
    ParenOpen,
    ParenClose,
    BracketOpen,
    BracketClose,
    Colon,
    Equals,
    Exclamation,
    Question,
    Ampersand,
    Pipe,
    Ellipsis,
    BlockStringDelimiter,
    String,
    Int,
    Float,
    Bool,
    Directive,
    Variable,
    Identifier,
}

/// Why the scanner stopped.
#[derive(Debug, PartialEq)]
pub enum LexingError {
    /// No token starts here.
    UnknownToken,
    /// A string literal holds a raw line break; the span runs from its
    /// opening quote to the byte before the line break.
    UnterminatedString(Range<usize>),
}

/// Line feed or carriage return.
pub open spec fn is_terminator(b: u8) -> bool {
    b == LINE_FEED || b == CARRIAGE_RETURN
}

/// Whitespace, line terminators and commas.
pub open spec fn is_ignored_byte(b: u8) -> bool {
    b == 0x20u8 || b == 0x09u8 || is_terminator(b) || b == COMMA
}

pub open spec fn is_digit(b: u8) -> bool {
    0x30u8 <= b <= 0x39u8
}

pub open spec fn is_name_start(b: u8) -> bool {
    (0x41u8 <= b <= 0x5au8) || (0x61u8 <= b <= 0x7au8) || b == 0x5fu8
}

pub open spec fn is_name_continue(b: u8) -> bool {
    is_name_start(b) || is_digit(b)
}

/// The end of the run of whitespace, commas and comments that starts at `i`;
/// `in_comment` says that `i` lies inside a comment.
pub open spec fn trivia_end(s: Seq<u8>, i: int, in_comment: bool) -> int
    decreases s.len() - i,
{
    if i < 0 || i >= s.len() {
        i
    } else if in_comment {
        trivia_end(s, i + 1, !is_terminator(s[i]))
    } else if is_ignored_byte(s[i]) {
        trivia_end(s, i + 1, false)
    } else if s[i] == HASH {
        trivia_end(s, i + 1, true)
    } else {
        i
    }
}

/// The end of the run of digits that starts at `i`.
pub open spec fn digits_end(s: Seq<u8>, i: int) -> int
    decreases s.len() - i,
{
    if 0 <= i < s.len() && is_digit(s[i]) {
        digits_end(s, i + 1)
    } else {
        i
    }
}

/// The end of the run of name characters that starts at `i`.
pub open spec fn name_end(s: Seq<u8>, i: int) -> int
    decreases s.len() - i,
{
    if 0 <= i < s.len() && is_name_continue(s[i]) {
        name_end(s, i + 1)
    } else {
        i
    }
}

/// The end of a float literal whose fraction ends at `f`: an exponent
/// `e`, an optional sign and digits, where they follow.
pub open spec fn exponent_end(s: Seq<u8>, f: int) -> int {
    if 0 <= f < s.len() && s[f] == LOWER_E {
        let e0 = if f + 1 < s.len() && (s[f + 1] == PLUS || s[f + 1] == MINUS) {
            f + 2
        } else {
            f + 1
        };
        if e0 < s.len() && is_digit(s[e0]) {
            digits_end(s, e0)
        } else {
            f
        }
    } else {
        f
    }
}

/// The longest int or float literal at `i`, if any.
pub open spec fn number_token(s: Seq<u8>, i: int) -> Option<(Token, int)> {
    let a = if s[i] == MINUS {
        i + 1
    } else {
        i
    };
    let d = digits_end(s, a);
    if d == a {
        None
    } else if d + 1 < s.len() && s[d] == DOT && is_digit(s[d + 1]) {
        Some((Token::Float, exponent_end(s, digits_end(s, d + 1))))
    } else {
        Some((Token::Int, d))
    }
}

/// The end (past the closing quote) of a string literal whose body starts
/// at `q`; a backslash escapes any byte but a line feed.
pub open spec fn string_end(s: Seq<u8>, q: int) -> Option<int>
    decreases s.len() - q,
{
    if q < 0 || q >= s.len() {
        None
    } else if s[q] == QUOTE {
        Some(q + 1)
    } else if s[q] == BACKSLASH {
        if q + 1 < s.len() && s[q + 1] != LINE_FEED {
            string_end(s, q + 2)
        } else {
            None
        }
    } else {
        string_end(s, q + 1)
    }
}

/// The first line terminator in `i..e`.
pub open spec fn first_terminator(s: Seq<u8>, i: int, e: int) -> Option<int>
    decreases e - i,
{
    if i < 0 || i >= e || e > s.len() {
        None
    } else if is_terminator(s[i]) {
        Some(i)
    } else {
        first_terminator(s, i + 1, e)
    }
}

pub open spec fn is_bool_word(w: Seq<u8>) -> bool {
    w == seq![0x74u8, 0x72u8, 0x75u8, 0x65u8] || w == seq![0x66u8, 0x61u8, 0x6cu8, 0x73u8, 0x65u8]
}

/// The punctuator that a single byte stands for, if any.
pub open spec fn single_byte_punctuator(c: u8) -> Option<Token> {
    if c == 0x7bu8 {
        Some(Token::BraceOpen)
    } else if c == 0x7du8 {
        Some(Token::BraceClose)
    } else if c == 0x28u8 {
        Some(Token::ParenOpen)
    } else if c == 0x29u8 {
        Some(Token::ParenClose)
    } else if c == 0x5bu8 {
        Some(Token::BracketOpen)
    } else if c == 0x5du8 {
        Some(Token::BracketClose)
    } else if c == 0x3au8 {
        Some(Token::Colon)
    } else if c == 0x3du8 {
        Some(Token::Equals)
    } else if c == 0x21u8 {
        Some(Token::Exclamation)
    } else if c == 0x3fu8 {
        Some(Token::Question)
    } else if c == 0x26u8 {
        Some(Token::Ampersand)
    } else if c == 0x7cu8 {
        Some(Token::Pipe)
    } else {
        None
    }
}

/// The longest token that starts at `i`, with the position where it ends.
pub open spec fn lex_token(s: Seq<u8>, i: int) -> Result<(Token, int), LexingError> {
    let c = s[i];
    if single_byte_punctuator(c) is Some {
        Ok((single_byte_punctuator(c)->0, i + 1))
    } else if c == DOT {
        if i + 2 < s.len() && s[i + 1] == DOT && s[i + 2] == DOT {
            Ok((Token::Ellipsis, i + 3))
        } else {
            Err(LexingError::UnknownToken)
        }
    } else if c == QUOTE {
        if i + 2 < s.len() && s[i + 1] == QUOTE && s[i + 2] == QUOTE {
            Ok((Token::BlockStringDelimiter, i + 3))
        } else {
            match string_end(s, i + 1) {
                None => Err(LexingError::UnknownToken),
                Some(e) => match first_terminator(s, i, e) {
                    Some(p) => Err(
                        LexingError::UnterminatedString(Range { start: i as usize, end: p as usize }),
                    ),
                    None => Ok((Token::String, e)),
                },
            }
        }
    } else if c == MINUS || is_digit(c) {
        match number_token(s, i) {
            Some(r) => Ok(r),
            None => Err(LexingError::UnknownToken),
        }
    } else if c == DOLLAR || c == AT {
        if i + 1 < s.len() && is_name_start(s[i + 1]) {
            Ok(
                (
                    if c == DOLLAR {
                        Token::Variable
                    } else {
                        Token::Directive
                    },
                    name_end(s, i + 2),
                ),
            )
        } else {
            Err(LexingError::UnknownToken)
        }
    } else if is_name_start(c) {
        let e = name_end(s, i + 1);
        Ok(
            (
                if is_bool_word(s.subrange(i, e)) {
                    Token::Bool
                } else {
                    Token::Identifier
                },
                e,
            ),
        )
    } else {
        Err(LexingError::UnknownToken)
    }
}

/// The lines of a block string body that starts at `start`, scanned from
/// `i`, with the position past the closing delimiter (or the end of the
/// input, where none comes). An empty last line is not kept.
pub open spec fn block_scan(s: Seq<u8>, start: int, i: int) -> (Seq<Seq<u8>>, int)
    decreases s.len() - i,
{
    if i < 0 || i >= s.len() {
        (
            if start < i {
                seq![s.subrange(start, i)]
            } else {
                Seq::empty()
            },
            i,
        )
    } else if i + 2 < s.len() && s[i] == QUOTE && s[i + 1] == QUOTE && s[i + 2] == QUOTE {
        (
            if start < i {
                seq![s.subrange(start, i)]
            } else {
                Seq::empty()
            },
            i + 3,
        )
    } else if i + 3 < s.len() && s[i] == BACKSLASH && s[i + 1] == QUOTE && s[i + 2] == QUOTE && s[i
        + 3] == QUOTE {
        block_scan(s, start, i + 4)
    } else if is_terminator(s[i]) {
        let t = if s[i] == CARRIAGE_RETURN && i + 1 < s.len() && s[i + 1] == LINE_FEED {
            i + 2
        } else {
            i + 1
        };
        let r = block_scan(s, t, t);
        (seq![s.subrange(start, i)] + r.0, r.1)
    } else {
        block_scan(s, start, i + 1)
    }
}

pub proof fn lemma_trivia_end_bounds(s: Seq<u8>, i: int, in_comment: bool)
    requires
        0 <= i <= s.len(),
    ensures
        i <= trivia_end(s, i, in_comment) <= s.len(),
    decreases s.len() - i,
{
    if i < s.len() {
        if in_comment {
            lemma_trivia_end_bounds(s, i + 1, !is_terminator(s[i]));
        } else if is_ignored_byte(s[i]) || s[i] == HASH {
            lemma_trivia_end_bounds(s, i + 1, s[i] == HASH);
        }
    }
}

pub proof fn lemma_digits_end_bounds(s: Seq<u8>, i: int)
    requires
        0 <= i <= s.len(),
    ensures
        i <= digits_end(s, i) <= s.len(),
    decreases s.len() - i,
{
    if i < s.len() && is_digit(s[i]) {
        lemma_digits_end_bounds(s, i + 1);
    }
}

pub proof fn lemma_name_end_bounds(s: Seq<u8>, i: int)
    requires
        0 <= i <= s.len(),
    ensures
        i <= name_end(s, i) <= s.len(),
    decreases s.len() - i,
{
    if i < s.len() && is_name_continue(s[i]) {
        lemma_name_end_bounds(s, i + 1);
    }
}

pub proof fn lemma_string_end_bounds(s: Seq<u8>, q: int)
    requires
        0 <= q <= s.len(),
    ensures
        string_end(s, q) matches Some(e) ==> q < e <= s.len(),
    decreases s.len() - q,
{
    if q < s.len() && s[q] != QUOTE {
        if s[q] == BACKSLASH {
            if q + 1 < s.len() && s[q + 1] != LINE_FEED {
                lemma_string_end_bounds(s, q + 2);
            }
        } else {
            lemma_string_end_bounds(s, q + 1);
        }
    }
}

pub proof fn lemma_first_terminator(s: Seq<u8>, i: int, e: int)
    requires
        0 <= i <= e <= s.len(),
    ensures
        match first_terminator(s, i, e) {
            Some(p) => i <= p < e && is_terminator(s[p]) && forall|j: int|
                i <= j < p ==> !is_terminator(#[trigger] s[j]),
            None => forall|j: int| i <= j < e ==> !is_terminator(#[trigger] s[j]),
        },
    decreases e - i,
{
    if i < e && !is_terminator(s[i]) {
        lemma_first_terminator(s, i + 1, e);
    }
}

pub proof fn lemma_lex_token_end(s: Seq<u8>, i: int)
    requires
        0 <= i < s.len(),
    ensures
        lex_token(s, i) matches Ok((t, e)) ==> i < e <= s.len(),
{
    lemma_name_end_bounds(s, i + 1);
    if i + 2 <= s.len() {
        lemma_name_end_bounds(s, i + 2);
    }
    lemma_string_end_bounds(s, i + 1);
    let a = if s[i] == MINUS {
        i + 1
    } else {
        i
    };
    lemma_digits_end_bounds(s, a);
    let d = digits_end(s, a);
    if d + 1 < s.len() {
        lemma_digits_end_bounds(s, d + 1);
        let f = digits_end(s, d + 1);
        if f + 1 < s.len() {
            lemma_digits_end_bounds(s, f + 1);
        }
        if f + 2 < s.len() {
            lemma_digits_end_bounds(s, f + 2);
        }
    }
}

pub proof fn lemma_block_scan_end(s: Seq<u8>, start: int, i: int)
    requires
        0 <= start <= i <= s.len(),
    ensures
        i <= block_scan(s, start, i).1 <= s.len(),
    decreases s.len() - i,
{
    if i < s.len() {
        if i + 2 < s.len() && s[i] == QUOTE && s[i + 1] == QUOTE && s[i + 2] == QUOTE {
        } else if i + 3 < s.len() && s[i] == BACKSLASH && s[i + 1] == QUOTE && s[i + 2] == QUOTE
            && s[i + 3] == QUOTE {
            lemma_block_scan_end(s, start, i + 4);
        } else if is_terminator(s[i]) {
            let t = if s[i] == CARRIAGE_RETURN && i + 1 < s.len() && s[i + 1] == LINE_FEED {
                i + 2
            } else {
                i + 1
            };
            lemma_block_scan_end(s, t, t);
        } else {
            lemma_block_scan_end(s, start, i + 1);
        }
    }
}

/// Relies on `memchr::memchr2`: the index of the first byte of `haystack`
/// that equals either needle, or `None` where no byte does.
pub assume_specification[ memchr::memchr2 ](needle1: u8, needle2: u8, haystack: &[u8]) -> (r:
    Option<usize>)
    ensures
        match r {
            Some(k) => k < haystack@.len() && (haystack@[k as int] == needle1 || haystack@[k as int]
                == needle2) && forall|j: int|
                0 <= j < k ==> #[trigger] haystack@[j] != needle1 && haystack@[j] != needle2,
            None => forall|j: int|
                0 <= j < haystack@.len() ==> #[trigger] haystack@[j] != needle1 && haystack@[j]
                    != needle2,
        },
;

/// What the scanner returns, with positions as integers.
pub open spec fn lex_view(r: Result<(Token, usize), LexingError>) -> Result<(Token, int), LexingError> {
    match r {
        Ok((t, e)) => Ok((t, e as int)),
        Err(err) => Err(err),
    }
}

/// Skips whitespace, commas and comments from `i`.
pub fn skip_trivia(s: &[u8], i: usize) -> (r: usize)
    requires
        i <= s@.len(),
    ensures
        r == trivia_end(s@, i as int, false),
        i <= r <= s@.len(),
{
    proof {
        lemma_trivia_end_bounds(s@, i as int, false);
    }
    let mut j = i;
    let mut in_comment = false;
    while j < s.len()
        invariant
            i <= j <= s@.len(),
            trivia_end(s@, j as int, in_comment) == trivia_end(s@, i as int, false),
        decreases s@.len() - j,
    {
        let c = s[j];
        if in_comment {
            in_comment = !(c == LINE_FEED || c == CARRIAGE_RETURN);
        } else if c == 0x20u8 || c == 0x09u8 || c == LINE_FEED || c == CARRIAGE_RETURN || c == COMMA {
        } else if c == HASH {
            in_comment = true;
        } else {
            return j;
        }
        j = j + 1;
    }
    j
}

fn is_digit_byte(b: u8) -> (r: bool)
    ensures
        r == is_digit(b),
{
    0x30u8 <= b && b <= 0x39u8
}

fn is_name_start_byte(b: u8) -> (r: bool)
    ensures
        r == is_name_start(b),
{
    (0x41u8 <= b && b <= 0x5au8) || (0x61u8 <= b && b <= 0x7au8) || b == 0x5fu8
}

fn scan_digits(s: &[u8], i: usize) -> (r: usize)
    requires
        i <= s@.len(),
    ensures
        r == digits_end(s@, i as int),
{
    let mut j = i;
    while j < s.len() && is_digit_byte(s[j])
        invariant
            i <= j <= s@.len(),
            digits_end(s@, j as int) == digits_end(s@, i as int),
        decreases s@.len() - j,
    {
        j = j + 1;
    }
    j
}

fn scan_name(s: &[u8], i: usize) -> (r: usize)
    requires
        i <= s@.len(),
    ensures
        r == name_end(s@, i as int),
{
    let mut j = i;
    while j < s.len() && (is_name_start_byte(s[j]) || is_digit_byte(s[j]))
        invariant
            i <= j <= s@.len(),
            name_end(s@, j as int) == name_end(s@, i as int),
        decreases s@.len() - j,
    {
        j = j + 1;
    }
    j
}

fn scan_string(s: &[u8], q: usize) -> (r: Option<usize>)
    requires
        q <= s@.len(),
    ensures
        match r {
            Some(e) => string_end(s@, q as int) == Some(e as int),
            None => string_end(s@, q as int) is None,
        },
{
    let mut j = q;
    loop
        invariant
            q <= j <= s@.len(),
            string_end(s@, j as int) == string_end(s@, q as int),
        decreases s@.len() - j,
    {
        if j >= s.len() {
            return None;
        }
        if s[j] == QUOTE {
            return Some(j + 1);
        }
        if s[j] == BACKSLASH {
            if j + 1 < s.len() && s[j + 1] != LINE_FEED {
                j = j + 2;
            } else {
                return None;
            }
        } else {
            j = j + 1;
        }
    }
}

fn scan_number(s: &[u8], i: usize) -> (r: Option<(Token, usize)>)
    requires
        i < s@.len(),
    ensures
        match r {
            Some((t, e)) => number_token(s@, i as int) == Some((t, e as int)),
            None => number_token(s@, i as int) is None,
        },
{
    let a = if s[i] == MINUS {
        i + 1
    } else {
        i
    };
    let d = scan_digits(s, a);
    proof {
        lemma_digits_end_bounds(s@, a as int);
    }
    if d == a {
        return None;
    }
    if d < s.len() && s.len() - d > 1 && s[d] == DOT && is_digit_byte(s[d + 1]) {
        let f = scan_digits(s, d + 1);
        proof {
            lemma_digits_end_bounds(s@, d + 1);
        }
        if f < s.len() && s[f] == LOWER_E {
            let e0 = if f + 1 < s.len() && (s[f + 1] == PLUS || s[f + 1] == MINUS) {
                f + 2
            } else {
                f + 1
            };
            if e0 < s.len() && is_digit_byte(s[e0]) {
                return Some((Token::Float, scan_digits(s, e0)));
            }
        }
        return Some((Token::Float, f));
    }
    Some((Token::Int, d))
}

/// The punctuator that a single byte stands for, if any.
fn punctuator_of(c: u8) -> (r: Option<Token>)
    ensures
        r == single_byte_punctuator(c),
{
    if c == 0x7bu8 {
        Some(Token::BraceOpen)
    } else if c == 0x7du8 {
        Some(Token::BraceClose)
    } else if c == 0x28u8 {
        Some(Token::ParenOpen)
    } else if c == 0x29u8 {
        Some(Token::ParenClose)
    } else if c == 0x5bu8 {
        Some(Token::BracketOpen)
    } else if c == 0x5du8 {
        Some(Token::BracketClose)
    } else if c == 0x3au8 {
        Some(Token::Colon)
    } else if c == 0x3du8 {
        Some(Token::Equals)
    } else if c == 0x21u8 {
        Some(Token::Exclamation)
    } else if c == 0x3fu8 {
        Some(Token::Question)
    } else if c == 0x26u8 {
        Some(Token::Ampersand)
    } else if c == 0x7cu8 {
        Some(Token::Pipe)
    } else {
        None
    }
}

/// Whether any byte is a line feed or a carriage return, looking at each byte in turn.
pub fn have_newline_naive(text: &[u8]) -> (r: bool)
    ensures
        r == exists|j: int| 0 <= j < text@.len() && is_terminator(#[trigger] text@[j]),
{
    let mut i: usize = 0;
    while i < text.len()
        invariant
            i <= text@.len(),
            forall|j: int| 0 <= j < i ==> !is_terminator(#[trigger] text@[j]),
        decreases text@.len() - i,
    {
        if text[i] == LINE_FEED || text[i] == CARRIAGE_RETURN {
            return true;
        }
        i = i + 1;
    }
    false
}

/// Whether any byte is a line feed or a carriage return; long texts are
/// searched with a vectorised scan.
pub fn have_newline(text: &[u8]) -> (r: bool)
    ensures
        r == exists|j: int| 0 <= j < text@.len() && is_terminator(#[trigger] text@[j]),
{
    let usize_bytes = core::mem::size_of::<usize>();
    if text.len() / 2 < usize_bytes {
        return have_newline_naive(text);
    }
    let found = memchr::memchr2(LINE_FEED, CARRIAGE_RETURN, text);
    proof {
        if found is None {
            assert forall|j: int| 0 <= j < text@.len() implies !is_terminator(#[trigger] text@[j]) by {
                assert(text@[j] != LINE_FEED && text@[j] != CARRIAGE_RETURN);
            }
        }
    }
    found.is_some()
}

/// Checks that the string literal at `start..end` holds no raw line break.
fn validate_string(s: &[u8], start: usize, end: usize) -> (r: Result<(), LexingError>)
    requires
        start < end <= s@.len(),
    ensures
        match first_terminator(s@, start as int, end as int) {
            Some(p) => r == Err::<(), LexingError>(
                LexingError::UnterminatedString(Range { start: start, end: p as usize }),
            ),
            None => r is Ok,
        },
{
    let text = &s[start..end];
    proof {
        lemma_first_terminator(s@, start as int, end as int);
    }
    if have_newline(text) {
        match memchr::memchr2(LINE_FEED, CARRIAGE_RETURN, text) {
            Some(k) => {
                proof {
                    assert(text@[k as int] == s@[start + k]);
                    assert forall|j: int| start <= j < start + k implies !is_terminator(
                        #[trigger] s@[j],
                    ) by {
                        assert(s@[j] == text@[j - start]);
                    }
                }
                Err(LexingError::UnterminatedString(Range { start: start, end: start + k }))
            },
            None => {
                proof {
                    let j = choose|j: int| 0 <= j < text@.len() && is_terminator(#[trigger] text@[j]);
                    assert(text@[j] != LINE_FEED && text@[j] != CARRIAGE_RETURN);
                }
                Ok(())
            },
        }
    } else {
        proof {
            if first_terminator(s@, start as int, end as int) is Some {
                let p = first_terminator(s@, start as int, end as int)->0;
                assert(is_terminator(text@[p - start]));
            }
        }
        Ok(())
    }
}

/// Scans the token that starts at `i`.
pub fn next_token(s: &[u8], i: usize) -> (r: Result<(Token, usize), LexingError>)
    requires
        i < s@.len(),
    ensures
        lex_view(r) == lex_token(s@, i as int),
{
    let c = s[i];
    match punctuator_of(c) {
        Some(t) => {
            return Ok((t, i + 1));
        },
        None => {},
    }
    if c == DOT {
        if s.len() - i > 2 && s[i + 1] == DOT && s[i + 2] == DOT {
            return Ok((Token::Ellipsis, i + 3));
        }
        return Err(LexingError::UnknownToken);
    }
    if c == QUOTE {
        if s.len() - i > 2 && s[i + 1] == QUOTE && s[i + 2] == QUOTE {
            return Ok((Token::BlockStringDelimiter, i + 3));
        }
        proof {
            lemma_string_end_bounds(s@, i + 1);
        }
        return match scan_string(s, i + 1) {
            None => Err(LexingError::UnknownToken),
            Some(e) => match validate_string(s, i, e) {
                Ok(()) => Ok((Token::String, e)),
                Err(err) => Err(err),
            },
        };
    }
    if c == MINUS || is_digit_byte(c) {
        return match scan_number(s, i) {
            Some(r) => Ok(r),
            None => Err(LexingError::UnknownToken),
        };
    }
    if c == DOLLAR || c == AT {
        if i + 1 < s.len() && is_name_start_byte(s[i + 1]) {
            let e = scan_name(s, i + 2);
            return Ok((
                if c == DOLLAR {
                    Token::Variable
                } else {
                    Token::Directive
                },
                e,
            ));
        }
        return Err(LexingError::UnknownToken);
    }
    if is_name_start_byte(c) {
        let e = scan_name(s, i + 1);
        proof {
            lemma_name_end_bounds(s@, i + 1);
        }
        let n = e - i;
        let is_true = n == 4 && s[i] == 0x74u8 && s[i + 1] == 0x72u8 && s[i + 2] == 0x75u8 && s[i
            + 3] == 0x65u8;
        let is_false = n == 5 && s[i] == 0x66u8 && s[i + 1] == 0x61u8 && s[i + 2] == 0x6cu8 && s[i
            + 3] == 0x73u8 && s[i + 4] == 0x65u8;
        proof {
            let w = s@.subrange(i as int, e as int);
            assert(is_true == (w =~= seq![0x74u8, 0x72u8, 0x75u8, 0x65u8]));
            assert(is_false == (w =~= seq![0x66u8, 0x61u8, 0x6cu8, 0x73u8, 0x65u8]));
        }
        return Ok((
            if is_true || is_false {
                Token::Bool
            } else {
                Token::Identifier
            },
            e,
        ));
    }
    Err(LexingError::UnknownToken)
}

fn is_triple_quote_at(s: &[u8], i: usize) -> (r: bool)
    ensures
        r == (i + 2 < s@.len() && s@[i as int] == QUOTE && s@[i + 1] == QUOTE && s@[i + 2] == QUOTE),
{
    i < s.len() && s.len() - i > 2 && s[i] == QUOTE && s[i + 1] == QUOTE && s[i + 2] == QUOTE
}

/// Reads a block string body that starts at `pos`, right after its opening
/// delimiter, and appends its dedented, shortest reprint to `out`. The lines
/// are held in `alloc`. Returns the position past the closing delimiter.
pub fn parse_block_string(s: &[u8], pos: usize, alloc: &bumpalo::Bump, out: &mut Vec<u8>) -> (end:
    usize)
    requires
        pos <= s@.len(),
    ensures
        end == block_scan(s@, pos as int, pos as int).1,
        final(out)@ == old(out)@ + print_block(dedent(block_scan(s@, pos as int, pos as int).0)),
        pos <= end <= s@.len(),
{
    proof {
        lemma_block_scan_end(s@, pos as int, pos as int);
    }
    let mut block_string_lines = BlockStringLines::with_capacity_in(5, alloc);
    let mut start = pos;
    let mut i = pos;
    while i < s.len() && !is_triple_quote_at(s, i)
        invariant
            pos <= start <= i <= s@.len(),
            block_string_lines.wf(),
            sum_lens(block_string_lines@) <= start,
            block_scan(s@, pos as int, pos as int) == (
                block_string_lines@ + block_scan(s@, start as int, i as int).0,
                block_scan(s@, start as int, i as int).1,
            ),
        decreases s@.len() - i,
    {
        if s.len() - i > 3 && s[i] == BACKSLASH && s[i + 1] == QUOTE && s[i + 2] == QUOTE && s[i
            + 3] == QUOTE {
            i = i + 4;
        } else if s[i] == LINE_FEED || s[i] == CARRIAGE_RETURN {
            let next = if s[i] == CARRIAGE_RETURN && i + 1 < s.len() && s[i + 1] == LINE_FEED {
                i + 2
            } else {
                i + 1
            };
            let line = arena_copy(alloc, &s[start..i]);
            let ghost before = block_string_lines@;
            let ghost rest = block_scan(s@, next as int, next as int);
            proof {
                lemma_sum_lens_push(before, line@);
            }
            block_string_lines.push(line);
            assert(before + (seq![s@.subrange(start as int, i as int)] + rest.0) =~= before.push(
                line@,
            ) + rest.0);
            start = next;
            i = next;
        } else {
            i = i + 1;
        }
    }
    let end = if i < s.len() {
        i + 3
    } else {
        i
    };
    if start < i {
        let line = arena_copy(alloc, &s[start..i]);
        proof {
            lemma_sum_lens_push(block_string_lines@, line@);
        }
        let ghost before = block_string_lines@;
        block_string_lines.push(line);
        assert(before + seq![s@.subrange(start as int, i as int)] =~= before.push(line@));
    } else {
        assert(block_string_lines@ + Seq::<Seq<u8>>::empty() =~= block_string_lines@);
    }
    dedent_block_lines_mut(&mut block_string_lines);
    print_block_string(&block_string_lines, out);
    end
}

} // verus!
