//! Strips the characters of a GraphQL document that do not matter to its
//! validity or execution: whitespace, commas and comments between tokens go,
//! block strings are dedented and reprinted in their shortest form, and a
//! single space stays only where two tokens would otherwise run together.
use vstd::prelude::*;

pub mod block_string;
pub mod encoding;
pub mod length;
pub mod lexer;
pub mod marker;
pub mod minify_alloc;
pub mod reprint;
pub mod template;
pub mod tokens;

use core::ops::Range;

use vstd::string::StringSliceAdditionalSpecFns;
use vstd::utf8::{decode_utf8, decode_utf8_encode_utf8, encode_utf8, encode_utf8_valid_utf8, valid_utf8};

use crate::block_string::{dedent, print_block, push_bytes};
use crate::encoding::lemma_minify_from_valid;
use crate::lexer::{
    block_scan,
    lemma_block_scan_end,
    lemma_lex_token_end,
    lemma_trivia_end_bounds,
    lex_token,
    next_token,
    parse_block_string,
    skip_trivia,
    trivia_end,
    LexingError,
    Token,
};
use crate::minify_alloc::reset_arena;
pub use crate::minify_alloc::MinifyAllocator;

verus! {

/// Why a document could not be minified; the span is a byte range of the input.
#[derive(Debug, PartialEq, Eq)]
pub enum MinifyError {
    UnknownToken(Range<usize>),
    UnterminatedString(Range<usize>),
}

impl MinifyError {
    /// A short description of the error.
    pub fn as_str(&self) -> (r: &str)
        ensures
            self is UnknownToken ==> r@ == "unknown token"@,
            self is UnterminatedString ==> r@ == "unterminated string"@,
    {
        match self {
            MinifyError::UnknownToken(_) => "unknown token",
            MinifyError::UnterminatedString(_) => "unterminated string",
        }
    }

    /// The byte range of the input that the error is about.
    pub fn span(&self) -> (r: &Range<usize>)
        ensures
            *r == match self {
                MinifyError::UnknownToken(span) => *span,
                MinifyError::UnterminatedString(span) => *span,
            },
    {
        match self {
            MinifyError::UnknownToken(span) => span,
            MinifyError::UnterminatedString(span) => span,
        }
    }
}

/// Tokens that can never run into their neighbours.
pub open spec fn is_punctuator(t: Token) -> bool {
    matches!(
        t,
        Token::BraceOpen
            | Token::BraceClose
            | Token::ParenOpen
            | Token::ParenClose
            | Token::BracketOpen
            | Token::BracketClose
            | Token::Colon
            | Token::Equals
            | Token::Exclamation
            | Token::Question
            | Token::Ellipsis
            | Token::Ampersand
            | Token::Pipe
            | Token::Variable
            | Token::Directive
    )
}

pub open spec fn spaced_after(t: Token) -> bool {
    matches!(t, Token::Variable | Token::String | Token::Identifier | Token::Directive)
}

pub open spec fn spaced_before(t: Token) -> bool {
    matches!(t, Token::Identifier | Token::BlockStringDelimiter)
}

/// The join policy: whether a space goes between the previous token and the current one.
pub open spec fn space_needed(cur: Token, last: Option<Token>) -> bool {
    match last {
        None => false,
        Some(p) => if !is_punctuator(p) {
            !is_punctuator(cur)
        } else {
            spaced_after(p) && spaced_before(cur)
        },
    }
}

pub open spec fn separator(cur: Token, last: Option<Token>) -> Seq<u8> {
    if space_needed(cur, last) {
        seq![0x20u8]
    } else {
        Seq::empty()
    }
}

/// The error that a scanner failure at `j` becomes.
pub open spec fn minify_error(s: Seq<u8>, j: int, e: LexingError) -> MinifyError {
    match e {
        LexingError::UnknownToken => MinifyError::UnknownToken(
            Range { start: j as usize, end: s.len() as usize },
        ),
        LexingError::UnterminatedString(span) => MinifyError::UnterminatedString(span),
    }
}

/// The output for the tokens from position `i` on, `last` being the token
/// before them.
pub open spec fn minify_from(s: Seq<u8>, i: int, last: Option<Token>) -> Result<
    Seq<u8>,
    MinifyError,
>
    decreases s.len() - i,
    via minify_from_decreases
{
    let j = trivia_end(s, i, false);
    if i < 0 || j >= s.len() {
        Ok(Seq::empty())
    } else {
        match lex_token(s, j) {
            Err(e) => Err(minify_error(s, j, e)),
            Ok((t, e)) => {
                let lexeme = if t == Token::BlockStringDelimiter {
                    print_block(dedent(block_scan(s, e, e).0))
                } else {
                    s.subrange(j, e)
                };
                let next = if t == Token::BlockStringDelimiter {
                    block_scan(s, e, e).1
                } else {
                    e
                };
                match minify_from(s, next, Some(t)) {
                    Ok(rest) => Ok(separator(t, last) + lexeme + rest),
                    Err(err) => Err(err),
                }
            },
        }
    }
}

#[via_fn]
proof fn minify_from_decreases(s: Seq<u8>, i: int, last: Option<Token>) {
    if 0 <= i <= s.len() {
        lemma_trivia_end_bounds(s, i, false);
        let j = trivia_end(s, i, false);
        if j < s.len() {
            lemma_lex_token_end(s, j);
            if let Ok((t, e)) = lex_token(s, j) {
                lemma_block_scan_end(s, e, e);
            }
        }
    }
}

/// The minified form of a document, or the error that stops it.
pub open spec fn minified(s: Seq<u8>) -> Result<Seq<u8>, MinifyError> {
    minify_from(s, 0, None)
}

/// `p` put before the output, where there is one.
pub open spec fn prepend(p: Seq<u8>, r: Result<Seq<u8>, MinifyError>) -> Result<Seq<u8>, MinifyError> {
    match r {
        Ok(x) => Ok(p + x),
        Err(e) => Err(e),
    }
}

/// Whether the token is not a punctuator.
pub fn is_non_punctuator(token: &Token) -> (r: bool)
    ensures
        r == !is_punctuator(*token),
{
    !matches!(
        token,
        Token::BraceOpen
            | Token::BraceClose
            | Token::ParenOpen
            | Token::ParenClose
            | Token::BracketOpen
            | Token::BracketClose
            | Token::Colon
            | Token::Equals
            | Token::Exclamation
            | Token::Question
            | Token::Ellipsis
            | Token::Ampersand
            | Token::Pipe
            | Token::Variable
            | Token::Directive
    )
}

/// Whether the token would run into an identifier or a block string after it.
pub fn needs_space_after_token(token: &Token) -> (r: bool)
    ensures
        r == spaced_after(*token),
{
    matches!(token, Token::Variable | Token::String | Token::Identifier | Token::Directive)
}

/// Whether the token would run into a variable, directive, string or
/// identifier before it.
pub fn needs_space_before_token(token: &Token) -> (r: bool)
    ensures
        r == spaced_before(*token),
{
    matches!(token, Token::Identifier | Token::BlockStringDelimiter)
}

/// Whether a space must go between `last_token` and `cur_token`.
pub fn needs_space(cur_token: &Token, last_token: Option<&Token>) -> (r: bool)
    ensures
        r == space_needed(
            *cur_token,
            match last_token {
                Some(t) => Some(*t),
                None => None,
            },
        ),
{
    match last_token {
        Some(last) => {
            if is_non_punctuator(last) {
                is_non_punctuator(cur_token)
            } else if needs_space_after_token(last) {
                needs_space_before_token(cur_token)
            } else {
                false
            }
        },
        None => false,
    }
}

/// Minifies the bytes of a GraphQL document.
pub fn minify_bytes(value: &[u8], alloc: &mut MinifyAllocator) -> (r: Result<Vec<u8>, MinifyError>)
    ensures
        match r {
            Ok(out) => minified(value@) == Ok::<Seq<u8>, MinifyError>(out@),
            Err(e) => minified(value@) == Err::<Seq<u8>, MinifyError>(e),
        },
{
    let ghost s = value@;
    let mut result: Vec<u8> = Vec::with_capacity(value.len());
    let mut last_token: Option<Token> = None;
    let mut pos: usize = 0;
    while pos < value.len()
        invariant
            s == value@,
            pos <= s.len(),
            minified(s) == prepend(result@, minify_from(s, pos as int, last_token)),
        decreases s.len() - pos,
    {
        let j = skip_trivia(value, pos);
        if j < value.len() {
            proof {
                lemma_lex_token_end(s, j as int);
            }
            match next_token(value, j) {
                Err(e) => {
                    return Err(
                        match e {
                            LexingError::UnknownToken => MinifyError::UnknownToken(
                                Range { start: j, end: value.len() },
                            ),
                            LexingError::UnterminatedString(span) => MinifyError::UnterminatedString(
                                span,
                            ),
                        },
                    );
                },
                Ok((token, e)) => {
                    let ghost before = result@;
                    let space = needs_space(
                        &token,
                        match &last_token {
                            Some(t) => Some(t),
                            None => None,
                        },
                    );
                    if space {
                        result.push(0x20u8);
                    }
                    assert(result@ == before + separator(token, last_token));
                    let next = match token {
                        Token::BlockStringDelimiter => {
                            let end = parse_block_string(
                                value,
                                e,
                                &alloc.block_string,
                                &mut result,
                            );
                            reset_arena(&mut alloc.block_string);
                            end
                        },
                        _ => {
                            push_bytes(&mut result, &value[j..e]);
                            e
                        },
                    };
                    proof {
                        let lexeme = if token == Token::BlockStringDelimiter {
                            print_block(dedent(block_scan(s, e as int, e as int).0))
                        } else {
                            s.subrange(j as int, e as int)
                        };
                        assert(result@ == before + separator(token, last_token) + lexeme);
                        match minify_from(s, next as int, Some(token)) {
                            Ok(rest) => {
                                assert(before + (separator(token, last_token) + lexeme + rest)
                                    =~= result@ + rest);
                            },
                            Err(err) => {},
                        }
                    }
                    last_token = Some(token);
                    pos = next;
                },
            }
        } else {
            pos = j;
        }
    }
    assert(result@ + Seq::<u8>::empty() =~= result@);
    Ok(result)
}

/// Relies on `String::from_utf8_lossy`: on valid UTF-8 its result holds
/// exactly the characters that the bytes encode.
#[verifier::external_body]
fn string_from_bytes(bytes: &[u8]) -> (r: String)
    ensures
        valid_utf8(bytes@) ==> r@ == decode_utf8(bytes@),
{
    String::from_utf8_lossy(bytes).into_owned()
}

/// Strips the characters of a GraphQL document that are not significant to
/// its validity or execution.
pub fn minify(value: &str, alloc: &mut MinifyAllocator) -> (r: Result<String, MinifyError>)
    ensures
        match r {
            Ok(out) => minified(value.spec_bytes()) == Ok::<Seq<u8>, MinifyError>(
                encode_utf8(out@),
            ),
            Err(e) => minified(value.spec_bytes()) == Err::<Seq<u8>, MinifyError>(e),
        },
{
    let bytes = value.as_bytes();
    proof {
        encode_utf8_valid_utf8(value@);
        lemma_minify_from_valid(bytes@, 0, None);
    }
    match minify_bytes(bytes, alloc) {
        Ok(out) => {
            let text = string_from_bytes(out.as_slice());
            proof {
                decode_utf8_encode_utf8(out@);
            }
            Ok(text)
        },
        Err(e) => Err(e),
    }
}

/// A document made of nothing but whitespace, commas and comments
/// minifies to the empty document.
pub proof fn ignored_only_collapses(s: Seq<u8>)
    requires
        trivia_end(s, 0, false) == s.len(),
    ensures
        minified(s) == Ok::<Seq<u8>, MinifyError>(Seq::empty()),
{
}

/// No space is emitted between two tokens when one of them is a
/// punctuator, unless the first one needs a space after it and the second
/// one a space before it.
pub proof fn punctuators_join(prev: Token, cur: Token)
    requires
        is_punctuator(prev) || is_punctuator(cur),
        !(spaced_after(prev) && spaced_before(cur)),
    ensures
        !space_needed(cur, Some(prev)),
        separator(cur, Some(prev)) == Seq::<u8>::empty(),
{
}

} // verus!
