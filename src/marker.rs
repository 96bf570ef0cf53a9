//! The comment that marks a string or template literal as GraphQL: its
//! text, once stars and whitespace are trimmed from both ends, is `graphql`
//! in any letter case.
use vstd::prelude::*;
use vstd::std_specs::iter::IteratorSpec;

verus! {

broadcast use vstd::string::axiom_spec_iter;

/// The characters with the Unicode `White_Space` property.
pub open spec fn is_unicode_whitespace(c: char) -> bool {
    let u = c as u32;
    (0x09u32 <= u <= 0x0du32) || u == 0x20u32 || u == 0x85u32 || u == 0xa0u32 || u == 0x1680u32
        || (0x2000u32 <= u <= 0x200au32) || u == 0x2028u32 || u == 0x2029u32 || u == 0x202fu32
        || u == 0x205fu32 || u == 0x3000u32
}

/// Relies on `char::is_whitespace`: true exactly for the characters with the
/// Unicode `White_Space` property.
#[verifier::external_body]
fn is_whitespace(c: char) -> (r: bool)
    ensures
        r == is_unicode_whitespace(c),
{
    c.is_whitespace()
}

/// A star or whitespace: what is trimmed from both ends of the comment.
pub open spec fn is_trimmed(c: char) -> bool {
    c as u32 == 0x2au32 || is_unicode_whitespace(c)
}

/// The lower-case letters of `graphql`, as code points.
pub open spec fn graphql_word() -> Seq<u32> {
    seq![0x67u32, 0x72u32, 0x61u32, 0x70u32, 0x68u32, 0x71u32, 0x6cu32]
}

/// `c` is the lower-case ASCII letter `t` or its upper-case form.
pub open spec fn letter_matches(c: char, t: u32) -> bool {
    c as u32 == t || c as u32 + 0x20 == t
}

/// The first position at or after `i` that is not trimmed.
pub open spec fn trim_start(t: Seq<char>, i: int) -> int
    decreases t.len() - i,
{
    if 0 <= i < t.len() && is_trimmed(t[i]) {
        trim_start(t, i + 1)
    } else {
        i
    }
}

/// The end of the text once trimmed characters before `j` are dropped.
pub open spec fn trim_end(t: Seq<char>, j: int) -> int
    decreases j,
{
    if 0 < j <= t.len() && is_trimmed(t[j - 1]) {
        trim_end(t, j - 1)
    } else {
        j
    }
}

/// The comment text is `graphql`, in any letter case, between stars and
/// whitespace.
pub open spec fn is_graphql_marker(t: Seq<char>) -> bool {
    let a = trim_start(t, 0);
    let b = trim_end(t, t.len() as int);
    b - a == 7 && forall|k: int| 0 <= k < 7 ==> letter_matches(t[a + k], #[trigger] graphql_word()[k])
}

fn is_trimmed_char(c: char) -> (r: bool)
    ensures
        r == is_trimmed(c),
{
    c as u32 == 0x2au32 || is_whitespace(c)
}

fn letter_matches_exec(c: char, t: u32) -> (r: bool)
    requires
        t >= 0x61u32,
    ensures
        r == letter_matches(c, t),
{
    let u = c as u32;
    u == t || u == t - 0x20u32
}

/// The characters of a string, in order.
fn chars_of(text: &str) -> (r: Vec<char>)
    ensures
        r@ == text@,
{
    let mut it = text.chars();
    let mut out: Vec<char> = Vec::new();
    loop
        invariant_except_break
            out@ + it.remaining() == text@,
            it.decrease() is Some,
        ensures
            out@ == text@,
        decreases it.decrease()->0,
    {
        match it.next() {
            Some(c) => {
                out.push(c);
                assert(out@ + it.remaining() =~= text@);
            },
            None => {
                assert(out@ =~= text@);
                break ;
            },
        }
    }
    out
}

/// Whether a comment marks the literal after it as GraphQL.
pub fn is_graphql_comment(text: &str) -> (r: bool)
    ensures
        r == is_graphql_marker(text@),
{
    let chars = chars_of(text);
    let ghost t = text@;
    let n = chars.len();
    let mut a: usize = 0;
    while a < n && is_trimmed_char(chars[a])
        invariant
            chars@ == t,
            n == t.len(),
            a <= n,
            trim_start(t, a as int) == trim_start(t, 0),
        decreases n - a,
    {
        a = a + 1;
    }
    let mut b: usize = n;
    while b > 0 && is_trimmed_char(chars[b - 1])
        invariant
            chars@ == t,
            n == t.len(),
            b <= n,
            trim_end(t, b as int) == trim_end(t, n as int),
        decreases b,
    {
        b = b - 1;
    }
    if a > b || b - a != 7 {
        return false;
    }
    let r = letter_matches_exec(chars[a], 0x67u32) && letter_matches_exec(chars[a + 1], 0x72u32)
        && letter_matches_exec(chars[a + 2], 0x61u32) && letter_matches_exec(chars[a + 3], 0x70u32)
        && letter_matches_exec(chars[a + 4], 0x68u32) && letter_matches_exec(chars[a + 5], 0x71u32)
        && letter_matches_exec(chars[a + 6], 0x6cu32);
    proof {
        let w = graphql_word();
        assert(w[0] == 0x67u32 && w[1] == 0x72u32 && w[2] == 0x61u32 && w[3] == 0x70u32 && w[4]
            == 0x68u32 && w[5] == 0x71u32 && w[6] == 0x6cu32);
        if !r {
            assert(!letter_matches(t[a + 0], w[0]) || !letter_matches(t[a + 1], w[1])
                || !letter_matches(t[a + 2], w[2]) || !letter_matches(t[a + 3], w[3])
                || !letter_matches(t[a + 4], w[4]) || !letter_matches(t[a + 5], w[5])
                || !letter_matches(t[a + 6], w[6]));
        }
    }
    r
}

} // verus!
