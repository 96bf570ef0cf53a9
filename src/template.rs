//! Spacing around the placeholders of a template literal whose GraphQL
//! fragments are minified one by one and put back together around the
//! placeholders.
use vstd::prelude::*;

use crate::block_string::push_bytes;

verus! {

/// The characters of GraphQL punctuators: a fragment that starts or ends
/// with one needs no space next to a placeholder. Any `.` counts as part of
/// a `...`.
pub open spec fn is_splice_punctuator(b: u8) -> bool {
    b == 0x21u8 || b == 0x24u8 || b == 0x26u8 || b == 0x28u8 || b == 0x29u8 || b == 0x2eu8 || b
        == 0x3au8 || b == 0x40u8 || b == 0x5bu8 || b == 0x5du8 || b == 0x7bu8 || b == 0x2cu8 || b
        == 0x7du8
}

/// A space goes before a minified fragment that follows a placeholder,
/// unless it starts with a punctuator, or it is the empty last fragment.
pub open spec fn space_before_fragment(min: Seq<u8>, is_last: bool, has_prev_expr: bool) -> bool {
    has_prev_expr && !(min.len() == 0 && is_last) && !(min.len() > 0 && is_splice_punctuator(
        min[0],
    ))
}

/// A space goes after a minified fragment that a placeholder follows,
/// unless it ends with a punctuator, or it is empty and is the first
/// fragment or already got a space before it.
pub open spec fn space_after_fragment(
    min: Seq<u8>,
    is_first: bool,
    next_is_expr: bool,
    before: bool,
) -> bool {
    next_is_expr && !(min.len() == 0 && (before || is_first)) && !(min.len() > 0
        && is_splice_punctuator(min.last()))
}

/// The fragment with the spaces that the placeholders around it call for.
pub open spec fn padded_fragment(
    min: Seq<u8>,
    is_first: bool,
    is_last: bool,
    has_prev_expr: bool,
    next_is_expr: bool,
) -> Seq<u8> {
    let before = space_before_fragment(min, is_last, has_prev_expr);
    let after = space_after_fragment(min, is_first, next_is_expr, before);
    (if before {
        seq![0x20u8]
    } else {
        Seq::empty()
    }) + min + (if after {
        seq![0x20u8]
    } else {
        Seq::empty()
    })
}

fn is_splice_punctuator_byte(b: u8) -> (r: bool)
    ensures
        r == is_splice_punctuator(b),
{
    b == 0x21u8 || b == 0x24u8 || b == 0x26u8 || b == 0x28u8 || b == 0x29u8 || b == 0x2eu8 || b
        == 0x3au8 || b == 0x40u8 || b == 0x5bu8 || b == 0x5du8 || b == 0x7bu8 || b == 0x2cu8 || b
        == 0x7du8
}

/// Surrounds a minified fragment of a template literal with the spaces that
/// keep its tokens apart from what the placeholders next to it hold.
/// `has_prev_expr` says that a placeholder comes before the fragment,
/// `next_is_expr` that one comes after it.
pub fn pad_fragment(
    min: &[u8],
    is_first: bool,
    is_last: bool,
    has_prev_expr: bool,
    next_is_expr: bool,
) -> (r: Vec<u8>)
    ensures
        r@ == padded_fragment(min@, is_first, is_last, has_prev_expr, next_is_expr),
{
    let is_empty = min.len() == 0;
    let before = has_prev_expr && !(is_empty && is_last) && !(!is_empty
        && is_splice_punctuator_byte(min[0]));
    let after = next_is_expr && !(is_empty && (before || is_first)) && !(!is_empty
        && is_splice_punctuator_byte(min[min.len() - 1]));
    let mut r: Vec<u8> = Vec::with_capacity(min.len());
    if before {
        r.push(0x20u8);
    }
    push_bytes(&mut r, min);
    if after {
        r.push(0x20u8);
    }
    assert(r@ =~= padded_fragment(min@, is_first, is_last, has_prev_expr, next_is_expr));
    r
}

} // verus!
