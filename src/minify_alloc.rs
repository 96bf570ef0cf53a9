//! The caller-owned arena that a minification call allocates its block
//! string lines in.
use vstd::prelude::*;


verus! {

/// The bump arena of bumpalo, held opaque: nothing here reads inside it.
#[verifier::external_type_specification]
#[verifier::external_body]
pub struct ExBump<const MIN_ALIGN: usize>(bumpalo::Bump<MIN_ALIGN>);

/// Arenas reused across calls of `minify`; the one for block strings is
/// emptied after each block string.
pub struct MinifyAllocator {
    pub block_string: bumpalo::Bump,
}

impl MinifyAllocator {
    pub fn new() -> (r: MinifyAllocator) {
        MinifyAllocator { block_string: new_arena() }
    }
}

impl Default for MinifyAllocator {
    fn default() -> (r: MinifyAllocator) {
        MinifyAllocator::new()
    }
}

/// Relies on `bumpalo::Bump::new`: an arena with nothing allocated in it.
#[verifier::external_body]
fn new_arena() -> bumpalo::Bump {
    bumpalo::Bump::new()
}

/// Relies on `bumpalo::Bump::alloc_slice_copy`: a copy of `src`, allocated
/// in the arena.
#[verifier::external_body]
pub(crate) fn arena_copy<'b>(bump: &'b bumpalo::Bump, src: &[u8]) -> (r: &'b [u8])
    ensures
        r@ == src@,
{
    bump.alloc_slice_copy(src)
}

/// Relies on `bumpalo::Bump::reset`: frees every allocation of the arena at once.
#[verifier::external_body]
pub(crate) fn reset_arena(bump: &mut bumpalo::Bump) {
    bump.reset()
}

} // verus!
