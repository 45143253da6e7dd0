//! What a stored byte offset has to become when the fragment that holds it
//! moves.

use vstd::prelude::*;
use vstd::arithmetic::div_mod::lemma_fundamental_div_mod_converse;
use crate::atom::Atom;

verus! {

/// The number in `0..2^64` that differs from `x` by a multiple of `2^64`.
pub open spec fn wrap_u64(x: int) -> u64 {
    (x % 0x1_0000_0000_0000_0000) as u64
}

/// What a stored offset has to become when the fragment moves: the stored
/// value plus, for an offset that counts from the start of the file, the
/// distance by which `moof` moves, plus, where `mdat` did not follow `moof`
/// directly, the distance by which `mdat` moves up to close the gap.
pub open spec fn corrected_offset(
    moof: Atom,
    mdat: Atom,
    offset: u64,
    output_pos: u64,
    base_moof: bool,
) -> int {
    offset + (if base_moof {
        0
    } else {
        output_pos - moof.offset
    }) + (if mdat.offset != moof.end() {
        moof.end() - mdat.offset
    } else {
        0
    })
}

/// A number in `0..2^64` that differs from `x` by a multiple of `2^64` is
/// what `x` wraps to.
pub proof fn lemma_wrap_u64(x: int, k: int, r: u64)
    requires
        r == x + k * 0x1_0000_0000_0000_0000,
    ensures
        wrap_u64(x) == r,
{
    lemma_fundamental_div_mod_converse(x, 0x1_0000_0000_0000_0000, -k, r as int);
}

/// A fragment whose `mdat` followed its `moof` directly keeps every offset
/// that counts from the start of `moof`, wherever the fragment moves.
pub proof fn lemma_fix_offset_relative(moof: Atom, mdat: Atom, offset: u64, output_pos: u64)
    requires
        mdat.offset == moof.end(),
    ensures
        wrap_u64(corrected_offset(moof, mdat, offset, output_pos, true)) == offset,
{
    lemma_wrap_u64(corrected_offset(moof, mdat, offset, output_pos, true), 0, offset);
}

/// A fragment whose `mdat` followed its `moof` directly has every offset that
/// counts from the start of the file moved by as much as `moof` moves, as
/// long as the moved offset is one that 64 bits hold.
pub proof fn lemma_fix_offset_absolute(moof: Atom, mdat: Atom, offset: u64, output_pos: u64)
    requires
        mdat.offset == moof.end(),
        0 <= offset + (output_pos - moof.offset) <= u64::MAX,
    ensures
        wrap_u64(corrected_offset(moof, mdat, offset, output_pos, false)) == offset + (output_pos
            - moof.offset),
{
    lemma_wrap_u64(
        corrected_offset(moof, mdat, offset, output_pos, false),
        0,
        (offset + (output_pos - moof.offset)) as u64,
    );
}

} // verus!
