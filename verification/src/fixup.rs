//! The fields of a fragment that name byte offsets, and what becomes of them
//! when the fragment moves.

use vstd::prelude::*;
use vstd::slice::slice_subrange;
use crate::atom::{box_list, lemma_box_list_tiles, tiles, Atom, BytesAtomInput};
use crate::combine::{find_atom, fix_offset};
use crate::lookup::{first_atom, is_first_with, lemma_first_atom_is_member};
use crate::offset::{corrected_offset, wrap_u64};
use crate::field::{
    be_u32,
    be_u64,
    lemma_splice_u32,
    lemma_splice_u64,
    read_u32_at,
    read_u64_at,
    splice,
    u32_bytes,
    u64_bytes,
    write_u32_at,
    write_u64_at,
};
use crate::{CombineError, ErrorKind, Mp4CombineError, MAGIC_TFHD, MAGIC_TRUN};

verus! {

/// The field of a track fragment that holds the offset to correct.
#[derive(Clone, Copy, Debug, PartialEq, Eq, Structural)]
pub enum Fixup {
    /// No field: the fragment names no offset.
    Nothing,
    /// The 64-bit base data offset of `tfhd`, which starts at index `at` of
    /// the buffer.
    BaseDataOffset { at: usize, base_moof: bool },
    /// The 32-bit data offset of `trun`, which starts at index `at` of the
    /// buffer.
    DataOffset { at: usize, base_moof: bool },
}

/// A buffer after a rewrite, and the failure, if any, that ended the rewrite.
pub type Patched = (Seq<u8>, Option<ErrorKind>);

/// The number in `0..2^32` that differs from `x` by a multiple of `2^32`.
pub open spec fn wrap_u32(x: int) -> u32 {
    (x % 0x1_0000_0000) as u32
}

/// The field at `at`, which is `width` bytes long, if it ends at or before
/// `end`; else the failure.
pub open spec fn field_within(at: int, width: int, end: int, fixup: Fixup) -> Result<
    Fixup,
    ErrorKind,
> {
    if at + width > end {
        Err(ErrorKind::UnexpectedEof)
    } else {
        Ok(fixup)
    }
}

/// Which field of the track fragment `traf` is to be corrected; `buf` holds
/// a whole `moof` box, and `traf` counts from the start of its content.
///
/// The boxes inside the fragment are listed and the first `tfhd` is looked
/// up. Bit `0x02` of the first flag byte of `tfhd` says whether offsets
/// count from the start of `moof`. Where bit `0x01` of its last flag byte is
/// set, the field is the 64-bit offset that follows the flags of `tfhd`.
/// Else, where the fragment has a `trun` box with bit `0x01` of its last flag
/// byte set, the field is the 32-bit offset that follows the sample count of
/// `trun`. Else there is none. A field that does not end inside the fragment
/// is a failure.
#[verifier::opaque]
pub open spec fn planned_fixup(buf: Seq<u8>, traf: Atom) -> Result<Fixup, ErrorKind> {
    let start = 8 + traf.offset;
    let end = start + traf.size;
    match box_list(buf.subrange(start + 8, end)) {
        None => Err(ErrorKind::UnexpectedEof),
        Some(children) => match first_atom(children, MAGIC_TFHD) {
            None => Err(ErrorKind::MissingAtom { magic: MAGIC_TFHD }),
            Some(tfhd) => {
                let head = start + 8 + tfhd.offset;
                let base_moof = buf[head + 9] & 0x02 != 0;
                if buf[head + 11] & 0x01 != 0 {
                    field_within(
                        head + 12,
                        8,
                        end,
                        Fixup::BaseDataOffset { at: (head + 12) as usize, base_moof },
                    )
                } else {
                    match first_atom(children, MAGIC_TRUN) {
                        None => Ok(Fixup::Nothing),
                        Some(trun) => {
                            let run = start + 8 + trun.offset;
                            if buf[run + 11] & 0x01 != 0 {
                                field_within(
                                    run + 16,
                                    4,
                                    end,
                                    Fixup::DataOffset { at: (run + 16) as usize, base_moof },
                                )
                            } else {
                                Ok(Fixup::Nothing)
                            }
                        },
                    }
                }
            },
        },
    }
}

impl Fixup {
    /// Whether the field lies inside a buffer of `len` bytes.
    pub open spec fn fits(self, len: nat) -> bool {
        match self {
            Fixup::Nothing => true,
            Fixup::BaseDataOffset { at, .. } => at + 8 <= len,
            Fixup::DataOffset { at, .. } => at + 4 <= len,
        }
    }

    /// `buf` with the offset stored in the field corrected. A 32-bit field
    /// keeps the low 32 bits of the corrected offset.
    pub open spec fn applied(
        self,
        buf: Seq<u8>,
        moof: Atom,
        mdat: Atom,
        output_pos: u64,
    ) -> Seq<u8> {
        match self {
            Fixup::Nothing => buf,
            Fixup::BaseDataOffset { at, base_moof } => {
                let stored = be_u64(buf, at as int) as u64;
                let fixed = wrap_u64(corrected_offset(moof, mdat, stored, output_pos, base_moof));
                splice(buf, at as int, u64_bytes(fixed))
            },
            Fixup::DataOffset { at, base_moof } => {
                let stored = be_u32(buf, at as int) as u64;
                let fixed = wrap_u64(corrected_offset(moof, mdat, stored, output_pos, base_moof));
                splice(buf, at as int, u32_bytes(wrap_u32(fixed as int)))
            },
        }
    }

    /// Corrects the offset stored in the field of `buf`.
    pub fn apply(self, buf: &mut Vec<u8>, moof: Atom, mdat: Atom, output_pos: u64)
        requires
            self.fits(old(buf)@.len()),
        ensures
            final(buf)@ == self.applied(old(buf)@, moof, mdat, output_pos),
    {
        match self {
            Fixup::Nothing => {},
            Fixup::BaseDataOffset { at, base_moof } => {
                let stored: u64 = read_u64_at(buf.as_slice(), at);
                let fixed: u64 = fix_offset(moof, mdat, stored, output_pos, base_moof);
                write_u64_at(buf.as_mut_slice(), at, fixed);
            },
            Fixup::DataOffset { at, base_moof } => {
                let stored: u32 = read_u32_at(buf.as_slice(), at);
                let fixed: u64 = fix_offset(moof, mdat, stored as u64, output_pos, base_moof);
                write_u32_at(buf.as_mut_slice(), at, (fixed % 0x1_0000_0000) as u32);
            },
        }
    }
}

/// After a correction the field holds the corrected offset, a 32-bit field
/// its low 32 bits, and the buffer is as long as before.
pub proof fn lemma_applied_field(
    fixup: Fixup,
    buf: Seq<u8>,
    moof: Atom,
    mdat: Atom,
    output_pos: u64,
)
    requires
        fixup.fits(buf.len()),
    ensures
        fixup.applied(buf, moof, mdat, output_pos).len() == buf.len(),
        match fixup {
            Fixup::Nothing => fixup.applied(buf, moof, mdat, output_pos) == buf,
            Fixup::BaseDataOffset { at, base_moof } => be_u64(
                fixup.applied(buf, moof, mdat, output_pos),
                at as int,
            ) == wrap_u64(
                corrected_offset(moof, mdat, be_u64(buf, at as int) as u64, output_pos, base_moof),
            ),
            Fixup::DataOffset { at, base_moof } => be_u32(
                fixup.applied(buf, moof, mdat, output_pos),
                at as int,
            ) == wrap_u32(
                wrap_u64(
                    corrected_offset(
                        moof,
                        mdat,
                        be_u32(buf, at as int) as u64,
                        output_pos,
                        base_moof,
                    ),
                ) as int,
            ),
        },
{
    match fixup {
        Fixup::Nothing => {},
        Fixup::BaseDataOffset { at, base_moof } => {
            let stored = be_u64(buf, at as int) as u64;
            let fixed = wrap_u64(corrected_offset(moof, mdat, stored, output_pos, base_moof));
            lemma_splice_u64(buf, at as int, fixed);
        },
        Fixup::DataOffset { at, base_moof } => {
            let stored = be_u32(buf, at as int) as u64;
            let fixed = wrap_u64(corrected_offset(moof, mdat, stored, output_pos, base_moof));
            lemma_splice_u32(buf, at as int, wrap_u32(fixed as int));
        },
    }
}

/// What correcting the track fragment `traf` makes of `buf`.
#[verifier::opaque]
pub open spec fn patch_traf(
    buf: Seq<u8>,
    traf: Atom,
    moof: Atom,
    mdat: Atom,
    output_pos: u64,
) -> Patched {
    match planned_fixup(buf, traf) {
        Err(kind) => (buf, Some(kind)),
        Ok(fixup) => (fixup.applied(buf, moof, mdat, output_pos), None),
    }
}

/// What correcting the track fragments `trafs`, one after the other, makes
/// of `buf`; the first failure ends the rewrite.
pub open spec fn patch_trafs(
    buf: Seq<u8>,
    trafs: Seq<Atom>,
    moof: Atom,
    mdat: Atom,
    output_pos: u64,
) -> Patched
    decreases trafs.len(),
{
    if trafs.len() == 0 {
        (buf, None)
    } else {
        let first = patch_traf(buf, trafs[0], moof, mdat, output_pos);
        if first.1 is Some {
            first
        } else {
            patch_trafs(first.0, trafs.drop_first(), moof, mdat, output_pos)
        }
    }
}

/// What the fix-up pass makes of `buf`, which holds a whole `moof` box: the
/// sequence number of `mfhd`, the four bytes that follow its flags, becomes
/// 1, and then the track fragments are corrected in their order.
pub open spec fn patch_moof(
    buf: Seq<u8>,
    mfhd: Atom,
    trafs: Seq<Atom>,
    moof: Atom,
    mdat: Atom,
    output_pos: u64,
) -> Patched {
    let at = 8 + mfhd.offset + 12;
    if at + 4 > buf.len() {
        (buf, Some(ErrorKind::UnexpectedEof))
    } else {
        patch_trafs(splice(buf, at, u32_bytes(1)), trafs, moof, mdat, output_pos)
    }
}

/// Correcting a track fragment keeps the length of the buffer, and changes
/// no byte outside the fragment nor any of its first twenty bytes.
pub proof fn lemma_patch_traf_frame(
    buf: Seq<u8>,
    traf: Atom,
    moof: Atom,
    mdat: Atom,
    output_pos: u64,
    idx: int,
)
    requires
        traf.size >= 12,
        8 + traf.end() <= buf.len() <= usize::MAX,
        0 <= idx < buf.len(),
        !(8 + traf.offset + 20 <= idx < 8 + traf.end()),
    ensures
        patch_traf(buf, traf, moof, mdat, output_pos).0.len() == buf.len(),
        patch_traf(buf, traf, moof, mdat, output_pos).0[idx] == buf[idx],
{
    reveal(planned_fixup);
    reveal(patch_traf);
}

/// Correcting track fragments keeps the length of the buffer, and changes
/// no byte that lies outside them all, nor any of their first twenty bytes.
pub proof fn lemma_patch_trafs_frame(
    buf: Seq<u8>,
    trafs: Seq<Atom>,
    moof: Atom,
    mdat: Atom,
    output_pos: u64,
    idx: int,
)
    requires
        buf.len() <= usize::MAX,
        0 <= idx < buf.len(),
        forall|i: int|
            0 <= i < trafs.len() ==> {
                &&& (#[trigger] trafs[i]).size >= 12
                &&& 8 + trafs[i].end() <= buf.len()
                &&& !(8 + trafs[i].offset + 20 <= idx < 8 + trafs[i].end())
            },
    ensures
        patch_trafs(buf, trafs, moof, mdat, output_pos).0.len() == buf.len(),
        patch_trafs(buf, trafs, moof, mdat, output_pos).0[idx] == buf[idx],
    decreases trafs.len(),
{
    if trafs.len() > 0 {
        let first = patch_traf(buf, trafs[0], moof, mdat, output_pos);
        lemma_patch_traf_frame(buf, trafs[0], moof, mdat, output_pos, idx);
        if first.1 is None {
            let rest = trafs.drop_first();
            assert forall|i: int| 0 <= i < rest.len() implies {
                &&& (#[trigger] rest[i]).size >= 12
                &&& 8 + rest[i].end() <= first.0.len()
                &&& !(8 + rest[i].offset + 20 <= idx < 8 + rest[i].end())
            } by {
                assert(rest[i] == trafs[i + 1]);
            }
            lemma_patch_trafs_frame(first.0, rest, moof, mdat, output_pos, idx);
        }
    }
}

/// Whether `failure` is one that the fix-up pass can end with: a box or a
/// field that runs past its end, or a track fragment without `tfhd`.
pub open spec fn patch_failure(failure: Option<ErrorKind>) -> bool {
    match failure {
        None => true,
        Some(kind) => kind == ErrorKind::UnexpectedEof || kind == (ErrorKind::MissingAtom {
            magic: MAGIC_TFHD,
        }),
    }
}

/// The fix-up pass reads no medium: it never fails with `ErrorKind::Io`.
pub proof fn lemma_patch_trafs_failure(
    buf: Seq<u8>,
    trafs: Seq<Atom>,
    moof: Atom,
    mdat: Atom,
    output_pos: u64,
)
    ensures
        patch_failure(patch_trafs(buf, trafs, moof, mdat, output_pos).1),
    decreases trafs.len(),
{
    reveal(planned_fixup);
    reveal(patch_traf);
    if trafs.len() > 0 {
        let first = patch_traf(buf, trafs[0], moof, mdat, output_pos);
        if first.1 is None {
            lemma_patch_trafs_failure(first.0, trafs.drop_first(), moof, mdat, output_pos);
        }
    }
}

/// The result that reports `failure`.
pub open spec fn report(failure: Option<ErrorKind>) -> Result<(), CombineError> {
    match failure {
        None => Ok(()),
        Some(kind) => Err(Mp4CombineError(kind)),
    }
}

/// Lists the boxes inside the box that `buf` holds from `start` to `end`.
pub fn list_children(buf: &[u8], start: usize, end: usize) -> (r: Result<Vec<Atom>, CombineError>)
    requires
        start + 8 <= end <= buf@.len(),
    ensures
        match r {
            Ok(children) => {
                &&& box_list(buf@.subrange(start + 8, end as int)) == Some(children@)
                &&& tiles(buf@.subrange(start + 8, end as int), children@, end - start - 8)
            },
            Err(e) => {
                &&& e.0 == ErrorKind::UnexpectedEof
                &&& box_list(buf@.subrange(start + 8, end as int)) is None
            },
        },
{
    let mut input = BytesAtomInput::new(slice_subrange(buf, start + 8, end));
    let r = Atom::list(&mut input);
    proof {
        if r is Ok {
            lemma_box_list_tiles(buf@.subrange(start + 8, end as int));
        }
    }
    r
}

/// Finds the first box with the tag `magic` among `children`, which are the
/// boxes of `content`.
fn find_child(children: &[Atom], magic: u32, Ghost(content): Ghost<Seq<u8>>) -> (r: Option<Atom>)
    requires
        tiles(content, children@, content.len() as int),
    ensures
        r == first_atom(children@, magic),
        r matches Some(atom) ==> atom.in_source(content),
{
    let r = find_atom(children, magic);
    proof {
        if r is Some {
            lemma_first_atom_is_member(children@, magic);
            let k = choose|k: int|
                is_first_with(children@, magic, k) && first_atom(children@, magic) == Some(
                    children@[k],
                );
            assert(children@[k].in_source(content));
        }
    }
    r
}

/// Finds the field of the track fragment `traf` that is to be corrected.
pub fn plan_fixup(buf: &[u8], traf: Atom) -> (r: Result<Fixup, CombineError>)
    requires
        traf.size >= 12,
        8 + traf.offset + traf.size <= buf@.len(),
    ensures
        match r {
            Ok(fixup) => planned_fixup(buf@, traf) == Ok::<Fixup, ErrorKind>(fixup) && fixup.fits(
                buf@.len(),
            ),
            Err(e) => planned_fixup(buf@, traf) == Err::<Fixup, ErrorKind>(e.0),
        },
{
    reveal(planned_fixup);
    assert(buf@.len() == buf.len());
    let start: usize = 8 + traf.offset as usize;
    let end: usize = start + traf.size as usize;
    let ghost content = buf@.subrange(start + 8, end as int);
    let children: Vec<Atom> = list_children(buf, start, end)?;
    let tfhd: Atom = match find_child(children.as_slice(), MAGIC_TFHD, Ghost(content)) {
        Some(tfhd) => tfhd,
        None => {
            return Err(Mp4CombineError(ErrorKind::MissingAtom { magic: MAGIC_TFHD }));
        },
    };
    let head: usize = start + 8 + tfhd.offset as usize;
    let base_moof: bool = (buf[head + 9] & 0x02) != 0;
    if (buf[head + 11] & 0x01) != 0 {
        if end - head < 20 {
            return Err(Mp4CombineError(ErrorKind::UnexpectedEof));
        }
        return Ok(Fixup::BaseDataOffset { at: head + 12, base_moof });
    }
    match find_child(children.as_slice(), MAGIC_TRUN, Ghost(content)) {
        None => Ok(Fixup::Nothing),
        Some(trun) => {
            let run: usize = start + 8 + trun.offset as usize;
            if (buf[run + 11] & 0x01) != 0 {
                if end - run < 20 {
                    return Err(Mp4CombineError(ErrorKind::UnexpectedEof));
                }
                Ok(Fixup::DataOffset { at: run + 16, base_moof })
            } else {
                Ok(Fixup::Nothing)
            }
        },
    }
}

/// Corrects the offsets of one track fragment inside `buf`, which holds a
/// whole `moof` box.
pub fn fix_traf(buf: &mut Vec<u8>, traf: Atom, moof: Atom, mdat: Atom, output_pos: u64) -> (r:
    Result<(), CombineError>)
    requires
        traf.size >= 12,
        8 + traf.offset + traf.size <= old(buf)@.len(),
    ensures
        final(buf)@ == patch_traf(old(buf)@, traf, moof, mdat, output_pos).0,
        final(buf)@.len() == old(buf)@.len(),
        r == report(patch_traf(old(buf)@, traf, moof, mdat, output_pos).1),
{
    reveal(patch_traf);
    let fixup: Fixup = plan_fixup(buf.as_slice(), traf)?;
    fixup.apply(buf, moof, mdat, output_pos);
    Ok(())
}

/// Corrects the offsets of the track fragments `trafs`, in their order,
/// inside `buf`, which holds a whole `moof` box.
pub fn fix_trafs(buf: &mut Vec<u8>, trafs: &[Atom], moof: Atom, mdat: Atom, output_pos: u64) -> (r:
    Result<(), CombineError>)
    requires
        forall|i: int|
            0 <= i < trafs@.len() ==> (#[trigger] trafs@[i]).size >= 12 && 8 + trafs@[i].end()
                <= old(buf)@.len(),
    ensures
        final(buf)@ == patch_trafs(old(buf)@, trafs@, moof, mdat, output_pos).0,
        final(buf)@.len() == old(buf)@.len(),
        r == report(patch_trafs(old(buf)@, trafs@, moof, mdat, output_pos).1),
{
    let ghost whole = patch_trafs(buf@, trafs@, moof, mdat, output_pos);
    let mut i: usize = 0;
    assert(trafs@.skip(0) =~= trafs@);
    while i < trafs.len()
        invariant
            i <= trafs@.len(),
            buf@.len() == old(buf)@.len(),
            forall|i: int|
                0 <= i < trafs@.len() ==> (#[trigger] trafs@[i]).size >= 12 && 8 + trafs@[i].end()
                    <= buf@.len(),
            whole == patch_trafs(old(buf)@, trafs@, moof, mdat, output_pos),
            patch_trafs(buf@, trafs@.skip(i as int), moof, mdat, output_pos) == whole,
        decreases trafs@.len() - i,
    {
        let traf: Atom = trafs[i];
        let ghost rest = trafs@.skip(i as int);
        proof {
            assert(rest[0] == trafs@[i as int]);
            assert(rest.drop_first() =~= trafs@.skip(i + 1));
        }
        match fix_traf(buf, traf, moof, mdat, output_pos) {
            Ok(()) => {},
            Err(e) => {
                return Err(e);
            },
        }
        i += 1;
    }
    Ok(())
}

} // verus!
