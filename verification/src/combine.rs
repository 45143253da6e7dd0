//! Loading the two segments, correcting the offsets of the fragment, and
//! writing the combined file.

use vstd::prelude::*;
use crate::atom::{same_source, Atom, AtomInput};
use crate::field::{be_u32, lemma_splice_u32, write_u32_at};
use crate::fixup::{fix_trafs, lemma_patch_trafs_failure, list_children, patch_failure, report};
use crate::lookup::{
    first_atom,
    lemma_first_atom,
    lemma_first_atom_none,
    lemma_found_in_source,
    required_atom,
};
use crate::offset::{corrected_offset, lemma_wrap_u64, wrap_u64};
use crate::output::AtomOutput;
use crate::segment::{
    appended_from,
    combined,
    is_traf,
    lemma_parsed_part,
    lemma_sequence_number_stays,
    parsed_init,
    parsed_part,
    span,
    span_fits,
    InitView,
    PartView,
};
use crate::{
    CombineError,
    ErrorKind,
    Mp4CombineError,
    MAGIC_FTYP,
    MAGIC_MDAT,
    MAGIC_MFHD,
    MAGIC_MOOF,
    MAGIC_MOOV,
    MAGIC_TRAF,
};

verus! {

/// Finds the first box with the tag `magic`.
pub fn find_atom(atoms: &[Atom], magic: u32) -> (r: Option<Atom>)
    ensures
        r == first_atom(atoms@, magic),
{
    let mut i: usize = 0;
    while i < atoms.len()
        invariant
            i <= atoms@.len(),
            forall|j: int| 0 <= j < i ==> atoms@[j].magic != magic,
        decreases atoms@.len() - i,
    {
        if atoms[i].magic == magic {
            proof {
                lemma_first_atom(atoms@, magic, i as int);
            }
            return Some(atoms[i]);
        }
        i += 1;
    }
    proof {
        lemma_first_atom_none(atoms@, magic);
    }
    None
}

/// Finds the first box with the tag `magic`, which has to be there.
pub fn require_atom(atoms: &[Atom], magic: u32) -> (r: Result<Atom, CombineError>)
    ensures
        r == required_atom(atoms@, magic),
{
    match find_atom(atoms, magic) {
        Some(atom) => Ok(atom),
        None => Err(Mp4CombineError(ErrorKind::MissingAtom { magic })),
    }
}

/// Appends the `size` bytes that `src` holds from `src_pos` on to `dst`,
/// a chunk at a time.
///
/// Fails with `ErrorKind::UnexpectedEof` when the range runs past the end of
/// `src`; what was copied before a failure stays in `dst`.
pub fn copy<I, O>(src: &mut I, src_pos: u64, dst: &mut O, size: u32) -> (r: Result<
    (),
    CombineError,
>) where I: AtomInput, O: AtomOutput
    requires
        old(src).wf(),
        old(dst).wf(),
    ensures
        same_source(old(src), final(src)),
        final(dst).wf(),
        final(dst).reliable() == old(dst).reliable(),
        appended_from(
            old(dst).bytes(),
            final(dst).bytes(),
            old(src).bytes(),
            src_pos as int,
            size as int,
        ),
        match r {
            Ok(()) => {
                &&& span_fits(old(src).bytes(), src_pos as int, size as int)
                &&& final(dst).bytes() == old(dst).bytes() + span(
                    old(src).bytes(),
                    src_pos as int,
                    size as int,
                )
            },
            Err(e) => match e.0 {
                ErrorKind::UnexpectedEof => !span_fits(old(src).bytes(), src_pos as int, size as int),
                ErrorKind::Io => !old(src).reliable() || !old(dst).reliable(),
                ErrorKind::MissingAtom { .. } => false,
            },
        },
{
    let ghost source = src.bytes();
    let ghost before = dst.bytes();
    let mut tmp: [u8; 4096] = [0u8; 4096];
    let mut done: u32 = 0;
    proof {
        assert(before =~= before + span(source, src_pos as int, 0));
    }
    while done < size
        invariant
            same_source(old(src), src),
            source == src.bytes(),
            done > 0 ==> source.len() <= u64::MAX,
            before == old(dst).bytes(),
            dst.wf(),
            dst.reliable() == old(dst).reliable(),
            done <= size,
            span_fits(source, src_pos as int, done as int),
            dst.bytes() == before + span(source, src_pos as int, done as int),
        decreases size - done,
    {
        let left: u32 = size - done;
        let count: usize = if left < 4096 {
            left as usize
        } else {
            4096
        };
        let whole: &mut [u8] = &mut tmp;
        let (chunk, _) = whole.split_at_mut(count);
        match src.read(src_pos + done as u64, chunk) {
            Ok(()) => {},
            Err(e) => {
                return Err(e);
            },
        }
        let ghost so_far = dst.bytes();
        match dst.write_all(chunk) {
            Ok(()) => {},
            Err(e) => {
                proof {
                    let n = choose|n: int|
                        0 <= n <= chunk@.len() && dst.bytes() == so_far + #[trigger] chunk@.take(n);
                    assert(dst.bytes() =~= before + span(source, src_pos as int, done + n));
                }
                return Err(e);
            },
        }
        proof {
            assert(dst.bytes() =~= before + span(source, src_pos as int, done + count));
        }
        done += count as u32;
    }
    Ok(())
}

/// Moves `dst` to its end, and then appends the `size` bytes that `src` holds
/// from `src_pos` on.
pub fn seek_copy<I, O>(src: &mut I, src_pos: u64, dst: &mut O, size: u32) -> (r: Result<
    (),
    CombineError,
>) where I: AtomInput, O: AtomOutput
    requires
        old(src).wf(),
        old(dst).wf(),
    ensures
        same_source(old(src), final(src)),
        final(dst).wf(),
        final(dst).reliable() == old(dst).reliable(),
        appended_from(
            old(dst).bytes(),
            final(dst).bytes(),
            old(src).bytes(),
            src_pos as int,
            size as int,
        ),
        match r {
            Ok(()) => {
                &&& span_fits(old(src).bytes(), src_pos as int, size as int)
                &&& final(dst).bytes() == old(dst).bytes() + span(
                    old(src).bytes(),
                    src_pos as int,
                    size as int,
                )
            },
            Err(e) => match e.0 {
                ErrorKind::UnexpectedEof => !span_fits(old(src).bytes(), src_pos as int, size as int),
                ErrorKind::Io => !old(src).reliable() || !old(dst).reliable(),
                ErrorKind::MissingAtom { .. } => false,
            },
        },
{
    match dst.end_position() {
        Ok(_) => copy(src, src_pos, dst, size),
        Err(e) => {
            proof {
                assert(dst.bytes() =~= dst.bytes() + span(old(src).bytes(), src_pos as int, 0));
            }
            Err(e)
        },
    }
}

/// Corrects one stored offset for a fragment whose `moof` box moves to
/// `output_pos` and whose `mdat` box then follows it directly.
///
/// The result is the corrected offset as 64 bits hold it: a correction that
/// leaves `0..2^64` wraps around.
pub fn fix_offset(moof: Atom, mdat: Atom, offset: u64, output_pos: u64, base_moof: bool) -> (r: u64)
    ensures
        r == wrap_u64(corrected_offset(moof, mdat, offset, output_pos, base_moof)),
{
    let ghost stored = offset;
    let ghost mut wraps: int = 0;
    let mut offset: u64 = offset;
    if !base_moof {
        let sum: u64 = offset.wrapping_add(output_pos);
        proof {
            wraps = wraps + if offset + output_pos > u64::MAX { -1int } else { 0 };
        }
        offset = sum.wrapping_sub(moof.offset);
        proof {
            wraps = wraps + if sum - moof.offset < 0 { 1int } else { 0 };
        }
    }
    assert(offset == stored + (if base_moof { 0 } else { output_pos - moof.offset }) + wraps
        * 0x1_0000_0000_0000_0000);
    let ghost moved = offset;
    let ghost moved_wraps = wraps;
    let adjacent: bool = match moof.offset.checked_add(moof.size as u64) {
        Some(end) => mdat.offset == end,
        None => false,
    };
    if !adjacent {
        let first: u64 = offset.wrapping_add(moof.offset);
        proof {
            wraps = wraps + if offset + moof.offset > u64::MAX { -1int } else { 0 };
        }
        let second: u64 = first.wrapping_add(moof.size as u64);
        proof {
            wraps = wraps + if first + moof.size > u64::MAX { -1int } else { 0 };
        }
        offset = second.wrapping_sub(mdat.offset);
        proof {
            wraps = wraps + if second - mdat.offset < 0 { 1int } else { 0 };
        }
        assert(offset == moved + (moof.end() - mdat.offset) + (wraps - moved_wraps)
            * 0x1_0000_0000_0000_0000);
    }
    proof {
        lemma_wrap_u64(
            corrected_offset(moof, mdat, stored, output_pos, base_moof),
            wraps,
            offset,
        );
    }
    offset
}

/// The initialization segment of a stream: a source and the two boxes of it
/// that set up the container.
pub struct Init<I: AtomInput> {
    input: I,
    ftyp: Atom,
    moov: Atom,
}

impl<I: AtomInput> View for Init<I> {
    type V = InitView;

    closed spec fn view(&self) -> InitView {
        InitView {
            source: self.input.bytes(),
            ftyp: self.ftyp,
            moov: self.moov,
        }
    }
}

impl<I: AtomInput> Init<I> {
    /// Whether the source can be read.
    pub closed spec fn input_wf(&self) -> bool {
        self.input.wf()
    }

    /// Whether the source is reliable.
    pub closed spec fn reliable(&self) -> bool {
        self.input.reliable()
    }

    /// What holds of every `Init`: its source can be read and holds both
    /// boxes.
    pub open spec fn wf(&self) -> bool {
        self.input_wf() && self@.wf()
    }

    /// Loads the initialization segment that `input` holds.
    ///
    /// Lists the boxes of `input` and picks the first `ftyp` and the first
    /// `moov` box; fails when the boxes cannot be listed or one of the two is
    /// missing.
    pub fn open(input: I) -> (r: Result<Self, CombineError>)
        requires
            input.wf(),
        ensures
            match r {
                Ok(init) => {
                    &&& init.wf()
                    &&& init.reliable() == input.reliable()
                    &&& parsed_init(input.bytes()) == Ok::<InitView, ErrorKind>(init@)
                },
                Err(e) => if e.0 == ErrorKind::Io {
                    !input.reliable()
                } else {
                    parsed_init(input.bytes()) == Err::<InitView, ErrorKind>(e.0)
                },
            },
    {
        let mut input = input;
        let atoms = Atom::list(&mut input)?;
        let ftyp = require_atom(atoms.as_slice(), MAGIC_FTYP)?;
        let moov = require_atom(atoms.as_slice(), MAGIC_MOOV)?;
        proof {
            lemma_found_in_source(input.bytes(), MAGIC_FTYP);
            lemma_found_in_source(input.bytes(), MAGIC_MOOV);
        }
        Ok(Self { input, ftyp, moov })
    }

    /// The file-type box.
    pub fn ftyp(&self) -> (atom: Atom)
        ensures
            atom == self@.ftyp,
    {
        self.ftyp
    }

    /// The movie-metadata box.
    pub fn moov(&self) -> (atom: Atom)
        ensures
            atom == self@.moov,
    {
        self.moov
    }

    /// Appends the two boxes to `output` as they stand in the source.
    pub fn write<O>(&mut self, output: &mut O) -> (r: Result<(), CombineError>) where
        O: AtomOutput,

        requires
            old(self).wf(),
            old(output).wf(),
        ensures
            final(self).wf(),
            final(self)@ == old(self)@,
            final(self).reliable() == old(self).reliable(),
            final(output).wf(),
            final(output).reliable() == old(output).reliable(),
            old(output).bytes().is_prefix_of(final(output).bytes()),
            final(output).bytes().is_prefix_of(old(output).bytes() + old(self)@.emitted()),
            match r {
                Ok(()) => final(output).bytes() == old(output).bytes() + old(self)@.emitted(),
                Err(e) => e.0 == ErrorKind::Io && !(old(self).reliable() && old(output).reliable()),
            },
    {
        let ghost before = output.bytes();
        seek_copy(&mut self.input, self.ftyp.offset, output, self.ftyp.size)?;
        seek_copy(&mut self.input, self.moov.offset, output, self.moov.size)?;
        proof {
            assert(output.bytes() =~= before + old(self)@.emitted());
        }
        Ok(())
    }
}

/// A media segment of a stream: a source, its fragment and payload boxes, and
/// the bytes of the fragment box, which the fix-up pass rewrites.
pub struct Part<I: AtomInput> {
    input: I,
    moof: Atom,
    mdat: Atom,
    moof_content: Vec<u8>,
    mfhd: Atom,
    traf: Vec<Atom>,
}

impl<I: AtomInput> View for Part<I> {
    type V = PartView;

    closed spec fn view(&self) -> PartView {
        PartView {
            source: self.input.bytes(),
            moof: self.moof,
            mdat: self.mdat,
            moof_content: self.moof_content@,
            mfhd: self.mfhd,
            traf: self.traf@,
        }
    }
}

impl<I: AtomInput> Part<I> {
    /// Whether the source can be read.
    pub closed spec fn input_wf(&self) -> bool {
        self.input.wf()
    }

    /// Whether the source is reliable.
    pub closed spec fn reliable(&self) -> bool {
        self.input.reliable()
    }

    /// What holds of every `Part`: its source can be read, and its boxes lie
    /// where they can.
    pub open spec fn wf(&self) -> bool {
        self.input_wf() && self@.wf()
    }

    /// Loads the media segment that `input` holds.
    ///
    /// Lists the boxes of `input`, picks the first `moof` and the first
    /// `mdat` box, reads the whole `moof` box into memory, lists the boxes
    /// inside it, and picks the first `mfhd` and every `traf` among them.
    pub fn open(input: I) -> (r: Result<Self, CombineError>)
        requires
            input.wf(),
        ensures
            match r {
                Ok(part) => {
                    &&& part.wf()
                    &&& part.reliable() == input.reliable()
                    &&& parsed_part(input.bytes()) == Ok::<PartView, ErrorKind>(part@)
                },
                Err(e) => if e.0 == ErrorKind::Io {
                    !input.reliable()
                } else {
                    parsed_part(input.bytes()) == Err::<PartView, ErrorKind>(e.0)
                },
            },
    {
        let ghost source = input.bytes();
        let mut input = input;
        let atoms = Atom::list(&mut input)?;
        let moof = require_atom(atoms.as_slice(), MAGIC_MOOF)?;
        let mdat = require_atom(atoms.as_slice(), MAGIC_MDAT)?;
        proof {
            lemma_found_in_source(source, MAGIC_MOOF);
            lemma_found_in_source(source, MAGIC_MDAT);
        }
        let mut moof_content: Vec<u8> = vec![0u8; moof.size as usize];
        input.read(moof.offset, moof_content.as_mut_slice())?;
        let ghost content = moof_content@.subrange(8, moof.size as int);
        assert(content =~= source.subrange(moof.offset + 8, moof.end()));
        let children = list_children(moof_content.as_slice(), 0, moof_content.len())?;
        let mfhd = require_atom(children.as_slice(), MAGIC_MFHD)?;
        let mut traf: Vec<Atom> = Vec::new();
        let mut i: usize = 0;
        while i < children.len()
            invariant
                i <= children@.len(),
                traf@ == children@.take(i as int).filter(is_traf()),
            decreases children@.len() - i,
        {
            let atom = children[i];
            proof {
                reveal(Seq::filter);
                assert(children@.take(i + 1).drop_last() =~= children@.take(i as int));
            }
            if atom.magic == MAGIC_TRAF {
                traf.push(atom);
            }
            i += 1;
        }
        proof {
            assert(children@.take(children@.len() as int) =~= children@);
            lemma_parsed_part(source);
        }
        Ok(Self { input, moof, mdat, moof_content, mfhd, traf })
    }

    /// Rewrites the buffer for a fragment whose `moof` box will start at
    /// `output_pos` and whose `mdat` box will follow it directly.
    ///
    /// Sets the sequence number of `mfhd` to 1 and corrects the offset that
    /// each track fragment stores. The first failure ends the pass; what was
    /// rewritten before it stays rewritten.
    pub fn process(&mut self, output_pos: u64) -> (r: Result<(), CombineError>)
        requires
            old(self).wf(),
        ensures
            final(self).wf(),
            final(self).reliable() == old(self).reliable(),
            final(self)@ == (PartView {
                moof_content: old(self)@.patched(output_pos).0,
                ..old(self)@
            }),
            r == report(old(self)@.patched(output_pos).1),
            patch_failure(old(self)@.patched(output_pos).1),
            r is Ok ==> be_u32(final(self)@.moof_content, 8 + old(self)@.mfhd.offset + 12) == 1,
    {
        let ghost before = self@;
        let len: usize = self.moof_content.len();
        let at: usize = 8 + self.mfhd.offset as usize + 12;
        if len - at < 4 {
            return Err(Mp4CombineError(ErrorKind::UnexpectedEof));
        }
        write_u32_at(self.moof_content.as_mut_slice(), at, 1);
        proof {
            lemma_splice_u32(before.moof_content, at as int, 1);
            lemma_sequence_number_stays(before, self.moof_content@, output_pos);
            lemma_patch_trafs_failure(
                self.moof_content@,
                before.traf,
                before.moof,
                before.mdat,
                output_pos,
            );
            assert forall|i: int| 0 <= i < self.traf@.len() implies (#[trigger] self.traf@[i]).size
                >= 12 && 8 + self.traf@[i].end() <= self.moof_content@.len() by {
                assert(before.holds_traf(before.traf[i]));
            }
        }
        fix_trafs(&mut self.moof_content, self.traf.as_slice(), self.moof, self.mdat, output_pos)
    }

    /// Appends the rewritten `moof` box to `output`, and then the `mdat` box
    /// as it stands in the source.
    pub fn write<O>(&mut self, output: &mut O) -> (r: Result<(), CombineError>) where
        O: AtomOutput,

        requires
            old(self).wf(),
            old(output).wf(),
        ensures
            final(self).wf(),
            final(self)@ == old(self)@,
            final(self).reliable() == old(self).reliable(),
            final(output).wf(),
            final(output).reliable() == old(output).reliable(),
            old(output).bytes().is_prefix_of(final(output).bytes()),
            final(output).bytes().is_prefix_of(old(output).bytes() + old(self)@.emitted()),
            match r {
                Ok(()) => final(output).bytes() == old(output).bytes() + old(self)@.emitted(),
                Err(e) => e.0 == ErrorKind::Io && !(old(self).reliable() && old(output).reliable()),
            },
    {
        let ghost before = output.bytes();
        output.end_position()?;
        output.write_all(self.moof_content.as_slice())?;
        seek_copy(&mut self.input, self.mdat.offset, output, self.mdat.size)?;
        proof {
            assert(output.bytes() =~= before + old(self)@.emitted());
        }
        Ok(())
    }

    /// The movie-fragment box, as it lies in the source.
    pub fn moof(&self) -> (atom: Atom)
        ensures
            atom == self@.moof,
    {
        self.moof
    }

    /// The media-data box, as it lies in the source.
    pub fn mdat(&self) -> (atom: Atom)
        ensures
            atom == self@.mdat,
    {
        self.mdat
    }

    /// The fragment-header box, counted from the start of the content of
    /// `moof`.
    pub fn mfhd(&self) -> (atom: Atom)
        ensures
            atom == self@.mfhd,
    {
        self.mfhd
    }

    /// The track-fragment boxes, counted from the start of the content of
    /// `moof`.
    pub fn traf(&self) -> (atoms: &[Atom])
        ensures
            atoms@ == self@.traf,
    {
        self.traf.as_slice()
    }

    /// The bytes of the `moof` box as they will be written.
    pub fn moof_content(&self) -> (bytes: &[u8])
        ensures
            bytes@ == self@.moof_content,
    {
        self.moof_content.as_slice()
    }
}

/// Combines the initialization segment that `init` holds with the media
/// segment that `part` holds, and appends the result to `output`.
///
/// The segments are handled one after the other: a failure of the media
/// segment leaves the boxes of the initialization segment in `output`.
pub fn combine_mp4<I, P, O>(init: I, part: P, output: &mut O) -> (r: Result<(), CombineError>) where
    I: AtomInput,
    P: AtomInput,
    O: AtomOutput,

    requires
        init.wf(),
        part.wf(),
        old(output).wf(),
    ensures
        final(output).wf(),
        final(output).reliable() == old(output).reliable(),
        old(output).bytes().is_prefix_of(final(output).bytes()),
        match r {
            Ok(()) => combined(init.bytes(), part.bytes(), old(output).bytes().len()) == Ok::<
                Seq<u8>,
                ErrorKind,
            >(final(output).bytes().skip(old(output).bytes().len() as int)),
            Err(e) => if e.0 == ErrorKind::Io {
                !(init.reliable() && part.reliable() && old(output).reliable())
            } else {
                combined(init.bytes(), part.bytes(), old(output).bytes().len()) == Err::<
                    Seq<u8>,
                    ErrorKind,
                >(e.0)
            },
        },
{
    let ghost before = output.bytes();
    let mut init = Init::open(init)?;
    init.write(output)?;
    let output_pos: u64 = output.end_position()?;
    let mut part = Part::open(part)?;
    part.process(output_pos)?;
    part.write(output)?;
    proof {
        let tail = init@.emitted() + part@.emitted();
        assert(output.bytes() =~= before + tail);
        assert(output.bytes().skip(before.len() as int) =~= tail);
    }
    Ok(())
}

} // verus!
