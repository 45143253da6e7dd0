//! What the two segments hold, as plain values, and what combining makes of
//! them.

use vstd::prelude::*;
use crate::atom::{box_list, lemma_box_list_is, lemma_box_list_tiles, start_of, tiles, Atom};
use crate::field::{be_u32, lemma_be_u32_window, lemma_splice_u32, splice, u32_bytes};
use crate::fixup::{lemma_patch_trafs_frame, patch_moof, patch_trafs, Patched};
use crate::lookup::{
    first_atom,
    is_first_with,
    lemma_first_atom_is_member,
    lemma_first_atom_none,
    lemma_found_in_source,
};
use crate::{
    ErrorKind,
    MAGIC_FTYP,
    MAGIC_MDAT,
    MAGIC_MFHD,
    MAGIC_MOOF,
    MAGIC_MOOV,
    MAGIC_TRAF,
};

verus! {

/// The `n` bytes that `source` holds from `pos` on, and nothing for `n == 0`,
/// wherever `pos` lies.
pub open spec fn span(source: Seq<u8>, pos: int, n: int) -> Seq<u8> {
    if n <= 0 {
        Seq::empty()
    } else {
        source.subrange(pos, pos + n)
    }
}

/// Whether `n` bytes can be taken from `source` at `pos`.
pub open spec fn span_fits(source: Seq<u8>, pos: int, n: int) -> bool {
    n <= 0 || pos + n <= source.len()
}

/// Whether `after` is `before` followed by the first bytes, at most `limit`
/// of them, of what `source` holds from `pos` on.
pub open spec fn appended_from(
    before: Seq<u8>,
    after: Seq<u8>,
    source: Seq<u8>,
    pos: int,
    limit: int,
) -> bool {
    exists|n: int|
        0 <= n <= limit && span_fits(source, pos, n) && after == before + #[trigger] span(
            source,
            pos,
            n,
        )
}

/// What an `Init` holds, as plain values.
pub struct InitView {
    /// The bytes of the source that the segment was loaded from.
    pub source: Seq<u8>,
    /// The file-type box.
    pub ftyp: Atom,
    /// The movie-metadata box.
    pub moov: Atom,
}

impl InitView {
    /// Whether both boxes lie inside the source.
    pub open spec fn wf(self) -> bool {
        &&& self.ftyp.end() <= self.source.len()
        &&& self.moov.end() <= self.source.len()
    }

    /// The bytes that the segment contributes to the combined file: the
    /// file-type box, then the movie-metadata box.
    pub open spec fn emitted(self) -> Seq<u8> {
        span(self.source, self.ftyp.offset as int, self.ftyp.size as int) + span(
            self.source,
            self.moov.offset as int,
            self.moov.size as int,
        )
    }
}

/// What loading an initialization segment from `source` gives: its two
/// boxes, or the reason why it cannot be loaded.
pub open spec fn parsed_init(source: Seq<u8>) -> Result<InitView, ErrorKind> {
    match box_list(source) {
        None => Err(ErrorKind::UnexpectedEof),
        Some(atoms) => match first_atom(atoms, MAGIC_FTYP) {
            None => Err(ErrorKind::MissingAtom { magic: MAGIC_FTYP }),
            Some(ftyp) => match first_atom(atoms, MAGIC_MOOV) {
                None => Err(ErrorKind::MissingAtom { magic: MAGIC_MOOV }),
                Some(moov) => Ok(InitView { source, ftyp, moov }),
            },
        },
    }
}

/// What a `Part` holds, as plain values.
pub struct PartView {
    /// The bytes of the source that the segment was loaded from.
    pub source: Seq<u8>,
    /// The movie-fragment box, as it lies in the source.
    pub moof: Atom,
    /// The media-data box, as it lies in the source.
    pub mdat: Atom,
    /// The bytes of the movie-fragment box, header included, as they will be
    /// written.
    pub moof_content: Seq<u8>,
    /// The fragment-header box, counted from the start of the content of
    /// `moof`.
    pub mfhd: Atom,
    /// The track-fragment boxes, counted from the start of the content of
    /// `moof`, in their order.
    pub traf: Seq<Atom>,
}

impl PartView {
    /// Whether `traf` lies inside the content of `moof` and apart from
    /// `mfhd`.
    pub open spec fn holds_traf(self, traf: Atom) -> bool {
        &&& traf.size >= 12
        &&& 8 + traf.end() <= self.moof.size
        &&& (traf.end() <= self.mfhd.offset || self.mfhd.end() <= traf.offset)
    }

    /// Whether the boxes lie where they can: `moof` and `mdat` inside the
    /// source, `mfhd` and every `traf` inside the content of `moof`, and the
    /// buffer as long as `moof`.
    pub open spec fn wf(self) -> bool {
        &&& self.moof.size >= 12
        &&& self.moof.end() <= self.source.len()
        &&& self.mdat.end() <= self.source.len()
        &&& self.moof_content.len() == self.moof.size
        &&& self.mfhd.size >= 12
        &&& 8 + self.mfhd.end() <= self.moof.size
        &&& forall|i: int| 0 <= i < self.traf.len() ==> self.holds_traf(#[trigger] self.traf[i])
    }

    /// What the fix-up pass makes of the buffer when `moof` moves to
    /// `output_pos`.
    pub open spec fn patched(self, output_pos: u64) -> Patched {
        patch_moof(self.moof_content, self.mfhd, self.traf, self.moof, self.mdat, output_pos)
    }

    /// The bytes that the segment contributes to the combined file: the
    /// buffer, then the media-data box as it stands in the source.
    pub open spec fn emitted(self) -> Seq<u8> {
        self.moof_content + span(self.source, self.mdat.offset as int, self.mdat.size as int)
    }
}

/// The test that picks the track-fragment boxes.
pub open spec fn is_traf() -> spec_fn(Atom) -> bool {
    |atom: Atom| atom.magic == MAGIC_TRAF
}

/// What loading a media segment from `source` gives: its boxes and the bytes
/// of `moof`, or the reason why it cannot be loaded.
pub open spec fn parsed_part(source: Seq<u8>) -> Result<PartView, ErrorKind> {
    match box_list(source) {
        None => Err(ErrorKind::UnexpectedEof),
        Some(atoms) => match first_atom(atoms, MAGIC_MOOF) {
            None => Err(ErrorKind::MissingAtom { magic: MAGIC_MOOF }),
            Some(moof) => match first_atom(atoms, MAGIC_MDAT) {
                None => Err(ErrorKind::MissingAtom { magic: MAGIC_MDAT }),
                Some(mdat) => match box_list(source.subrange(moof.offset + 8, moof.end())) {
                    None => Err(ErrorKind::UnexpectedEof),
                    Some(children) => match first_atom(children, MAGIC_MFHD) {
                        None => Err(ErrorKind::MissingAtom { magic: MAGIC_MFHD }),
                        Some(mfhd) => Ok(
                            PartView {
                                source,
                                moof,
                                mdat,
                                moof_content: source.subrange(moof.offset as int, moof.end()),
                                mfhd,
                                traf: children.filter(is_traf()),
                            },
                        ),
                    },
                },
            },
        },
    }
}

/// What combining the initialization segment `init` with the media segment
/// `part` appends to a sink that holds `base` bytes, or the reason why the
/// two cannot be combined.
///
/// The result is `ftyp` and `moov` of `init`, then `moof` of `part`,
/// rewritten for the offset at which it lands, then `mdat` of `part`.
pub open spec fn combined(init: Seq<u8>, part: Seq<u8>, base: nat) -> Result<Seq<u8>, ErrorKind> {
    match parsed_init(init) {
        Err(kind) => Err(kind),
        Ok(init) => match parsed_part(part) {
            Err(kind) => Err(kind),
            Ok(part) => {
                let output_pos = (base + init.emitted().len()) as u64;
                let patched = part.patched(output_pos);
                match patched.1 {
                    Some(kind) => Err(kind),
                    None => Ok(
                        init.emitted() + (PartView { moof_content: patched.0, ..part }).emitted(),
                    ),
                }
            },
        },
    }
}

/// A source whose boxes can be listed, and none of which is `ftyp`, holds no
/// initialization segment: loading fails and names `ftyp`.
pub proof fn lemma_init_without_ftyp(source: Seq<u8>)
    requires
        box_list(source) is Some,
        forall|i: int|
            0 <= i < box_list(source).unwrap().len() ==> (#[trigger] box_list(
                source,
            ).unwrap()[i]).magic != MAGIC_FTYP,
    ensures
        parsed_init(source) == Err::<InitView, ErrorKind>(
            ErrorKind::MissingAtom { magic: MAGIC_FTYP },
        ),
{
    lemma_first_atom_none(box_list(source).unwrap(), MAGIC_FTYP);
}

/// The boxes of a loaded initialization segment are boxes of its source, and
/// carry the tags that were looked for.
pub proof fn lemma_parsed_init(source: Seq<u8>)
    requires
        parsed_init(source) is Ok,
    ensures
        ({
            let init = parsed_init(source).unwrap();
            &&& init.wf()
            &&& init.source == source
            &&& init.ftyp.in_source(source)
            &&& init.ftyp.magic == MAGIC_FTYP
            &&& init.moov.in_source(source)
            &&& init.moov.magic == MAGIC_MOOV
        }),
{
    lemma_found_in_source(source, MAGIC_FTYP);
    lemma_found_in_source(source, MAGIC_MOOV);
}

/// The boxes of a loaded media segment lie where they can: `moof` and `mdat`
/// are boxes of the source, the buffer holds `moof`, and `mfhd` and every
/// `traf` are boxes inside `moof` that do not overlap.
pub proof fn lemma_parsed_part(source: Seq<u8>)
    requires
        parsed_part(source) is Ok,
    ensures
        ({
            let part = parsed_part(source).unwrap();
            &&& part.wf()
            &&& part.source == source
            &&& part.moof.in_source(source)
            &&& part.moof.magic == MAGIC_MOOF
            &&& part.mdat.in_source(source)
            &&& part.mdat.magic == MAGIC_MDAT
            &&& part.moof_content == source.subrange(part.moof.offset as int, part.moof.end())
            &&& part.mfhd.magic == MAGIC_MFHD
            &&& forall|i: int| 0 <= i < part.traf.len() ==> (#[trigger] part.traf[i]).magic == MAGIC_TRAF
        }),
{
    let part = parsed_part(source).unwrap();
    lemma_found_in_source(source, MAGIC_MOOF);
    lemma_found_in_source(source, MAGIC_MDAT);
    let content = source.subrange(part.moof.offset + 8, part.moof.end());
    let children = box_list(content).unwrap();
    lemma_found_in_source(content, MAGIC_MFHD);
    lemma_box_list_tiles(content);
    lemma_first_atom_is_member(children, MAGIC_MFHD);
    let at = choose|k: int|
        is_first_with(children, MAGIC_MFHD, k) && first_atom(children, MAGIC_MFHD) == Some(
            children[k],
        );
    assert forall|i: int| 0 <= i < part.traf.len() implies part.holds_traf(#[trigger] part.traf[i])
        && part.traf[i].magic == MAGIC_TRAF by {
        let traf = part.traf[i];
        children.lemma_filter_pred(is_traf(), i);
        assert(part.traf.contains(traf));
        children.lemma_filter_contains_rev(is_traf(), traf);
        let j = choose|j: int| 0 <= j < children.len() && children[j] == traf;
        assert(children[j].in_source(content));
        if j < at {
            assert(children[j].end() <= children[at].offset);
        } else {
            assert(children[at].end() <= children[j].offset);
        }
    }
}

/// Once the sequence number of `mfhd` is 1, correcting the track fragments
/// leaves it at 1: no track fragment reaches into the field.
pub proof fn lemma_sequence_number_stays(part: PartView, numbered: Seq<u8>, output_pos: u64)
    requires
        part.wf(),
        numbered.len() == part.moof.size,
        8 + part.mfhd.offset + 16 <= numbered.len(),
        be_u32(numbered, 8 + part.mfhd.offset + 12) == 1,
    ensures
        be_u32(
            patch_trafs(numbered, part.traf, part.moof, part.mdat, output_pos).0,
            8 + part.mfhd.offset + 12,
        ) == 1,
{
    let at = 8 + part.mfhd.offset + 12;
    assert forall|i: int| 0 <= i < part.traf.len() implies {
        &&& (#[trigger] part.traf[i]).size >= 12
        &&& 8 + part.traf[i].end() <= numbered.len()
        &&& !(8 + part.traf[i].offset + 20 <= at < 8 + part.traf[i].end())
        &&& !(8 + part.traf[i].offset + 20 <= at + 1 < 8 + part.traf[i].end())
        &&& !(8 + part.traf[i].offset + 20 <= at + 2 < 8 + part.traf[i].end())
        &&& !(8 + part.traf[i].offset + 20 <= at + 3 < 8 + part.traf[i].end())
    } by {
        assert(part.holds_traf(part.traf[i]));
    }
    lemma_patch_trafs_frame(numbered, part.traf, part.moof, part.mdat, output_pos, at);
    lemma_patch_trafs_frame(numbered, part.traf, part.moof, part.mdat, output_pos, at + 1);
    lemma_patch_trafs_frame(numbered, part.traf, part.moof, part.mdat, output_pos, at + 2);
    lemma_patch_trafs_frame(numbered, part.traf, part.moof, part.mdat, output_pos, at + 3);
}

/// After a fix-up pass that succeeds, the sequence number of `mfhd` is 1,
/// whatever it was before.
pub proof fn lemma_sequence_number_is_one(part: PartView, output_pos: u64)
    requires
        part.wf(),
        part.patched(output_pos).1 is None,
    ensures
        be_u32(part.patched(output_pos).0, 8 + part.mfhd.offset + 12) == 1,
{
    let at = 8 + part.mfhd.offset + 12;
    let numbered = splice(part.moof_content, at, u32_bytes(1));
    lemma_splice_u32(part.moof_content, at, 1);
    lemma_sequence_number_stays(part, numbered, output_pos);
}

/// Whether `piece` is exactly one box with the tag `magic`.
pub open spec fn is_box(piece: Seq<u8>, magic: u32) -> bool {
    &&& 12 <= piece.len() <= u32::MAX
    &&& be_u32(piece, 0) == piece.len()
    &&& be_u32(piece, 4) == magic
}

/// The range of a source that a box of the source takes up is exactly one
/// box.
pub proof fn lemma_box_of_source(source: Seq<u8>, atom: Atom)
    requires
        atom.in_source(source),
    ensures
        is_box(source.subrange(atom.offset as int, atom.end()), atom.magic),
{
    let piece = source.subrange(atom.offset as int, atom.end());
    lemma_be_u32_window(source, atom.offset as int, piece, 0);
    lemma_be_u32_window(source, atom.offset as int, piece, 4);
}

/// Four boxes written one after the other are a file whose box list is
/// those four boxes, back to back.
pub proof fn lemma_four_boxes(
    first: Seq<u8>,
    second: Seq<u8>,
    third: Seq<u8>,
    fourth: Seq<u8>,
    tags: (u32, u32, u32, u32),
)
    requires
        is_box(first, tags.0),
        is_box(second, tags.1),
        is_box(third, tags.2),
        is_box(fourth, tags.3),
    ensures
        ({
            let a = Atom { offset: 0, size: first.len() as u32, magic: tags.0 };
            let b = Atom { offset: a.end() as u64, size: second.len() as u32, magic: tags.1 };
            let c = Atom { offset: b.end() as u64, size: third.len() as u32, magic: tags.2 };
            let d = Atom { offset: c.end() as u64, size: fourth.len() as u32, magic: tags.3 };
            box_list(first + second + third + fourth) == Some(seq![a, b, c, d])
        }),
{
    let out = first + second + third + fourth;
    let a = Atom { offset: 0, size: first.len() as u32, magic: tags.0 };
    let b = Atom { offset: a.end() as u64, size: second.len() as u32, magic: tags.1 };
    let c = Atom { offset: b.end() as u64, size: third.len() as u32, magic: tags.2 };
    let d = Atom { offset: c.end() as u64, size: fourth.len() as u32, magic: tags.3 };
    assert(out.subrange(0, first.len() as int) =~= first);
    assert(out.subrange(b.offset as int, b.offset + second.len()) =~= second);
    assert(out.subrange(c.offset as int, c.offset + third.len()) =~= third);
    assert(out.subrange(d.offset as int, d.offset + fourth.len()) =~= fourth);
    assert(a.in_source(out)) by {
        lemma_be_u32_window(out, 0, first, 0);
        lemma_be_u32_window(out, 0, first, 4);
    }
    assert(b.in_source(out)) by {
        lemma_be_u32_window(out, b.offset as int, second, 0);
        lemma_be_u32_window(out, b.offset as int, second, 4);
    }
    assert(c.in_source(out)) by {
        lemma_be_u32_window(out, c.offset as int, third, 0);
        lemma_be_u32_window(out, c.offset as int, third, 4);
    }
    assert(d.in_source(out)) by {
        lemma_be_u32_window(out, d.offset as int, fourth, 0);
        lemma_be_u32_window(out, d.offset as int, fourth, 4);
    }
    let atoms = seq![a, b, c, d];
    assert(tiles(out, atoms, out.len() as int)) by {
        assert(start_of(atoms, 0) == 0);
        assert(start_of(atoms, 1) == a.end());
        assert(start_of(atoms, 2) == b.end());
        assert(start_of(atoms, 3) == c.end());
        assert(start_of(atoms, 4) == d.end());
    }
    lemma_box_list_is(out, atoms);
}

/// A fix-up pass that succeeds keeps the length of the buffer and the header
/// of the `moof` box in it.
pub proof fn lemma_patched_is_box(part: PartView, output_pos: u64)
    requires
        part.wf(),
        part.patched(output_pos).1 is None,
        is_box(part.moof_content, MAGIC_MOOF),
    ensures
        is_box(part.patched(output_pos).0, MAGIC_MOOF),
        part.patched(output_pos).0.len() == part.moof.size,
{
    let at = 8 + part.mfhd.offset + 12;
    let numbered = splice(part.moof_content, at, u32_bytes(1));
    let patched = part.patched(output_pos).0;
    assert forall|idx: int| 0 <= idx < 8 implies patched[idx] == part.moof_content[idx]
        && patched.len() == part.moof_content.len() by {
        assert forall|i: int| 0 <= i < part.traf.len() implies {
            &&& (#[trigger] part.traf[i]).size >= 12
            &&& 8 + part.traf[i].end() <= numbered.len()
            &&& !(8 + part.traf[i].offset + 20 <= idx < 8 + part.traf[i].end())
        } by {
            assert(part.holds_traf(part.traf[i]));
        }
        lemma_patch_trafs_frame(numbered, part.traf, part.moof, part.mdat, output_pos, idx);
    }
    assert(patched[0] == part.moof_content[0]);
    assert(patched[1] == part.moof_content[1]);
    assert(patched[2] == part.moof_content[2]);
    assert(patched[3] == part.moof_content[3]);
    assert(patched[4] == part.moof_content[4]);
    assert(patched[5] == part.moof_content[5]);
    assert(patched[6] == part.moof_content[6]);
    assert(patched[7] == part.moof_content[7]);
}

/// What combining appends is a file of exactly four boxes that lie back to
/// back: `ftyp` and `moov` with the sizes they have in the initialization
/// segment, then `moof` and `mdat` with the sizes they have in the media
/// segment, wherever they lay there. The fragment in it carries the sequence
/// number 1.
pub proof fn lemma_combined_boxes(init: Seq<u8>, part: Seq<u8>, base: nat)
    requires
        combined(init, part, base) is Ok,
    ensures
        ({
            let out = combined(init, part, base).unwrap();
            let from = parsed_init(init).unwrap();
            let with = parsed_part(part).unwrap();
            let ftyp = Atom { offset: 0, size: from.ftyp.size, magic: MAGIC_FTYP };
            let moov = Atom { offset: ftyp.end() as u64, size: from.moov.size, magic: MAGIC_MOOV };
            let moof = Atom { offset: moov.end() as u64, size: with.moof.size, magic: MAGIC_MOOF };
            let mdat = Atom { offset: moof.end() as u64, size: with.mdat.size, magic: MAGIC_MDAT };
            &&& box_list(out) == Some(seq![ftyp, moov, moof, mdat])
            &&& be_u32(out, moof.offset + 8 + with.mfhd.offset + 12) == 1
        }),
{
    let out = combined(init, part, base).unwrap();
    let from = parsed_init(init).unwrap();
    let with = parsed_part(part).unwrap();
    lemma_parsed_init(init);
    lemma_parsed_part(part);
    let output_pos = (base + from.emitted().len()) as u64;
    let first = init.subrange(from.ftyp.offset as int, from.ftyp.end());
    let second = init.subrange(from.moov.offset as int, from.moov.end());
    let third = with.patched(output_pos).0;
    let fourth = part.subrange(with.mdat.offset as int, with.mdat.end());
    lemma_box_of_source(init, from.ftyp);
    lemma_box_of_source(init, from.moov);
    lemma_box_of_source(part, with.moof);
    lemma_box_of_source(part, with.mdat);
    lemma_patched_is_box(with, output_pos);
    lemma_sequence_number_is_one(with, output_pos);
    assert(out == first + second + third + fourth);
    lemma_four_boxes(first, second, third, fourth, (MAGIC_FTYP, MAGIC_MOOV, MAGIC_MOOF, MAGIC_MDAT));
    let start = (first.len() + second.len()) as int;
    assert(out.subrange(start, start + third.len()) =~= third);
    lemma_be_u32_window(out, start, third, 8 + with.mfhd.offset + 12);
}

} // verus!
