//! Box descriptors, the sources they are read from, and the parser that
//! lists the boxes of a source.

use vstd::prelude::*;
use crate::field::{be_u32, read_u32_at};
use crate::{CombineError, ErrorKind, Mp4CombineError};

verus! {

/// One box of a source: where it starts, how long it is, header included, and
/// its tag.
#[derive(Copy, Clone, Debug, PartialEq, Eq, Structural)]
pub struct Atom {
    pub offset: u64,
    pub size: u32,
    pub magic: u32,
}

impl Atom {
    /// The offset just past the last byte of the box.
    pub open spec fn end(self) -> int {
        self.offset + self.size
    }

    /// Whether the header found at `self.offset` in `bytes` announces this
    /// box, and the box lies inside `bytes`.
    pub open spec fn in_source(self, bytes: Seq<u8>) -> bool {
        &&& self.size >= 12
        &&& self.offset + self.size <= bytes.len()
        &&& self.size == be_u32(bytes, self.offset as int)
        &&& self.magic == be_u32(bytes, self.offset + 4)
    }

    /// Lists the boxes of `input`, in the order in which they lie.
    ///
    /// Succeeds exactly when boxes cover the source from its first byte to
    /// its last, unless the medium fails first. A box that claims fewer than
    /// twelve bytes, or more than are left, is never skipped: it ends the
    /// walk with `ErrorKind::UnexpectedEof`.
    pub fn list<I>(input: &mut I) -> (r: Result<Vec<Atom>, CombineError>) where I: AtomInput
        requires
            old(input).wf(),
        ensures
            same_source(old(input), final(input)),
            match r {
                Ok(atoms) => {
                    &&& box_list(old(input).bytes()) == Some(atoms@)
                    &&& tiles(old(input).bytes(), atoms@, old(input).bytes().len() as int)
                },
                Err(e) => match e.0 {
                    ErrorKind::UnexpectedEof => box_list(old(input).bytes()) is None,
                    ErrorKind::Io => !old(input).reliable(),
                    ErrorKind::MissingAtom { .. } => false,
                },
            },
    {
        let ghost bytes = input.bytes();
        let mut atoms: Vec<Atom> = Vec::new();
        let mut offset: u64 = 0;
        let len: u64 = input.len();
        while offset < len
            invariant
                same_source(old(input), input),
                bytes == input.bytes(),
                len == bytes.len(),
                offset <= len,
                tiles(bytes, atoms@, offset as int),
            decreases len - offset,
        {
            let size: u32 = match input.read_u32(offset) {
                Ok(size) => size,
                Err(e) => {
                    proof {
                        if e.0 == ErrorKind::UnexpectedEof {
                            lemma_no_list_past_bad_box(bytes, atoms@, offset as int);
                        }
                    }
                    return Err(e);
                },
            };
            if size < 12 || size as u64 > len - offset {
                proof {
                    lemma_no_list_past_bad_box(bytes, atoms@, offset as int);
                }
                return Err(Mp4CombineError(ErrorKind::UnexpectedEof));
            }
            let magic: u32 = match input.read_u32(offset + 4) {
                Ok(magic) => magic,
                Err(e) => {
                    return Err(e);
                },
            };
            let atom = Atom { offset, size, magic };
            proof {
                lemma_tiles_push(bytes, atoms@, atom);
            }
            atoms.push(atom);
            offset += size as u64;
        }
        proof {
            lemma_box_list_is(bytes, atoms@);
        }
        Ok(atoms)
    }

    /// Where the content of the box starts, past its header of eight bytes.
    pub fn content_offset(&self) -> (offset: u64)
        requires
            self.offset + 8 <= u64::MAX,
        ensures
            offset == self.offset + 8,
    {
        self.offset + 8
    }

    /// How many bytes of content follow the header.
    pub fn content_size(&self) -> (size: u32)
        requires
            self.size >= 8,
        ensures
            size == self.size - 8,
    {
        self.size - 8
    }
}

/// Where the box with index `i` of `atoms` has to start for the boxes to lie
/// back to back from offset 0: where the one before it ends.
pub open spec fn start_of(atoms: Seq<Atom>, i: int) -> int {
    if i <= 0 {
        0
    } else {
        atoms[i - 1].end()
    }
}

/// Whether `atoms` are boxes of `bytes` that lie back to back, the first at
/// offset 0 and the last ending at `end`.
pub open spec fn tiles(bytes: Seq<u8>, atoms: Seq<Atom>, end: int) -> bool {
    &&& forall|i: int| 0 <= i < atoms.len() ==> (#[trigger] atoms[i]).in_source(bytes)
    &&& forall|i: int| 0 <= i < atoms.len() ==> atoms[i].offset == #[trigger] start_of(atoms, i)
    &&& end == start_of(atoms, atoms.len() as int)
}

/// Whether a box can start at `pos`: its size field is there, and the size
/// it gives is at least twelve and stays inside `bytes`.
pub open spec fn box_at(bytes: Seq<u8>, pos: int) -> bool {
    &&& pos + 4 <= bytes.len()
    &&& be_u32(bytes, pos) >= 12
    &&& pos + be_u32(bytes, pos) <= bytes.len()
}

/// The boxes that cover `bytes` from its first byte to its last, if there
/// are such.
#[verifier::opaque]
pub open spec fn box_list(bytes: Seq<u8>) -> Option<Seq<Atom>> {
    if exists|atoms: Seq<Atom>| tiles(bytes, atoms, bytes.len() as int) {
        Some(choose|atoms: Seq<Atom>| tiles(bytes, atoms, bytes.len() as int))
    } else {
        None
    }
}

/// A walk goes on with the box that starts where it ended.
pub proof fn lemma_tiles_push(bytes: Seq<u8>, atoms: Seq<Atom>, next: Atom)
    requires
        tiles(bytes, atoms, next.offset as int),
        next.in_source(bytes),
    ensures
        tiles(bytes, atoms.push(next), next.end()),
{
    let longer = atoms.push(next);
    assert forall|i: int| 0 <= i < longer.len() implies longer[i].offset == #[trigger] start_of(
        longer,
        i,
    ) by {
        if i < atoms.len() {
            assert(atoms[i].offset == start_of(atoms, i));
        }
    }
}

/// Boxes that lie back to back start at offsets that grow with the index.
pub proof fn lemma_starts_grow(bytes: Seq<u8>, atoms: Seq<Atom>, end: int, i: int, j: int)
    requires
        tiles(bytes, atoms, end),
        0 <= i <= j <= atoms.len(),
    ensures
        start_of(atoms, i) + 12 * (j - i) <= start_of(atoms, j),
    decreases j - i,
{
    if i < j {
        lemma_starts_grow(bytes, atoms, end, i, j - 1);
        assert(atoms[j - 1].in_source(bytes));
    }
}

/// Two walks over the same bytes agree as far as the shorter one goes, and
/// are the same walk when they end at the same offset.
pub proof fn lemma_tiles_agree(bytes: Seq<u8>, a: Seq<Atom>, a_end: int, b: Seq<Atom>, b_end: int)
    requires
        tiles(bytes, a, a_end),
        tiles(bytes, b, b_end),
        a_end <= b_end,
    ensures
        a.is_prefix_of(b),
        a_end == b_end ==> a == b,
    decreases a.len(),
{
    if a.len() > 0 {
        let k = a.len() - 1;
        let shorter = a.drop_last();
        assert(a[k].in_source(bytes));
        assert forall|i: int| 0 <= i < shorter.len() implies shorter[i].offset
            == #[trigger] start_of(shorter, i) by {
            assert(shorter[i].offset == start_of(a, i));
        }
        assert forall|i: int| 0 <= i < shorter.len() implies (#[trigger] shorter[i]).in_source(
            bytes,
        ) by {
            assert(shorter[i] == a[i]);
        }
        lemma_tiles_agree(bytes, shorter, start_of(a, k), b, b_end);
        if b.len() == k {
            assert(shorter =~= b);
        }
        assert(b[k].in_source(bytes));
        assert(b[k].offset == start_of(b, k));
        assert(a[k].offset == start_of(a, k));
        if k > 0 {
            assert(b[k - 1] == shorter[k - 1]);
        }
        assert(a[k] == b[k]);
        assert forall|i: int| 0 <= i < a.len() implies a[i] == b[i] by {
            if i < k {
                assert(shorter[i] == a[i]);
            }
        }
    }
    if a_end == b_end && a.len() < b.len() {
        lemma_starts_grow(bytes, b, b_end, a.len() as int, b.len() as int);
        if a.len() > 0 {
            assert(a[a.len() - 1] == b[a.len() - 1]);
        }
    }
    if a_end == b_end {
        assert(a =~= b);
    }
}

/// A walk that covers the bytes is the box list.
pub proof fn lemma_box_list_is(bytes: Seq<u8>, atoms: Seq<Atom>)
    requires
        tiles(bytes, atoms, bytes.len() as int),
    ensures
        box_list(bytes) == Some(atoms),
{
    reveal(box_list);
    let chosen = choose|atoms: Seq<Atom>| tiles(bytes, atoms, bytes.len() as int);
    lemma_tiles_agree(bytes, atoms, bytes.len() as int, chosen, bytes.len() as int);
}

/// The boxes of a list cover the bytes without a gap and without an overlap,
/// in ascending order: the first starts at offset 0, each next one starts
/// where the one before it ends, and the last ends where the bytes end.
pub proof fn lemma_box_list_tiles(bytes: Seq<u8>)
    requires
        box_list(bytes) is Some,
    ensures
        ({
            let atoms = box_list(bytes).unwrap();
            &&& tiles(bytes, atoms, bytes.len() as int)
            &&& atoms.len() == 0 <==> bytes.len() == 0
            &&& atoms.len() > 0 ==> atoms[0].offset == 0 && atoms.last().end() == bytes.len()
            &&& forall|i: int|
                0 <= i < atoms.len() - 1 ==> (#[trigger] atoms[i + 1]).offset == atoms[i].end()
            &&& forall|i: int, j: int|
                0 <= i < j < atoms.len() ==> (#[trigger] atoms[i]).end() <= (
                #[trigger] atoms[j]).offset
        }),
{
    reveal(box_list);
    let atoms = box_list(bytes).unwrap();
    if atoms.len() > 0 {
        assert(atoms[0].offset == start_of(atoms, 0));
        assert(atoms[atoms.len() - 1].in_source(bytes));
    }
    assert forall|i: int| 0 <= i < atoms.len() - 1 implies (#[trigger] atoms[i + 1]).offset
        == atoms[i].end() by {
        assert(atoms[i + 1].offset == start_of(atoms, i + 1));
    }
    assert forall|i: int, j: int| 0 <= i < j < atoms.len() implies (#[trigger] atoms[i]).end() <= (
    #[trigger] atoms[j]).offset by {
        lemma_starts_grow(bytes, atoms, bytes.len() as int, i + 1, j);
        assert(atoms[j].offset == start_of(atoms, j));
    }
}

/// Bytes in which a walk comes to an offset where no box can start have no
/// box list: a box that is too small or too large is not stepped over.
pub proof fn lemma_no_list_past_bad_box(bytes: Seq<u8>, atoms: Seq<Atom>, pos: int)
    requires
        tiles(bytes, atoms, pos),
        pos < bytes.len(),
        !box_at(bytes, pos),
    ensures
        box_list(bytes) is None,
{
    reveal(box_list);
    if exists|all: Seq<Atom>| tiles(bytes, all, bytes.len() as int) {
        let all = choose|all: Seq<Atom>| tiles(bytes, all, bytes.len() as int);
        lemma_tiles_agree(bytes, atoms, pos, all, bytes.len() as int);
        let k = atoms.len() as int;
        if all.len() == k {
            assert(all =~= atoms);
        }
        assert(all[k].in_source(bytes));
        assert(all[k].offset == start_of(all, k));
        if k > 0 {
            assert(all[k - 1] == atoms[k - 1]);
        }
    }
}

/// A walk either gets to the end of the bytes, which then have a box list,
/// or comes to an offset before the end where no box can start.
pub proof fn lemma_walk_ends(bytes: Seq<u8>, atoms: Seq<Atom>, pos: int)
    requires
        tiles(bytes, atoms, pos),
        0 <= pos <= bytes.len() <= u64::MAX,
    ensures
        box_list(bytes) is Some || exists|all: Seq<Atom>, stop: int|
            #[trigger] tiles(bytes, all, stop) && stop < bytes.len() && !box_at(bytes, stop),
    decreases bytes.len() - pos,
{
    if pos == bytes.len() {
        lemma_box_list_is(bytes, atoms);
    } else if box_at(bytes, pos) {
        let next = Atom {
            offset: pos as u64,
            size: be_u32(bytes, pos) as u32,
            magic: be_u32(bytes, pos + 4) as u32,
        };
        lemma_tiles_push(bytes, atoms, next);
        lemma_walk_ends(bytes, atoms.push(next), next.end());
    } else {
        assert(tiles(bytes, atoms, pos) && pos < bytes.len() && !box_at(bytes, pos));
    }
}

/// Bytes have no box list exactly when the walk from their start comes to a
/// box that is too small, runs past the end, or has no room for its size.
pub proof fn lemma_box_list_none(bytes: Seq<u8>)
    requires
        bytes.len() <= u64::MAX,
    ensures
        box_list(bytes) is None <==> exists|atoms: Seq<Atom>, stop: int|
            #[trigger] tiles(bytes, atoms, stop) && stop < bytes.len() && !box_at(bytes, stop),
{
    let nothing = Seq::<Atom>::empty();
    assert(tiles(bytes, nothing, 0));
    lemma_walk_ends(bytes, nothing, 0);
    if exists|atoms: Seq<Atom>, stop: int|
        #[trigger] tiles(bytes, atoms, stop) && stop < bytes.len() && !box_at(bytes, stop) {
        let (atoms, stop) = choose|atoms: Seq<Atom>, stop: int|
            #[trigger] tiles(bytes, atoms, stop) && stop < bytes.len() && !box_at(bytes, stop);
        lemma_no_list_past_bad_box(bytes, atoms, stop);
    }
}

/// A readable range of bytes with a known length.
///
/// A source is modelled by the bytes it holds, which no operation changes, and
/// by whether its medium can be relied on. A read that stays inside a reliable
/// source succeeds; any other source may answer any read with
/// `ErrorKind::Io`.
///
/// A type that says nothing of its model is not well-formed: the contracts
/// of this crate then say nothing of what is done with it.
pub trait AtomInput {
    /// What must hold of a source for its operations to be called; every
    /// operation keeps it.
    open spec fn wf(&self) -> bool {
        false
    }

    /// The bytes of the source.
    open spec fn bytes(&self) -> Seq<u8> {
        Seq::empty()
    }

    /// Whether reads inside the source always succeed.
    open spec fn reliable(&self) -> bool {
        false
    }

    /// The number of bytes in the source.
    fn len(&mut self) -> (n: u64)
        requires
            old(self).wf(),
        ensures
            n == old(self).bytes().len(),
            final(self).wf(),
            final(self).bytes() == old(self).bytes(),
            final(self).reliable() == old(self).reliable(),
    ;

    /// Fills `buf` with the bytes that start at `pos`.
    ///
    /// Fails with `ErrorKind::UnexpectedEof` exactly when the range runs past
    /// the end of the source, and leaves the source as it was either way.
    fn read(&mut self, pos: u64, buf: &mut [u8]) -> (r: Result<(), CombineError>)
        requires
            old(self).wf(),
        ensures
            final(self).wf(),
            final(self).bytes() == old(self).bytes(),
            final(self).reliable() == old(self).reliable(),
            old(self).bytes().len() <= u64::MAX,
            final(buf)@.len() == old(buf)@.len(),
            read_outcome(old(self).bytes(), old(self).reliable(), pos, old(buf)@.len(), r),
            r is Ok ==> final(buf)@ == old(self).bytes().subrange(
                pos as int,
                pos + old(buf)@.len(),
            ),
    ;

    /// Reads the big-endian 32-bit number at `pos`.
    fn read_u32(&mut self, pos: u64) -> (r: Result<u32, CombineError>)
        requires
            old(self).wf(),
        ensures
            final(self).wf(),
            final(self).bytes() == old(self).bytes(),
            final(self).reliable() == old(self).reliable(),
            old(self).bytes().len() <= u64::MAX,
            read_outcome(old(self).bytes(), old(self).reliable(), pos, 4, r),
            r matches Ok(v) ==> v == be_u32(old(self).bytes(), pos as int),
    {
        let mut buf: [u8; 4] = [0u8; 4];
        match self.read(pos, &mut buf) {
            Ok(()) => Ok(read_u32_at(&buf, 0)),
            Err(e) => Err(e),
        }
    }
}

/// Whether `after` is the source `before` with nothing about it changed.
pub open spec fn same_source<I: AtomInput>(before: &I, after: &I) -> bool {
    &&& after.wf()
    &&& after.bytes() == before.bytes()
    &&& after.reliable() == before.reliable()
}

/// Which results a read of `len` bytes at `pos` may have on a source that
/// holds `bytes`: past the end it fails with `UnexpectedEof`; inside the
/// source it succeeds, unless the medium is not reliable and fails with `Io`.
pub open spec fn read_outcome<T>(
    bytes: Seq<u8>,
    reliable: bool,
    pos: u64,
    len: nat,
    r: Result<T, CombineError>,
) -> bool {
    if pos + len > bytes.len() {
        r matches Err(e) && e.0 == ErrorKind::UnexpectedEof
    } else {
        r matches Err(e) ==> !reliable && e.0 == ErrorKind::Io
    }
}

/// A source that is a slice in memory.
pub struct BytesAtomInput<'a> {
    bytes: &'a [u8],
}

impl<'a> BytesAtomInput<'a> {
    /// A source that holds exactly `bytes`.
    pub fn new(bytes: &'a [u8]) -> (input: Self)
        ensures
            input.wf(),
            input.bytes() == bytes@,
            input.reliable(),
    {
        Self { bytes }
    }
}

impl<'a> AtomInput for BytesAtomInput<'a> {
    closed spec fn wf(&self) -> bool {
        true
    }

    closed spec fn bytes(&self) -> Seq<u8> {
        self.bytes@
    }

    closed spec fn reliable(&self) -> bool {
        true
    }

    fn len(&mut self) -> (n: u64) {
        self.bytes.len() as u64
    }

    fn read(&mut self, pos: u64, buf: &mut [u8]) -> (r: Result<(), CombineError>) {
        let total: usize = self.bytes.len();
        let count: usize = buf.len();
        if pos > total as u64 || count > total - pos as usize {
            return Err(Mp4CombineError(ErrorKind::UnexpectedEof));
        }
        let start: usize = pos as usize;
        let mut i: usize = 0;
        while i < count
            invariant
                i <= count,
                count == buf@.len(),
                start + count <= total,
                total == self.bytes@.len(),
                forall|k: int| 0 <= k < i ==> buf@[k] == self.bytes@[start + k],
            decreases count - i,
        {
            buf[i] = self.bytes[start + i];
            i = i + 1;
        }
        Ok(())
    }
}

/// A window of `size` bytes, starting at `offset`, onto another source.
///
/// Positions handed to the window count from its start, and the window ends
/// where its `size` says, wherever the parent ends.
pub struct SubAtomInput<'a, A: AtomInput> {
    parent: &'a mut A,
    offset: u64,
    size: u64,
}

impl<'a, A> SubAtomInput<'a, A> where A: AtomInput {
    /// The window `[offset, offset + size)` of `atom`, which must end before
    /// the last byte of `atom`.
    pub fn new(atom: &'a mut A, offset: u64, size: u64) -> (input: Self)
        requires
            old(atom).wf(),
            offset + size < old(atom).bytes().len(),
        ensures
            input.wf(),
            input.bytes() == old(atom).bytes().subrange(offset as int, offset + size),
            input.reliable() == old(atom).reliable(),
    {
        // The answer is not needed: that the parent has one shows that its
        // length, and so every offset inside the window, fits `u64`.
        let _parent_len: u64 = atom.len();
        Self { parent: atom, offset, size }
    }
}

impl<'a, A> AtomInput for SubAtomInput<'a, A> where A: AtomInput {
    closed spec fn wf(&self) -> bool {
        &&& self.parent.wf()
        &&& self.offset + self.size < self.parent.bytes().len() <= u64::MAX
    }

    closed spec fn bytes(&self) -> Seq<u8> {
        self.parent.bytes().subrange(self.offset as int, self.offset + self.size)
    }

    closed spec fn reliable(&self) -> bool {
        self.parent.reliable()
    }

    fn len(&mut self) -> (n: u64) {
        self.size
    }

    fn read(&mut self, pos: u64, buf: &mut [u8]) -> (r: Result<(), CombineError>) {
        let count: usize = buf.len();
        if pos > self.size || count as u64 > self.size - pos {
            return Err(Mp4CombineError(ErrorKind::UnexpectedEof));
        }
        let r = self.parent.read(pos + self.offset, buf);
        proof {
            let whole = old(self).parent.bytes();
            assert(whole.subrange(pos + self.offset, pos + self.offset + count)
                =~= whole.subrange(self.offset as int, self.offset + self.size).subrange(
                pos as int,
                pos + count,
            ));
        }
        r
    }
}

} // verus!
