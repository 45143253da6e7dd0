//! Finding a box among the boxes of a list by its tag.

use vstd::prelude::*;
use crate::atom::{box_list, lemma_box_list_tiles, Atom};
use crate::{CombineError, ErrorKind, Mp4CombineError};

verus! {

/// Whether `i` is the index of the first box of `atoms` with the tag `magic`.
pub open spec fn is_first_with(atoms: Seq<Atom>, magic: u32, i: int) -> bool {
    &&& 0 <= i < atoms.len()
    &&& atoms[i].magic == magic
    &&& forall|j: int| 0 <= j < i ==> atoms[j].magic != magic
}

/// The first box of `atoms` with the tag `magic`, if one has it.
#[verifier::opaque]
pub open spec fn first_atom(atoms: Seq<Atom>, magic: u32) -> Option<Atom> {
    if exists|i: int| 0 <= i < atoms.len() && atoms[i].magic == magic {
        Some(atoms[choose|i: int| is_first_with(atoms, magic, i)])
    } else {
        None
    }
}

/// The first box of `atoms` with the tag `magic`, or the error that names the
/// tag when no box has it.
pub open spec fn required_atom(atoms: Seq<Atom>, magic: u32) -> Result<Atom, CombineError> {
    match first_atom(atoms, magic) {
        Some(atom) => Ok(atom),
        None => Err(Mp4CombineError(ErrorKind::MissingAtom { magic })),
    }
}

/// Among the boxes with a tag there is a first one, and `first_atom` is it.
pub proof fn lemma_first_atom(atoms: Seq<Atom>, magic: u32, i: int)
    requires
        0 <= i < atoms.len(),
        atoms[i].magic == magic,
    ensures
        exists|k: int| 0 <= k <= i && is_first_with(atoms, magic, k) && first_atom(atoms, magic)
            == Some(atoms[k]),
    decreases i,
{
    reveal(first_atom);
    if exists|j: int| 0 <= j < i && atoms[j].magic == magic {
        let j = choose|j: int| 0 <= j < i && atoms[j].magic == magic;
        lemma_first_atom(atoms, magic, j);
    } else {
        assert(is_first_with(atoms, magic, i));
        let k = choose|k: int| is_first_with(atoms, magic, k);
        assert(k == i);
    }
}

/// The box that `first_atom` gives is one of the boxes, and the first with
/// its tag.
pub proof fn lemma_first_atom_is_member(atoms: Seq<Atom>, magic: u32)
    requires
        first_atom(atoms, magic) is Some,
    ensures
        exists|k: int| is_first_with(atoms, magic, k) && first_atom(atoms, magic) == Some(atoms[k]),
{
    reveal(first_atom);
    let i = choose|i: int| 0 <= i < atoms.len() && atoms[i].magic == magic;
    lemma_first_atom(atoms, magic, i);
}

/// No box is found exactly when no box has the tag.
pub proof fn lemma_first_atom_none(atoms: Seq<Atom>, magic: u32)
    ensures
        first_atom(atoms, magic) is None <==> forall|i: int|
            0 <= i < atoms.len() ==> (#[trigger] atoms[i]).magic != magic,
{
    reveal(first_atom);
}

/// A box found in the box list of `bytes` is a box of `bytes`.
pub proof fn lemma_found_in_source(bytes: Seq<u8>, magic: u32)
    requires
        box_list(bytes) is Some,
        first_atom(box_list(bytes).unwrap(), magic) is Some,
    ensures
        first_atom(box_list(bytes).unwrap(), magic).unwrap().in_source(bytes),
        first_atom(box_list(bytes).unwrap(), magic).unwrap().magic == magic,
{
    let atoms = box_list(bytes).unwrap();
    lemma_box_list_tiles(bytes);
    lemma_first_atom_is_member(atoms, magic);
    let k = choose|k: int|
        is_first_with(atoms, magic, k) && first_atom(atoms, magic) == Some(atoms[k]);
    assert(atoms[k].in_source(bytes));
}

} // verus!
