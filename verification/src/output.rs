//! Sinks that the combined file is written to.

use vstd::prelude::*;
use crate::{CombineError, ErrorKind};

verus! {

/// A sink that grows at its end.
///
/// A sink is modelled by the bytes written to it so far, and by whether its
/// medium can be relied on. Every operation of a reliable sink succeeds; any
/// other sink may answer with `ErrorKind::Io`, and a write that fails may
/// have appended the first part of what it was given.
///
/// A type that says nothing of its model is not well-formed: the contracts
/// of this crate then say nothing of what is done with it.
pub trait AtomOutput {
    /// What must hold of a sink for its operations to be called; every
    /// operation keeps it.
    open spec fn wf(&self) -> bool {
        false
    }

    /// The bytes that the sink holds.
    open spec fn bytes(&self) -> Seq<u8> {
        Seq::empty()
    }

    /// Whether the operations of the sink always succeed.
    open spec fn reliable(&self) -> bool {
        false
    }

    /// Moves to the end of the sink and gives its offset, where the next
    /// write lands.
    fn end_position(&mut self) -> (r: Result<u64, CombineError>)
        requires
            old(self).wf(),
        ensures
            final(self).wf(),
            final(self).bytes() == old(self).bytes(),
            final(self).reliable() == old(self).reliable(),
            match r {
                Ok(n) => n == old(self).bytes().len(),
                Err(e) => e.0 == ErrorKind::Io && !old(self).reliable(),
            },
    ;

    /// Appends `buf` to the sink.
    fn write_all(&mut self, buf: &[u8]) -> (r: Result<(), CombineError>)
        requires
            old(self).wf(),
        ensures
            final(self).wf(),
            final(self).reliable() == old(self).reliable(),
            match r {
                Ok(()) => final(self).bytes() == old(self).bytes() + buf@,
                Err(e) => {
                    &&& e.0 == ErrorKind::Io
                    &&& !old(self).reliable()
                    &&& exists|n: int|
                        0 <= n <= buf@.len() && final(self).bytes() == old(self).bytes()
                            + #[trigger] buf@.take(n)
                },
            },
    ;
}

/// A vector is a reliable sink that holds what was pushed to it.
impl AtomOutput for Vec<u8> {
    open spec fn wf(&self) -> bool {
        true
    }

    open spec fn bytes(&self) -> Seq<u8> {
        self@
    }

    open spec fn reliable(&self) -> bool {
        true
    }

    fn end_position(&mut self) -> (r: Result<u64, CombineError>) {
        Ok(self.len() as u64)
    }

    fn write_all(&mut self, buf: &[u8]) -> (r: Result<(), CombineError>) {
        self.extend_from_slice(buf);
        assert(self@ =~= old(self)@ + buf@);
        Ok(())
    }
}

} // verus!
