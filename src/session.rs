//! The tape and the cursor that persist across compile-and-run cycles.
//!
//! Neither the generated code nor the session checks cursor moves while a
//! routine runs: a routine that walks off the tape reads and writes the
//! memory next to it. The session does refuse to carry a returned cursor
//! that lies off the tape into the next cycle.
use vstd::prelude::*;

verus! {

/// The number of cells on the tape.
pub const TAPE_LEN: usize = 65535;

/// The cursor offset that a new session starts at: the middle of the tape,
/// so that a program may move either way.
pub const START_OFFSET: usize = TAPE_LEN / 2;

/// How a routine's returned cursor can fail to fit the session.
#[derive(Debug, Clone, Copy, PartialEq, Eq, Structural)]
pub enum SessionError {
    /// The returned cursor address lies outside the tape.
    CursorOffTape { address: u64 },
    /// The tape's address plus the cursor offset does not fit 64 bits.
    AddressOverflow,
}

/// A tape of `TAPE_LEN` cells, zero at the start, and the offset of the
/// cursor into it, carried from one compiled routine to the next.
pub struct Session {
    pub tape: Vec<u8>,
    pub offset: usize,
}

impl Session {
    /// The cursor lies on the tape.
    pub open spec fn wf(&self) -> bool {
        self.offset < TAPE_LEN
    }

    /// A zeroed tape with the cursor in its middle.
    pub fn new() -> (r: Session)
        ensures
            r.wf(),
            r.tape@ == Seq::new(TAPE_LEN as nat, |i: int| 0u8),
            r.offset == START_OFFSET,
    {
        let tape: Vec<u8> = vec![0u8; TAPE_LEN];
        proof {
            assert(tape@ =~= Seq::new(TAPE_LEN as nat, |i: int| 0u8));
        }
        Session { tape, offset: START_OFFSET }
    }

    /// The cursor offset.
    pub fn offset(&self) -> (r: usize)
        ensures
            r == self.offset,
    {
        self.offset
    }

    /// The absolute address of the cursor, for a tape that starts at `base`:
    /// what the next routine is compiled with.
    pub fn cursor_pointer(&self, base: u64) -> (r: Result<u64, SessionError>)
        requires
            self.wf(),
        ensures
            base + self.offset <= u64::MAX ==> r == Ok::<u64, SessionError>(
                (base + self.offset) as u64,
            ),
            base + self.offset > u64::MAX ==> r == Err::<u64, SessionError>(
                SessionError::AddressOverflow,
            ),
    {
        let off: u64 = self.offset as u64;
        if base > u64::MAX - off {
            Err(SessionError::AddressOverflow)
        } else {
            Ok(base + off)
        }
    }

    /// Takes the cursor address that a routine returned, for a tape that
    /// starts at `base`, as the new cursor. An address off the tape is
    /// refused and the cursor stays where it was.
    pub fn resume(&mut self, base: u64, returned: u64) -> (r: Result<usize, SessionError>)
        requires
            old(self).wf(),
        ensures
            final(self).wf(),
            final(self).tape@ == old(self).tape@,
            base <= returned < base + TAPE_LEN ==> r == Ok::<usize, SessionError>(
                (returned - base) as usize,
            ) && final(self).offset == returned - base,
            !(base <= returned < base + TAPE_LEN) ==> r == Err::<usize, SessionError>(
                SessionError::CursorOffTape { address: returned },
            ) && final(self).offset == old(self).offset,
    {
        if returned < base || returned - base >= TAPE_LEN as u64 {
            return Err(SessionError::CursorOffTape { address: returned });
        }
        let off: usize = (returned - base) as usize;
        self.offset = off;
        Ok(off)
    }
}

} // verus!
