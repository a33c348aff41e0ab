use vstd::prelude::*;

verus! {

/// Number of cells on a tape.
pub const TAPE_LEN: usize = 30000;

/// Why a run stopped before the end of the program.
#[derive(Clone, Copy, Debug, PartialEq, Eq, Structural)]
pub enum RunError {
    /// The pointer was moved right from the last cell.
    PointerPastEnd,
    /// The pointer was moved left from the first cell.
    PointerBelowStart,
    /// A byte was to be read and none was left.
    InputExhausted,
    /// A loop went on for more iterations than the run allowed.
    OutOfFuel,
}

/// A fixed row of byte cells with one pointer into it.
pub struct Tape {
    pub pointer: usize,
    pub tape: [u8; TAPE_LEN],
}

/// A cell's value after one increment, modulo 256.
pub open spec fn wrap_inc(v: u8) -> u8 {
    ((v + 1) % 256) as u8
}

/// A cell's value after one decrement, modulo 256.
pub open spec fn wrap_dec(v: u8) -> u8 {
    ((v + 255) % 256) as u8
}

impl Tape {
    /// The pointer stands on a cell.
    pub open spec fn wf(&self) -> bool {
        self.pointer < TAPE_LEN
    }

    pub open spec fn cells(&self) -> Seq<u8> {
        self.tape@
    }

    /// The value under the pointer.
    pub open spec fn current(&self) -> u8 {
        self.tape@[self.pointer as int]
    }

    /// A tape of zero cells with the pointer on the first.
    pub fn new() -> (t: Tape)
        ensures
            t.wf(),
            t.pointer == 0,
            t.cells() == Seq::new(TAPE_LEN as nat, |i: int| 0u8),
    {
        let t = Tape { pointer: 0, tape: [0u8; TAPE_LEN] };
        assert(t.cells() =~= Seq::new(TAPE_LEN as nat, |i: int| 0u8));
        t
    }

    pub fn get_data(&mut self) -> (r: u8)
        requires
            old(self).wf(),
        ensures
            r == old(self).current(),
            *final(self) == *old(self),
    {
        self.tape[self.pointer]
    }

    /// Moves the pointer one cell right; past the last cell is an error and
    /// leaves the tape as it was.
    pub fn increment_pointer(&mut self) -> (r: Result<(), RunError>)
        requires
            old(self).wf(),
        ensures
            final(self).wf(),
            final(self).tape == old(self).tape,
            old(self).pointer + 1 < TAPE_LEN ==> r == Ok::<(), RunError>(()) && final(self).pointer == old(self).pointer + 1,
            old(self).pointer + 1 >= TAPE_LEN ==> r == Err::<(), RunError>(RunError::PointerPastEnd)
                && final(self).pointer == old(self).pointer,
    {
        if self.pointer + 1 < TAPE_LEN {
            self.pointer += 1;
            Ok(())
        } else {
            Err(RunError::PointerPastEnd)
        }
    }

    /// Moves the pointer one cell left; below the first cell is an error and
    /// leaves the tape as it was.
    pub fn decrement_pointer(&mut self) -> (r: Result<(), RunError>)
        requires
            old(self).wf(),
        ensures
            final(self).wf(),
            final(self).tape == old(self).tape,
            old(self).pointer > 0 ==> r == Ok::<(), RunError>(()) && final(self).pointer == old(self).pointer - 1,
            old(self).pointer == 0 ==> r == Err::<(), RunError>(RunError::PointerBelowStart)
                && final(self).pointer == 0,
    {
        if self.pointer > 0 {
            self.pointer -= 1;
            Ok(())
        } else {
            Err(RunError::PointerBelowStart)
        }
    }

    /// Adds one to the cell under the pointer, wrapping 255 to 0.
    pub fn increment_cell(&mut self)
        requires
            old(self).wf(),
        ensures
            final(self).pointer == old(self).pointer,
            final(self).cells() == old(self).cells().update(
                old(self).pointer as int,
                wrap_inc(old(self).current()),
            ),
    {
        let p = self.pointer;
        self.tape[p] = self.tape[p].wrapping_add(1);
    }

    /// Subtracts one from the cell under the pointer, wrapping 0 to 255.
    pub fn decrement_cell(&mut self)
        requires
            old(self).wf(),
        ensures
            final(self).pointer == old(self).pointer,
            final(self).cells() == old(self).cells().update(
                old(self).pointer as int,
                wrap_dec(old(self).current()),
            ),
    {
        let p = self.pointer;
        self.tape[p] = self.tape[p].wrapping_sub(1);
    }

    /// Stores a byte that was read into the cell under the pointer.
    pub fn input_to_cell(&mut self, byte: u8)
        requires
            old(self).wf(),
        ensures
            final(self).pointer == old(self).pointer,
            final(self).cells() == old(self).cells().update(old(self).pointer as int, byte),
    {
        let p = self.pointer;
        self.tape[p] = byte;
    }
}

} // verus!
