//! A writer that rolls over to a new split file before a file would grow
//! past `u32::MAX` bytes.  The files themselves are written by the caller;
//! `DWriter` keeps the counts and decides when to roll over.

use vstd::prelude::*;

verus! {

/// The most bytes a split file holds.
pub const MAX_SIZE: u32 = 4294967295;

/// What to do with the next write.
pub enum WriteAction {
    /// Write to the current split file.
    Write,
    /// Flush the current split file, go on in split file number `n`, and
    /// write there.
    Roll(u32),
}

/// The counts of a rolling writer: which split file is current, and how
/// many bytes went into it.
pub struct DWriter {
    counter: u32,
    written: u32,
}

impl DWriter {
    /// The number of the current split file.
    pub closed spec fn spec_counter(&self) -> u32 {
        self.counter
    }

    /// The bytes written to the current split file.
    pub closed spec fn spec_written(&self) -> u32 {
        self.written
    }

    /// A writer at the start of split file 0.
    pub fn new() -> (r: Self)
        ensures
            r.spec_counter() == 0,
            r.spec_written() == 0,
    {
        DWriter { counter: 0, written: 0 }
    }

    /// Accounts for a write of `len` bytes: rolls over to the next split file
    /// first when the current one would grow past [`MAX_SIZE`].
    pub fn write(&mut self, len: usize) -> (r: WriteAction)
        requires
            len <= MAX_SIZE,
            old(self).spec_written() + len > MAX_SIZE ==> old(self).spec_counter() < u32::MAX,
        ensures
            old(self).spec_written() + len > MAX_SIZE ==> {
                &&& r == WriteAction::Roll((old(self).spec_counter() + 1) as u32)
                &&& final(self).spec_counter() == old(self).spec_counter() + 1
                &&& final(self).spec_written() == len
            },
            old(self).spec_written() + len <= MAX_SIZE ==> {
                &&& r == WriteAction::Write
                &&& final(self).spec_counter() == old(self).spec_counter()
                &&& final(self).spec_written() == old(self).spec_written() + len
            },
    {
        let mut action = WriteAction::Write;
        if len as u64 + self.written as u64 > MAX_SIZE as u64 {
            self.counter = self.counter + 1;
            self.written = 0;
            action = WriteAction::Roll(self.counter);
        }
        self.written = self.written + len as u32;
        action
    }
}

} // verus!
