//! Line assembly for the console front end: bytes arrive one at a time,
//! carriage returns and newlines end a line, and empty lines are skipped,
//! so every line handed out is nonempty.

use vstd::prelude::*;

verus! {

/// Accumulates bytes until a line terminator arrives.
#[derive(Clone, Debug)]
pub struct LineBuffer {
    pub buf: Vec<u8>,
}

impl LineBuffer {
    /// An empty line buffer.
    pub fn new() -> (r: LineBuffer)
        ensures
            r.buf@ == Seq::<u8>::empty(),
    {
        LineBuffer { buf: Vec::new() }
    }

    /// Feeds one byte. A carriage return or newline ends the current line:
    /// the accumulated bytes are handed out and the buffer restarts, except
    /// that an empty line is skipped. Any other byte is accumulated.
    pub fn feed(&mut self, byte: u8) -> (r: Option<Vec<u8>>)
        ensures
            (byte == 13 || byte == 10) && old(self).buf@.len() == 0 ==> r is None
                && final(self).buf@ == old(self).buf@,
            (byte == 13 || byte == 10) && old(self).buf@.len() > 0 ==> (r matches Some(line)
                && line@ == old(self).buf@) && final(self).buf@ == Seq::<u8>::empty(),
            !(byte == 13 || byte == 10) ==> r is None && final(self).buf@ == old(self).buf@.push(
                byte,
            ),
    {
        if byte == 13 || byte == 10 {
            if self.buf.len() == 0 {
                return None;
            }
            let mut line: Vec<u8> = Vec::new();
            let mut i: usize = 0;
            while i < self.buf.len()
                invariant
                    i <= self.buf.len(),
                    self == old(self),
                    line@ == self.buf@.subrange(0, i as int),
                decreases self.buf.len() - i,
            {
                line.push(self.buf[i]);
                proof {
                    assert(self.buf@.subrange(0, i as int + 1) =~= self.buf@.subrange(
                        0,
                        i as int,
                    ).push(self.buf@[i as int]));
                }
                i = i + 1;
            }
            proof {
                assert(self.buf@.subrange(0, self.buf@.len() as int) =~= self.buf@);
            }
            self.buf = Vec::new();
            Some(line)
        } else {
            self.buf.push(byte);
            None
        }
    }
}

} // verus!
