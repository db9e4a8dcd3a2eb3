use vstd::prelude::*;

use super::io_stream::{FormatError, InputStream, OutputStream};

verus! {

/// An input stream over bytes held in memory.
#[derive(Debug, Clone)]
pub struct RamInputStream {
    data: Vec<u8>,
    pos: usize,
}

impl RamInputStream {
    /// A stream that reads `data` from its first byte on.
    pub fn new(data: Vec<u8>) -> (stream: RamInputStream)
        ensures
            stream.remaining() == data@,
    {
        let stream = RamInputStream { data, pos: 0 };
        proof {
            assert(stream.remaining() =~= data@);
        }
        stream
    }

    /// How many bytes are left to read.
    pub fn available(&self) -> (n: usize)
        ensures
            n == self.remaining().len(),
    {
        if self.pos <= self.data.len() {
            self.data.len() - self.pos
        } else {
            0
        }
    }
}

impl InputStream for RamInputStream {
    closed spec fn remaining(&self) -> Seq<u8> {
        if self.pos <= self.data@.len() {
            self.data@.skip(self.pos as int)
        } else {
            Seq::empty()
        }
    }

    fn read_exact(&mut self, buf: &mut Vec<u8>) -> (r: Result<(), FormatError>) {
        let n = buf.len();
        if n > self.available() {
            return Err(FormatError::UnexpectedEof);
        }
        if n == 0 {
            proof {
                assert(buf@ =~= self.remaining().take(0));
                assert(self.remaining() =~= self.remaining().skip(0));
            }
            return Ok(());
        }
        let start = self.pos;
        let mut i: usize = 0;
        while i < n
            invariant
                i <= n,
                n == buf@.len(),
                start + n <= self.data.len(),
                forall|j: int| 0 <= j < i ==> buf@[j] == self.data@[start + j],
            decreases n - i,
        {
            buf.set(i, self.data[start + i]);
            i = i + 1;
        }
        self.pos = start + n;
        proof {
            assert(buf@ =~= old(self).remaining().take(n as int));
            assert(self.remaining() =~= old(self).remaining().skip(n as int));
        }
        Ok(())
    }
}

/// An output stream that keeps what is written in memory.
#[derive(Debug, Clone)]
pub struct RamOutputStream {
    data: Vec<u8>,
    pos: u64,
}

impl RamOutputStream {
    /// An empty file, to be written from its start.
    pub fn new() -> (stream: RamOutputStream)
        ensures
            stream.bytes() == Seq::<u8>::empty(),
            stream.position() == 0,
    {
        RamOutputStream { data: Vec::new(), pos: 0 }
    }

    /// The bytes written so far.
    pub fn into_bytes(self) -> (data: Vec<u8>)
        ensures
            data@ == self.bytes(),
    {
        self.data
    }
}

impl OutputStream for RamOutputStream {
    closed spec fn bytes(&self) -> Seq<u8> {
        self.data@
    }

    closed spec fn position(&self) -> nat {
        self.pos as nat
    }

    fn write_byte(&mut self, value: u8) {
        if self.pos < self.data.len() as u64 {
            self.data.set(self.pos as usize, value);
        } else {
            while (self.data.len() as u64) < self.pos
                invariant
                    old(self).data@.len() <= self.data@.len() <= self.pos,
                    self.pos == old(self).pos,
                    self.data@ == old(self).data@ + Seq::new(
                        (self.data@.len() - old(self).data@.len()) as nat,
                        |i: int| 0u8,
                    ),
                decreases self.pos - self.data@.len(),
            {
                self.data.push(0);
                proof {
                    assert(self.data@ =~= old(self).data@ + Seq::new(
                        (self.data@.len() - old(self).data@.len()) as nat,
                        |i: int| 0u8,
                    ));
                }
            }
            self.data.push(value);
        }
        self.pos = self.pos + 1;
    }

    fn seek(&mut self, position: u64) {
        self.pos = position;
    }

    fn stream_position(&mut self) -> (position: u64) {
        self.pos
    }

    fn flush(&mut self) {
    }
}

} // verus!
