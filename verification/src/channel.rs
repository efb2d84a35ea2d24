//! The two streams of bytes of a run, held in memory: input that has arrived
//! and is read from the front, and output that is collected until it is
//! handed out.

use crate::semantics::repeated;
use vstd::prelude::*;

verus! {

/// The input and the output of a run.
pub struct Channel {
    input: Vec<u8>,
    consumed: usize,
    closed: bool,
    output: Vec<u8>,
}

/// What a channel holds, as plain values.
pub struct Streams {
    /// The bytes that have arrived and have not been read.
    pub unread: Seq<u8>,
    /// Whether no more bytes will arrive.
    pub closed: bool,
    /// The bytes written and not yet handed out.
    pub written: Seq<u8>,
}

impl View for Channel {
    type V = Streams;

    closed spec fn view(&self) -> Streams {
        Streams {
            unread: self.input@.skip(self.consumed as int),
            closed: self.closed,
            written: self.output@,
        }
    }
}

/// The lesser of two numbers.
pub open spec fn lesser(a: int, b: int) -> int {
    if a <= b {
        a
    } else {
        b
    }
}

impl Channel {
    /// The channel has read no more than has arrived.
    pub closed spec fn wf(&self) -> bool {
        self.consumed <= self.input.len()
    }

    /// A channel with no input yet and more to come.
    pub fn new() -> (channel: Self)
        ensures
            channel.wf(),
            channel@ == (Streams { unread: Seq::empty(), closed: false, written: Seq::empty() }),
    {
        let channel = Self { input: Vec::new(), consumed: 0, closed: false, output: Vec::new() };
        assert(channel.input@.skip(0) == Seq::<u8>::empty());
        channel
    }

    /// A channel with the given input and no more to come.
    pub fn with_input(input: Vec<u8>) -> (channel: Self)
        ensures
            channel.wf(),
            channel@ == (Streams { unread: input@, closed: true, written: Seq::empty() }),
    {
        let channel = Self { input, consumed: 0, closed: true, output: Vec::new() };
        assert(channel.input@.skip(0) == channel.input@);
        channel
    }

    /// Adds bytes to the input, unless the input has been closed.
    pub fn feed(&mut self, bytes: &Vec<u8>)
        requires
            old(self).wf(),
        ensures
            final(self).wf(),
            final(self)@ == if old(self)@.closed {
                old(self)@
            } else {
                Streams { unread: old(self)@.unread + bytes@, ..old(self)@ }
            },
    {
        if !self.closed {
            let ghost before = self.input@;
            let mut i: usize = 0;
            while i < bytes.len()
                invariant
                    i <= bytes.len(),
                    self.input@ == before + bytes@.take(i as int),
                    self.consumed == old(self).consumed,
                    self.closed == old(self).closed,
                    self.output == old(self).output,
                decreases bytes.len() - i,
            {
                self.input.push(bytes[i]);
                assert(bytes@.take(i + 1) == bytes@.take(i as int).push(bytes@[i as int]));
                i += 1;
            }
            assert(bytes@.take(i as int) == bytes@);
            assert(self.input@.skip(self.consumed as int) == before.skip(self.consumed as int)
                + bytes@);
        }
    }

    /// Closes the input: no more bytes will arrive.
    pub fn close(&mut self)
        requires
            old(self).wf(),
        ensures
            final(self).wf(),
            final(self)@ == (Streams { closed: true, ..old(self)@ }),
    {
        self.closed = true;
    }

    /// Whether the input has been closed.
    pub fn is_closed(&self) -> (closed: bool)
        ensures
            closed == self@.closed,
    {
        self.closed
    }

    /// How many bytes have arrived and have not been read.
    pub fn available(&self) -> (count: usize)
        requires
            self.wf(),
        ensures
            count == self@.unread.len(),
    {
        self.input.len() - self.consumed
    }

    /// Reads up to `count` bytes and returns the last of them, if any was
    /// read.
    pub fn read(&mut self, count: usize) -> (last: Option<u8>)
        requires
            old(self).wf(),
        ensures
            final(self).wf(),
            final(self)@ == (Streams {
                unread: old(self)@.unread.skip(
                    lesser(count as int, old(self)@.unread.len() as int),
                ),
                ..old(self)@
            }),
            last == if count == 0 || old(self)@.unread.len() == 0 {
                None
            } else {
                Some(old(self)@.unread[lesser(count as int, old(self)@.unread.len() as int) - 1])
            },
    {
        let available = self.input.len() - self.consumed;
        let taken = if count <= available {
            count
        } else {
            available
        };
        let ghost unread = self.input@.skip(self.consumed as int);
        self.consumed = self.consumed + taken;
        assert(self.input@.skip(self.consumed as int) == unread.skip(taken as int));
        if taken == 0 {
            None
        } else {
            Some(self.input[self.consumed - 1])
        }
    }

    /// Writes `byte` to the output `count` times.
    pub fn write(&mut self, byte: u8, count: usize)
        requires
            old(self).wf(),
        ensures
            final(self).wf(),
            final(self)@ == (Streams {
                written: old(self)@.written + repeated(byte, count as nat),
                ..old(self)@
            }),
    {
        let ghost before = self.output@;
        let mut written: usize = 0;
        while written < count
            invariant
                written <= count,
                self.output@ == before + repeated(byte, written as nat),
                self.input == old(self).input,
                self.consumed == old(self).consumed,
                self.closed == old(self).closed,
            decreases count - written,
        {
            self.output.push(byte);
            assert(repeated(byte, (written + 1) as nat) == repeated(byte, written as nat).push(
                byte,
            ));
            written += 1;
        }
    }

    /// Hands out the bytes written since the last call, and forgets them.
    pub fn take_output(&mut self) -> (bytes: Vec<u8>)
        requires
            old(self).wf(),
        ensures
            final(self).wf(),
            bytes@ == old(self)@.written,
            final(self)@ == (Streams { written: Seq::empty(), ..old(self)@ }),
    {
        let mut bytes: Vec<u8> = Vec::new();
        std::mem::swap(&mut bytes, &mut self.output);
        bytes
    }

    /// The bytes written and not yet handed out.
    pub fn output(&self) -> (bytes: &Vec<u8>)
        ensures
            bytes@ == self@.written,
    {
        &self.output
    }
}

} // verus!
