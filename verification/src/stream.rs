//! A symbol source over a one-pass stream of bytes.
//!
//! The stream hands out each byte once. The source keeps the bytes that it
//! has pulled most recently, so that a reader can step back over them, and
//! lets go of the oldest half of them whenever they grow past a bound.

use crate::options::EncodingKind;
use crate::source::{
    byte_at, composed, lemma_composed_one, read_step, ByteArrayHolder, DataSource, SourceView,
};
use crate::utils::{to_little_endian_16, to_little_endian_32};
use std::collections::VecDeque;
use vstd::prelude::*;

verus! {

/// The number of bytes that a stream source keeps at most between two reads.
pub const MAX_KEEP_BACK_SIZE: usize = 1024;

/// A supplier of bytes that can be read once, front to back, such as a file
/// or a pipe.
pub trait ByteStream {
    /// The next byte of the stream, or `None` where it has none to give.
    fn next_byte(&mut self) -> Option<u8>;
}

impl<'a> ByteStream for ByteArrayHolder<'a> {
    fn next_byte(&mut self) -> (r: Option<u8>)
        ensures
            old(self).position < old(self).inner@.len() ==> r == Some(
                old(self).inner@[old(self).position as int],
            ) && final(self).position == old(self).position + 1,
            old(self).position >= old(self).inner@.len() ==> r is None && final(self).position
                == old(self).position,
            final(self).inner == old(self).inner,
    {
        if self.position < self.inner.len() {
            let byte: u8 = self.inner[self.position];
            self.position += 1;
            Some(byte)
        } else {
            None
        }
    }
}

/// A source over a stream. It asks the stream for a byte only when a read
/// needs one that it does not hold, never again once the stream has had none
/// to give, and for no more than `usize::MAX` bytes in all. What it does with
/// each answer of the stream is what `accept` does with its argument.
pub struct ReaderWithSeek<S: ByteStream> {
    inner: S,
    back_buf: VecDeque<u8>,
    back_pos: usize,
    pulled: usize,
    ended: bool,
    history: Ghost<Seq<u8>>,
}

impl<S: ByteStream> ReaderWithSeek<S> {
    /// What holds of the fields while a read is under way and the bytes kept
    /// may exceed their bound by `slack`.
    closed spec fn holds(&self, slack: int) -> bool {
        &&& self.back_pos <= self.back_buf@.len() <= MAX_KEEP_BACK_SIZE + slack
        &&& self.back_buf@.len() > MAX_KEEP_BACK_SIZE ==> self.back_pos == 0
        &&& self.back_buf@.len() <= self.history@.len() == self.pulled
        &&& self.back_buf@ == self.history@.subrange(
            self.history@.len() - self.back_buf@.len(),
            self.history@.len() as int,
        )
    }

    /// A source that has pulled nothing from `inner` yet.
    pub fn new(inner: S) -> (r: Self)
        ensures
            r.inv(),
            r@.seen.len() == 0,
            r@.cursor == 0,
            r@.floor == 0,
            !r@.ended,
            r@.limit == usize::MAX,
            r@.keep == Some(MAX_KEEP_BACK_SIZE / 2 + 1),
    {
        let r = ReaderWithSeek {
            inner,
            back_buf: VecDeque::with_capacity(MAX_KEEP_BACK_SIZE),
            back_pos: 0,
            pulled: 0,
            ended: false,
            history: Ghost(Seq::empty()),
        };
        assert(r.back_buf@ =~= r.history@.subrange(0, 0));
        r
    }

    /// Takes in what the stream gave when it was asked for the byte at the
    /// cursor. A byte is put behind what has been seen and the cursor goes
    /// over it; `None` ends the input where it stands. Returns what it was
    /// given.
    fn take(&mut self, pulled: Option<u8>, Ghost(slack): Ghost<int>) -> (r: Option<u8>)
        requires
            old(self).holds(slack),
            old(self).back_pos == 0,
            !old(self).ended,
            old(self).pulled < usize::MAX,
        ensures
            final(self).holds(slack + 1),
            r == pulled,
            match pulled {
                Some(byte) => {
                    &&& final(self)@.seen == old(self)@.seen.push(byte)
                    &&& final(self)@.cursor == old(self)@.cursor + 1
                    &&& !final(self)@.ended
                    &&& final(self).back_buf@.len() == old(self).back_buf@.len() + 1
                },
                None => {
                    &&& final(self)@.seen == old(self)@.seen
                    &&& final(self)@.cursor == old(self)@.cursor
                    &&& final(self)@.ended
                    &&& final(self).back_buf@.len() == old(self).back_buf@.len()
                    &&& final(self).holds(slack)
                },
            },
            final(self)@.floor == old(self)@.floor,
            final(self).back_pos == 0,
    {
        match pulled {
            Some(byte) => {
                self.back_buf.push_back(byte);
                self.pulled += 1;
                self.history = Ghost(self.history@.push(byte));
                assert(self.back_buf@ =~= self.history@.subrange(
                    self.history@.len() - self.back_buf@.len(),
                    self.history@.len() as int,
                ));
            },
            None => {
                self.ended = true;
            },
        }
        pulled
    }

    /// Takes in what a stream gave, for a reader that stands at the end of
    /// what it has seen and has not met the end of its input: a byte is put
    /// behind what has been seen and the cursor goes over it, `None` ends the
    /// input where it stands. Returns what it was given. This is what a read
    /// does with each answer of the stream that it asks.
    pub fn accept(&mut self, pulled: Option<u8>) -> (r: Option<u8>)
        requires
            old(self).inv(),
            old(self)@.cursor == old(self)@.seen.len(),
            !old(self)@.ended,
            old(self)@.seen.len() < old(self)@.limit,
        ensures
            final(self).inv(),
            r == pulled,
            match pulled {
                Some(byte) => {
                    &&& final(self)@.seen == old(self)@.seen.push(byte)
                    &&& final(self)@.cursor == old(self)@.cursor + 1
                    &&& !final(self)@.ended
                },
                None => {
                    &&& final(self)@.seen == old(self)@.seen
                    &&& final(self)@.cursor == old(self)@.cursor
                    &&& final(self)@.ended
                },
            },
            final(self)@.limit == old(self)@.limit,
            final(self)@.keep == old(self)@.keep,
            final(self)@.floor == old(self)@.floor || (old(self)@.keep matches Some(k)
                && final(self)@.floor + k <= final(self)@.cursor),
    {
        let r = self.take(pulled, Ghost(0));
        self.compact(Ghost(1));
        r
    }

    /// The byte at the cursor: one that is kept, or else what the stream
    /// gives when it is asked for its next byte.
    fn next(&mut self, Ghost(slack): Ghost<int>) -> (r: Option<u8>)
        requires
            old(self).holds(slack),
        ensures
            final(self).holds(slack + 1),
            read_step(old(self)@, final(self)@, 1),
            r == byte_at(final(self)@.seen, old(self)@.cursor),
            final(self)@.floor == old(self)@.floor,
            final(self).back_buf@.len() <= old(self).back_buf@.len() + 1,
            final(self).back_buf@.len() != old(self).back_buf@.len() ==> final(self).back_pos
                == 0,
            final(self).back_buf@.len() == old(self).back_buf@.len() ==> final(self).holds(slack),
    {
        if self.back_pos > 0 {
            let byte: u8 = self.back_buf[self.back_buf.len() - self.back_pos];
            self.back_pos -= 1;
            Some(byte)
        } else if self.ended || self.pulled == usize::MAX {
            self.ended = true;
            None
        } else {
            let pulled = self.inner.next_byte();
            self.take(pulled, Ghost(slack))
        }
    }

    /// Lets go of the oldest half of the bytes kept, where a read has taken
    /// them past their bound.
    fn compact(&mut self, Ghost(slack): Ghost<int>)
        requires
            old(self).holds(slack),
            0 <= slack <= 4,
        ensures
            final(self).inv(),
            final(self)@.seen == old(self)@.seen,
            final(self)@.cursor == old(self)@.cursor,
            final(self)@.ended == old(self)@.ended,
            final(self)@.floor == old(self)@.floor || final(self)@.floor + (MAX_KEEP_BACK_SIZE
                / 2 + 1) <= final(self)@.cursor,
    {
        if self.back_buf.len() > MAX_KEEP_BACK_SIZE {
            let recent = self.back_buf.split_off(MAX_KEEP_BACK_SIZE / 2);
            self.back_buf = recent;
            assert(self.back_buf@ =~= self.history@.subrange(
                self.history@.len() - self.back_buf@.len(),
                self.history@.len() as int,
            ));
        }
    }
}

impl<S: ByteStream> DataSource for ReaderWithSeek<S> {
    closed spec fn view(&self) -> SourceView {
        SourceView {
            seen: self.history@,
            cursor: self.pulled - self.back_pos,
            floor: self.pulled - self.back_buf@.len(),
            ended: self.ended,
            limit: usize::MAX as int,
            keep: Some(MAX_KEEP_BACK_SIZE / 2 + 1),
        }
    }

    closed spec fn inv(&self) -> bool {
        self.holds(0)
    }

    proof fn lemma_inv(&self) {
    }

    fn read_unicode(&mut self) -> (r: Option<Vec<u8>>) {
        let mut window: Vec<u8> = Vec::new();
        let mut more: bool = true;
        while more && window.len() < 4
            invariant
                self.holds(window@.len() as int),
                old(self)@.wf(),
                window@.len() <= 4,
                read_step(old(self)@, self@, window@.len() as int),
                self@.cursor == old(self)@.cursor + window@.len(),
                window@ == self@.seen.subrange(old(self)@.cursor, self@.cursor),
                self@.floor == old(self)@.floor,
                !more ==> self@.ended && self@.cursor == self@.seen.len(),
            decreases (if more { 1int } else { 0int }) + 4 - window@.len(),
        {
            let ghost before = self@;
            match self.next(Ghost(window@.len() as int)) {
                Some(byte) => {
                    window.push(byte);
                    assert(window@ =~= self@.seen.subrange(old(self)@.cursor, self@.cursor));
                },
                None => {
                    more = false;
                    assert(window@ =~= self@.seen.subrange(old(self)@.cursor, self@.cursor));
                },
            }
        }
        self.compact(Ghost(window@.len() as int));
        if window.len() == 0 {
            None
        } else {
            Some(window)
        }
    }

    fn read_byte(&mut self) -> (r: Option<u8>) {
        match self.read_symbol(&EncodingKind::Bit8) {
            Some(x) => {
                proof {
                    lemma_composed_one(
                        self@.seen.subrange(old(self)@.cursor, old(self)@.cursor + 1),
                    );
                }
                Some(x.0 as u8)
            },
            None => None,
        }
    }

    fn read_symbol(&mut self, encoding: &EncodingKind) -> (r: Option<(u32, u8)>) {
        let width: u8 = encoding.num_bytes();
        let mut num_read: u8 = 0;
        let mut result: u32 = 0;
        let mut more: bool = true;
        while more && num_read < width
            invariant
                self.holds(num_read as int),
                old(self)@.wf(),
                num_read <= width <= 4,
                read_step(old(self)@, self@, num_read as int),
                self@.cursor == old(self)@.cursor + num_read,
                result == composed(self@.seen.subrange(old(self)@.cursor, self@.cursor)),
                self@.floor == old(self)@.floor,
                !more ==> self@.ended && self@.cursor == self@.seen.len(),
            decreases (if more { 1int } else { 0int }) + width - num_read,
        {
            let ghost before = self@;
            match self.next(Ghost(num_read as int)) {
                Some(current) => {
                    proof {
                        let longer = self@.seen.subrange(old(self)@.cursor, self@.cursor);
                        assert(longer.drop_last() =~= before.seen.subrange(
                            old(self)@.cursor,
                            before.cursor,
                        ));
                    }
                    result = (result << 8) | (current as u32);
                    num_read += 1;
                },
                None => {
                    more = false;
                    assert(self@.seen.subrange(old(self)@.cursor, self@.cursor)
                        =~= before.seen.subrange(old(self)@.cursor, before.cursor));
                },
            }
        }
        self.compact(Ghost(num_read as int));
        if num_read == 0 {
            return None;
        }
        match encoding {
            EncodingKind::LittleEndian16 => {
                result = to_little_endian_16(result);
            },
            EncodingKind::LittleEndian32 => {
                result = to_little_endian_32(result);
            },
            _ => {},
        }
        Some((result, num_read))
    }

    fn seek_back(&mut self, num_bytes: u8) {
        self.back_pos += num_bytes as usize;
    }
}

} // verus!
