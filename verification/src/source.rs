//! Symbol sources: readers of encoded symbols that can step back.
//!
//! A source hands out the bytes of its input in order, one symbol or one
//! window at a time, and lets the reader take back bytes that it has just
//! read. Its state is described by a [`SourceView`]; what a read returns is
//! stated over the input as the source knows it after the read.

use crate::options::EncodingKind;
use crate::utils::{swapped_16, swapped_32, to_little_endian_16, to_little_endian_32};
use vstd::prelude::*;

verus! {

/// The state of a source, as contracts speak of it.
pub struct SourceView {
    /// The input from its first byte on, as far as the source has met it.
    pub seen: Seq<u8>,
    /// The index in `seen` of the byte that the next read starts with.
    pub cursor: int,
    /// The lowest index that the cursor can be moved back to.
    pub floor: int,
    /// Whether the input is known to end where `seen` ends.
    pub ended: bool,
    /// A length that the input never exceeds.
    pub limit: int,
    /// `None` where the source never forgets a byte; else the number of
    /// bytes before the cursor that stay within reach whenever a read lets go
    /// of older ones.
    pub keep: Option<int>,
}

impl SourceView {
    /// The relations that hold of every source between two operations.
    pub open spec fn wf(self) -> bool {
        &&& 0 <= self.floor <= self.cursor <= self.seen.len() <= self.limit
        &&& self.keep matches Some(k) ==> k >= 4
    }

    /// Whether `input` may be what the whole input turns out to be: it starts
    /// with the bytes seen so far, respects the limit, and holds nothing more
    /// once the end has been reached.
    pub open spec fn admits(self, input: Seq<u8>) -> bool {
        &&& self.seen.is_prefix_of(input)
        &&& input.len() <= self.limit
        &&& self.ended ==> input == self.seen
    }

    /// This state with the cursor moved back by `count` bytes.
    pub open spec fn moved_back(self, count: int) -> SourceView {
        SourceView { cursor: self.cursor - count, ..self }
    }

    /// Whether `later` can be the state after some reads and steps back that
    /// began in this state: the input seen has only grown, an end once
    /// reached stays, and limit and reach are those of the same source.
    pub open spec fn leads_to(self, later: SourceView) -> bool {
        &&& later.wf()
        &&& self.seen.is_prefix_of(later.seen)
        &&& self.ended ==> later.ended && later.seen == self.seen
        &&& later.limit == self.limit
        &&& later.keep == self.keep
    }
}

/// What a read of up to `width` bytes does to a source: it moves the cursor
/// over the bytes that are there, meeting new input only as far as it needs,
/// and stops short only at the end of the input. Where it lets go of old
/// bytes, `keep` bytes before the cursor stay within reach.
pub open spec fn read_step(pre: SourceView, post: SourceView, width: int) -> bool {
    &&& pre.leads_to(post)
    &&& post.seen.len() <= vstd::math::max(pre.seen.len() as int, pre.cursor + width)
    &&& post.cursor == vstd::math::min(pre.cursor + width, post.seen.len() as int)
    &&& post.cursor < pre.cursor + width ==> post.ended
    &&& (post.floor == pre.floor || (pre.keep matches Some(k) && post.floor + k <= post.cursor))
}

/// The big-endian number that `bytes` spell, within 32 bits.
pub open spec fn composed(bytes: Seq<u8>) -> u32
    decreases bytes.len(),
{
    if bytes.len() == 0 {
        0
    } else {
        (composed(bytes.drop_last()) << 8) | (bytes.last() as u32)
    }
}

/// The value of the symbol that `bytes` spell under `encoding`: their
/// big-endian number, with its bytes exchanged where the encoding is
/// little-endian.
pub open spec fn symbol_value(bytes: Seq<u8>, encoding: EncodingKind) -> u32 {
    match encoding {
        EncodingKind::LittleEndian16 => swapped_16(composed(bytes)),
        EncodingKind::LittleEndian32 => swapped_32(composed(bytes)),
        _ => composed(bytes),
    }
}

/// The number of bytes that a read of up to `width` bytes finds at `position`
/// in `input`.
pub open spec fn available(input: Seq<u8>, position: int, width: int) -> int {
    vstd::math::min(width, input.len() - position)
}

/// The symbol at `position` in `input`, with the number of bytes it takes:
/// the full width of the encoding, or what is left of the input where that is
/// less. `None` where nothing is left.
pub open spec fn symbol_at(input: Seq<u8>, position: int, encoding: EncodingKind) -> Option<
    (u32, u8),
> {
    let count = available(input, position, encoding.width());
    if 0 <= position && count > 0 {
        Some((symbol_value(input.subrange(position, position + count), encoding), count as u8))
    } else {
        None
    }
}

/// The byte at `position` in `input`, or `None` past its end.
pub open spec fn byte_at(input: Seq<u8>, position: int) -> Option<u8> {
    if 0 <= position < input.len() {
        Some(input[position])
    } else {
        None
    }
}

/// The window of up to four bytes that starts at `position` in `input`.
pub open spec fn window_at(input: Seq<u8>, position: int) -> Seq<u8> {
    input.subrange(position, position + available(input, position, 4))
}

/// A reader of encoded symbols that can step back over what it has read.
pub trait DataSource: Sized {
    /// The state of the source.
    spec fn view(&self) -> SourceView;

    /// The invariant of the implementation, which every operation asks for
    /// and keeps.
    spec fn inv(&self) -> bool;

    /// A source that meets its invariant has a well-formed state.
    proof fn lemma_inv(&self)
        requires
            self.inv(),
        ensures
            self@.wf(),
    ;

    /// Reads the window of up to four bytes at the cursor, and `None` where
    /// the input has ended there.
    fn read_unicode(&mut self) -> (r: Option<Vec<u8>>)
        requires
            old(self).inv(),
        ensures
            final(self).inv(),
            read_step(old(self)@, final(self)@, 4),
            match r {
                Some(window) => window@.len() > 0 && window@ == window_at(
                    final(self)@.seen,
                    old(self)@.cursor,
                ),
                None => final(self)@.cursor == old(self)@.cursor,
            },
    ;

    /// Reads the byte at the cursor, and `None` where the input has ended
    /// there.
    fn read_byte(&mut self) -> (r: Option<u8>)
        requires
            old(self).inv(),
        ensures
            final(self).inv(),
            read_step(old(self)@, final(self)@, 1),
            r == byte_at(final(self)@.seen, old(self)@.cursor),
    ;

    /// Reads the symbol at the cursor and says how many bytes it took: the
    /// width of the encoding, or fewer where the input ends within the
    /// symbol. `None` where the input has ended at the cursor.
    fn read_symbol(&mut self, encoding: &EncodingKind) -> (r: Option<(u32, u8)>)
        requires
            old(self).inv(),
        ensures
            final(self).inv(),
            read_step(old(self)@, final(self)@, encoding.width()),
            r == symbol_at(final(self)@.seen, old(self)@.cursor, *encoding),
    ;

    /// Moves the cursor back over `num_bytes` bytes that have been read.
    fn seek_back(&mut self, num_bytes: u8)
        requires
            old(self).inv(),
            old(self)@.cursor - num_bytes >= old(self)@.floor,
        ensures
            final(self).inv(),
            final(self)@ == old(self)@.moved_back(num_bytes as int),
    ;
}

/// A source over a slice of bytes that lies in memory: the whole input is
/// known from the start, and the cursor can go back to its first byte.
pub struct ByteArrayHolder<'a> {
    /// The input.
    pub inner: &'a [u8],
    /// The index in `inner` of the byte that the next read starts with.
    pub position: usize,
}

impl<'a> ByteArrayHolder<'a> {
    /// A source that stands at the first byte of `inner`.
    pub fn new(inner: &'a [u8]) -> (r: Self)
        ensures
            r.inv(),
            r.inner == inner,
            r.position == 0,
            r@.limit <= usize::MAX,
    {
        assert(inner@.len() == inner.len());
        ByteArrayHolder { inner, position: 0 }
    }
}

impl<'a> DataSource for ByteArrayHolder<'a> {
    open spec fn view(&self) -> SourceView {
        SourceView {
            seen: self.inner@,
            cursor: self.position as int,
            floor: 0,
            ended: true,
            limit: self.inner@.len() as int,
            keep: None,
        }
    }

    open spec fn inv(&self) -> bool {
        self.position <= self.inner@.len()
    }

    proof fn lemma_inv(&self) {
    }

    fn read_unicode(&mut self) -> (r: Option<Vec<u8>>) {
        if self.position >= self.inner.len() {
            return None;
        }
        let left: usize = self.inner.len() - self.position;
        let count: usize = if left < 4 {
            left
        } else {
            4
        };
        let until: usize = self.position + count;
        let read = vstd::slice::slice_subrange(self.inner, self.position, until);
        let window = vstd::slice::slice_to_vec(read);
        self.position = until;
        Some(window)
    }

    fn read_byte(&mut self) -> (r: Option<u8>) {
        match self.read_symbol(&EncodingKind::Bit8) {
            Some(x) => {
                proof {
                    lemma_composed_one(
                        self.inner@.subrange(
                            old(self).position as int,
                            old(self).position + 1,
                        ),
                    );
                }
                Some(x.0 as u8)
            },
            None => None,
        }
    }

    fn read_symbol(&mut self, encoding: &EncodingKind) -> (r: Option<(u32, u8)>) {
        let width: u8 = encoding.num_bytes();
        let left: usize = self.inner.len() - self.position;
        let mut num_read: u8 = 0;
        let mut result: u32 = 0;
        while num_read < width && (num_read as usize) < left
            invariant
                self.position <= self.inner@.len() <= usize::MAX,
                left == self.inner@.len() - self.position,
                num_read <= width <= 4,
                num_read <= left,
                result == composed(
                    self.inner@.subrange(self.position as int, self.position + num_read),
                ),
            decreases width - num_read,
        {
            let current: u8 = self.inner[self.position + num_read as usize];
            proof {
                let longer = self.inner@.subrange(
                    self.position as int,
                    self.position + num_read + 1,
                );
                assert(longer.drop_last() =~= self.inner@.subrange(
                    self.position as int,
                    self.position + num_read,
                ));
            }
            result = (result << 8) | (current as u32);
            num_read += 1;
        }
        if num_read == 0 {
            return None;
        }
        match encoding {
            EncodingKind::LittleEndian16 => {
                result = to_little_endian_16(result);
            },
            EncodingKind::LittleEndian32 => {
                result = to_little_endian_32(result);
            },
            _ => {},
        }
        self.position += num_read as usize;
        Some((result, num_read))
    }

    fn seek_back(&mut self, num_bytes: u8) {
        self.position -= num_bytes as usize;
    }
}

/// What a later state of a source admits as its input, an earlier state
/// admitted already.
pub proof fn lemma_admits_earlier(earlier: SourceView, later: SourceView, input: Seq<u8>)
    requires
        earlier.leads_to(later),
        later.admits(input),
    ensures
        earlier.admits(input),
{
    assert(earlier.seen =~= input.subrange(0, earlier.seen.len() as int));
}

/// A state that follows on one that follows on a first follows on the first.
pub proof fn lemma_leads_on(first: SourceView, second: SourceView, third: SourceView)
    requires
        first.leads_to(second),
        second.leads_to(third),
    ensures
        first.leads_to(third),
{
    assert(first.seen =~= third.seen.subrange(0, first.seen.len() as int));
}

/// A well-formed state admits the input that it has seen.
pub proof fn lemma_admits_seen(view: SourceView)
    requires
        view.wf(),
    ensures
        view.admits(view.seen),
        view.ended ==> forall|input: Seq<u8>| #[trigger] view.admits(input) ==> input == view.seen,
{
    assert(view.seen =~= view.seen.subrange(0, view.seen.len() as int));
}

/// A read settles what stands at the place where it began: whatever the
/// input turns out to hold beyond what has been seen, the bytes that the read
/// went over are those that stand there.
pub proof fn lemma_read_settles(pre: SourceView, post: SourceView, width: int, input: Seq<u8>)
    requires
        pre.wf(),
        0 <= width,
        read_step(pre, post, width),
        post.admits(input),
    ensures
        pre.admits(input),
        available(input, pre.cursor, width) == post.cursor - pre.cursor,
        available(post.seen, pre.cursor, width) == post.cursor - pre.cursor,
        input.subrange(pre.cursor, post.cursor) == post.seen.subrange(pre.cursor, post.cursor),
{
    assert(input.subrange(pre.cursor, post.cursor) =~= post.seen.subrange(
        pre.cursor,
        post.cursor,
    ));
    assert(pre.seen =~= input.subrange(0, pre.seen.len() as int));
}

/// What a read of a symbol returned, a read at the same place returns in
/// every later state of the source: after stepping back, the same symbol is
/// read again.
pub proof fn lemma_symbol_read_again(
    pre: SourceView,
    post: SourceView,
    later: SourceView,
    encoding: EncodingKind,
)
    requires
        pre.wf(),
        read_step(pre, post, encoding.width()),
        post.leads_to(later),
    ensures
        symbol_at(later.seen, pre.cursor, encoding) == symbol_at(
            post.seen,
            pre.cursor,
            encoding,
        ),
{
    lemma_admits_seen(later);
    assert(post.admits(later.seen));
    lemma_read_settles(pre, post, encoding.width(), later.seen);
}

/// A single byte spells its own value.
pub proof fn lemma_composed_one(bytes: Seq<u8>)
    requires
        bytes.len() == 1,
    ensures
        composed(bytes) == bytes[0] as u32,
{
    assert(composed(bytes.drop_last()) == 0);
    let b = bytes[0];
    assert((0u32 << 8) | (b as u32) == b as u32) by (bit_vector);
}

/// What `count` reads of a symbol return one after the other that begin at
/// `position`: the symbols that stand there, up to the end of the input.
pub open spec fn symbols_at(
    input: Seq<u8>,
    position: int,
    encoding: EncodingKind,
    count: nat,
) -> Seq<(u32, u8)>
    decreases count,
{
    if count == 0 {
        Seq::empty()
    } else {
        match symbol_at(input, position, encoding) {
            Some(symbol) => seq![symbol] + symbols_at(
                input,
                position + symbol.1,
                encoding,
                (count - 1) as nat,
            ),
            None => Seq::empty(),
        }
    }
}

/// What has been read once is read again after stepping back: `count`
/// symbols that a source has read from `position` on, so that it has seen
/// them whole or has reached the end of its input, are the symbols that
/// stand there in every later state of the source.
pub proof fn lemma_reread_gives_same_symbols(
    first: SourceView,
    later: SourceView,
    position: int,
    encoding: EncodingKind,
    count: nat,
)
    requires
        first.wf(),
        first.leads_to(later),
        0 <= position,
        first.ended || position + count * encoding.width() <= first.seen.len(),
    ensures
        symbols_at(later.seen, position, encoding, count) == symbols_at(
            first.seen,
            position,
            encoding,
            count,
        ),
    decreases count,
{
    if count > 0 && !first.ended {
        let width = encoding.width();
        assert(position + width <= first.seen.len()) by (nonlinear_arith)
            requires
                position + count * width <= first.seen.len(),
                count >= 1,
                width >= 1,
        ;
        assert(later.seen.subrange(position, position + width) =~= first.seen.subrange(
            position,
            position + width,
        ));
        assert(position + width + (count - 1) * width == position + count * width)
            by (nonlinear_arith);
        lemma_reread_gives_same_symbols(
            first,
            later,
            position + width,
            encoding,
            (count - 1) as nat,
        );
    }
}

} // verus!
