use crate::buffer::{contents, into_vec};
use crate::dimensions::Dimensions;
use crate::frame::FrameBuffer;
use bytes::BytesMut;
use vstd::arithmetic::div_mod::{
    lemma_basic_div, lemma_div_basics, lemma_div_non_zero, lemma_fundamental_div_mod,
    lemma_fundamental_div_mod_converse, lemma_hoist_over_denominator,
};
use vstd::prelude::*;

verus! {

/// Number of whole frames of `capacity` bytes in a stream of `len` bytes.
/// Frames of no bytes are not counted: there is no telling them apart.
pub open spec fn frame_count(len: nat, capacity: nat) -> nat {
    if capacity == 0 {
        0
    } else {
        len / capacity
    }
}

/// The whole frames of a stream, in order: frame `i` is the stream's bytes
/// from `i * capacity` up to `(i + 1) * capacity`.
pub open spec fn frames_of(stream: Seq<u8>, capacity: nat) -> Seq<Seq<u8>> {
    Seq::new(
        frame_count(stream.len(), capacity),
        |i: int| stream.subrange(i * capacity, (i + 1) * capacity),
    )
}

/// What follows the last whole frame of a stream.
pub open spec fn remainder_of(stream: Seq<u8>, capacity: nat) -> Seq<u8> {
    stream.skip((frame_count(stream.len(), capacity) * capacity) as int)
}

/// Cuts a stream of raw RGB bytes into frames of `width * height * 3` bytes.
pub struct VideoFrameCodec {
    dimensions: Dimensions,
    capacity: usize,
}

impl VideoFrameCodec {
    /// The dimensions of the frames that the codec cuts.
    pub closed spec fn dims(&self) -> Dimensions {
        self.dimensions
    }

    #[verifier::type_invariant]
    spec fn well_formed(&self) -> bool {
        self.capacity == self.dimensions.byte_count()
    }

    /// A codec for frames of `width` by `height` pixels. The number of
    /// bytes of such a frame has to fit a machine word.
    pub fn new(width: u32, height: u32) -> (codec: Self)
        requires
            (Dimensions { width, height }).byte_count() <= usize::MAX,
        ensures
            codec.dims() == (Dimensions { width, height }),
    {
        let dimensions = Dimensions::new(width, height);
        let capacity: usize = dimensions.byte_len().unwrap();
        Self { dimensions, capacity }
    }

    /// The dimensions of the frames that the codec cuts.
    pub fn dimensions(&self) -> (dimensions: Dimensions)
        ensures
            dimensions == self.dims(),
    {
        self.dimensions
    }

    /// The number of bytes of one frame.
    pub fn capacity(&self) -> (capacity: usize)
        ensures
            capacity == self.dims().byte_count(),
    {
        proof {
            use_type_invariant(self);
        }
        self.capacity
    }

    /// Takes one frame off the front of the buffer, if the buffer holds a
    /// whole one. Otherwise it leaves the buffer as it is, to wait for more
    /// bytes. Bytes beyond the frame stay in the buffer for the next call.
    /// A codec for frames of no bytes never takes anything.
    pub fn decode(&self, src: &mut BytesMut) -> (frame: Option<FrameBuffer>)
        ensures
            match frame {
                Some(cut) => {
                    &&& 0 < self.dims().byte_count() <= contents(*old(src)).len()
                    &&& cut.dims() == self.dims()
                    &&& cut.raw() == contents(*old(src)).take(self.dims().byte_count() as int)
                    &&& contents(*final(src)) == contents(*old(src)).skip(
                        self.dims().byte_count() as int,
                    )
                },
                None => {
                    &&& self.dims().byte_count() == 0 || contents(*old(src)).len()
                        < self.dims().byte_count()
                    &&& contents(*final(src)) == contents(*old(src))
                },
            },
    {
        proof {
            use_type_invariant(self);
        }
        let capacity: usize = self.capacity;
        if capacity == 0 || src.len() < capacity {
            return None;
        }
        let bytes: Vec<u8> = into_vec(src.split_to(capacity));
        assert(contents(*src) =~= contents(*old(src)).skip(capacity as int));
        FrameBuffer::from_raw(self.dimensions.width, self.dimensions.height, bytes).ok()
    }

    /// Takes every whole frame off the front of the buffer, in order, and
    /// leaves in the buffer what follows the last of them.
    pub fn decode_all(&self, src: &mut BytesMut) -> (frames: Vec<FrameBuffer>)
        ensures
            frames@.len() == frames_of(contents(*old(src)), self.dims().byte_count()).len(),
            forall|i: int|
                0 <= i < frames@.len() ==> {
                    &&& (#[trigger] frames@[i]).dims() == self.dims()
                    &&& frames@[i].raw() == frames_of(
                        contents(*old(src)),
                        self.dims().byte_count(),
                    )[i]
                },
            contents(*final(src)) == remainder_of(contents(*old(src)), self.dims().byte_count()),
    {
        let ghost stream: Seq<u8> = contents(*src);
        let ghost capacity: nat = self.dims().byte_count();
        let mut frames: Vec<FrameBuffer> = Vec::new();
        proof {
            assert(0 * capacity == 0) by (nonlinear_arith);
            assert(stream.skip(0) =~= stream);
        }
        loop
            invariant
                capacity == self.dims().byte_count(),
                frames@.len() * capacity <= stream.len(),
                capacity == 0 ==> frames@.len() == 0,
                contents(*src) == stream.skip((frames@.len() * capacity) as int),
                forall|i: int|
                    0 <= i < frames@.len() ==> {
                        &&& (#[trigger] frames@[i]).dims() == self.dims()
                        &&& frames@[i].raw() == stream.subrange(i * capacity, (i + 1) * capacity)
                    },
            ensures
                capacity == 0 || contents(*src).len() < capacity,
            decreases contents(*src).len(),
        {
            let ghost done: int = frames@.len() as int;
            match self.decode(src) {
                Some(frame) => {
                    proof {
                        assert((done + 1) * capacity == done * capacity + capacity)
                            by (nonlinear_arith);
                        assert(frame.raw() =~= stream.subrange(
                            done * capacity,
                            (done + 1) * capacity,
                        ));
                        assert(contents(*src) =~= stream.skip((done + 1) * capacity));
                    }
                    frames.push(frame);
                },
                None => {
                    break ;
                },
            }
        }
        proof {
            let done: int = frames@.len() as int;
            if capacity > 0 {
                lemma_fundamental_div_mod_converse(
                    stream.len() as int,
                    capacity as int,
                    done,
                    stream.len() - done * capacity,
                );
            } else {
                assert(done * capacity == 0) by (nonlinear_arith)
                    requires
                        capacity == 0,
                ;
            }
        }
        frames
    }

    /// Ends the stream: takes every whole frame that the buffer still
    /// holds and throws away the bytes after them, which are too few for a
    /// frame. Returns the frames and the number of bytes thrown away.
    pub fn decode_eof(&self, src: &mut BytesMut) -> (rest: (Vec<FrameBuffer>, usize))
        ensures
            rest.0@.len() == frames_of(contents(*old(src)), self.dims().byte_count()).len(),
            forall|i: int|
                0 <= i < rest.0@.len() ==> {
                    &&& (#[trigger] rest.0@[i]).dims() == self.dims()
                    &&& rest.0@[i].raw() == frames_of(
                        contents(*old(src)),
                        self.dims().byte_count(),
                    )[i]
                },
            rest.1 == remainder_of(contents(*old(src)), self.dims().byte_count()).len(),
            contents(*final(src)).len() == 0,
    {
        let frames: Vec<FrameBuffer> = self.decode_all(src);
        let discarded: usize = src.len();
        let _ = src.split_to(discarded);
        (frames, discarded)
    }
}

/// A stream holds a whole frame just when it is at least as long as one.
pub proof fn lemma_frame_count_positive(len: nat, capacity: nat)
    ensures
        frame_count(len, capacity) > 0 <==> capacity > 0 && len >= capacity,
{
    if capacity > 0 {
        if len >= capacity {
            lemma_div_non_zero(len as int, capacity as int);
        } else {
            lemma_basic_div(len as int, capacity as int);
        }
    }
}

/// A stream that is shorter than a frame holds no frame, and all of it is
/// remainder.
pub proof fn lemma_no_whole_frame(stream: Seq<u8>, capacity: nat)
    requires
        capacity == 0 || stream.len() < capacity,
    ensures
        frames_of(stream, capacity) == Seq::<Seq<u8>>::empty(),
        remainder_of(stream, capacity) == stream,
{
    lemma_frame_count_positive(stream.len(), capacity);
    assert(0 * capacity == 0) by (nonlinear_arith);
    assert(frames_of(stream, capacity) =~= Seq::<Seq<u8>>::empty());
    assert(remainder_of(stream, capacity) =~= stream);
}

/// The whole frames of a stream take up as many bytes as there are frames
/// times the frame size, and fewer than one frame's bytes are left over.
pub proof fn lemma_frames_within_stream(len: nat, capacity: nat)
    requires
        capacity > 0,
    ensures
        frame_count(len, capacity) * capacity <= len < frame_count(len, capacity) * capacity
            + capacity,
{
    lemma_fundamental_div_mod(len as int, capacity as int);
    assert(capacity * (len as int / capacity as int) == (len as int / capacity as int) * capacity)
        by (nonlinear_arith);
}

/// What comes out of a buffer that holds `pending` when the chunks arrive
/// one after the other: each chunk is appended to what the buffer holds,
/// and every whole frame is taken out before the next chunk arrives.
pub open spec fn frames_of_chunks(pending: Seq<u8>, chunks: Seq<Seq<u8>>, capacity: nat) -> Seq<
    Seq<u8>,
>
    decreases chunks.len(),
{
    if chunks.len() == 0 {
        Seq::empty()
    } else {
        let held = pending + chunks.first();
        frames_of(held, capacity) + frames_of_chunks(
            remainder_of(held, capacity),
            chunks.drop_first(),
            capacity,
        )
    }
}

/// What the buffer holds after the last chunk has arrived and every whole
/// frame has been taken out.
pub open spec fn pending_after_chunks(
    pending: Seq<u8>,
    chunks: Seq<Seq<u8>>,
    capacity: nat,
) -> Seq<u8>
    decreases chunks.len(),
{
    if chunks.len() == 0 {
        pending
    } else {
        pending_after_chunks(
            remainder_of(pending + chunks.first(), capacity),
            chunks.drop_first(),
            capacity,
        )
    }
}

/// Taking the frames out of the first part of a stream and going on with
/// what is left over gives the frames of the whole stream.
pub proof fn lemma_frames_of_append(head: Seq<u8>, tail: Seq<u8>, capacity: nat)
    ensures
        frames_of(head + tail, capacity) == frames_of(head, capacity) + frames_of(
            remainder_of(head, capacity) + tail,
            capacity,
        ),
        remainder_of(head + tail, capacity) == remainder_of(
            remainder_of(head, capacity) + tail,
            capacity,
        ),
{
    let whole = head + tail;
    let first = frame_count(head.len(), capacity) as int;
    let left = remainder_of(head, capacity);
    let later = frame_count((left + tail).len(), capacity) as int;
    if capacity == 0 {
        assert(left =~= head);
        assert(frames_of(whole, capacity) =~= frames_of(head, capacity) + frames_of(
            left + tail,
            capacity,
        ));
    } else {
        let size = capacity as int;
        lemma_frames_within_stream(head.len(), capacity);
        lemma_frames_within_stream((left + tail).len(), capacity);
        lemma_hoist_over_denominator((left + tail).len() as int, first, capacity);
        assert(frame_count(whole.len(), capacity) == first + later);
        assert(left + tail =~= whole.skip(first * size));
        assert forall|i: int| 0 <= i < first + later implies #[trigger] frames_of(
            whole,
            capacity,
        )[i] == (frames_of(head, capacity) + frames_of(left + tail, capacity))[i] by {
            assert((i + 1) * size == i * size + size) by (nonlinear_arith);
            if i < first {
                assert((i + 1) * size <= first * size) by (nonlinear_arith)
                    requires
                        i + 1 <= first,
                        size > 0,
                ;
                assert(whole.subrange(i * size, (i + 1) * size) =~= head.subrange(
                    i * size,
                    (i + 1) * size,
                ));
            } else {
                let j = i - first;
                assert(j * size == i * size - first * size) by (nonlinear_arith)
                    requires
                        j == i - first,
                ;
                assert((j + 1) * size == j * size + size) by (nonlinear_arith);
                assert((j + 1) * size <= later * size) by (nonlinear_arith)
                    requires
                        j + 1 <= later,
                        size > 0,
                ;
                assert(whole.subrange(i * size, (i + 1) * size) =~= (left + tail).subrange(
                    j * size,
                    (j + 1) * size,
                ));
            }
        }
        assert(frames_of(whole, capacity) =~= frames_of(head, capacity) + frames_of(
            left + tail,
            capacity,
        ));
        assert((first + later) * size == first * size + later * size) by (nonlinear_arith);
        assert(remainder_of(whole, capacity) =~= remainder_of(left + tail, capacity));
    }
}

/// A stream that holds a whole frame starts with its first frame, and what
/// follows that frame holds the other frames and the same remainder.
pub proof fn lemma_frames_of_peel(stream: Seq<u8>, capacity: nat)
    requires
        capacity > 0,
        stream.len() >= capacity,
    ensures
        frames_of(stream, capacity).len() > 0,
        frames_of(stream, capacity).first() == stream.take(capacity as int),
        frames_of(stream, capacity).drop_first() == frames_of(
            stream.skip(capacity as int),
            capacity,
        ),
        remainder_of(stream, capacity) == remainder_of(stream.skip(capacity as int), capacity),
{
    let head = stream.take(capacity as int);
    let tail = stream.skip(capacity as int);
    assert(head + tail =~= stream);
    lemma_frames_of_append(head, tail, capacity);
    lemma_div_basics(capacity as int);
    assert(frame_count(head.len(), capacity) == 1);
    assert(0 * capacity == 0 && (0 + 1) * capacity == capacity && 1 * capacity == capacity)
        by (nonlinear_arith);
    assert(head.subrange(0, capacity as int) =~= head);
    assert(frames_of(head, capacity)[0] == head);
    assert(frames_of(head, capacity) =~= seq![head]);
    assert(remainder_of(head, capacity) =~= Seq::<u8>::empty());
    assert(remainder_of(head, capacity) + tail =~= tail);
    assert((seq![head] + frames_of(tail, capacity)).drop_first() =~= frames_of(tail, capacity));
}

/// However a stream is cut into chunks, the frames that come out are the
/// frames of the stream as a whole, and what stays in the buffer is what
/// follows the stream's last whole frame. The buffer starts with less than
/// one frame in it.
pub proof fn lemma_chunking_independence(pending: Seq<u8>, chunks: Seq<Seq<u8>>, capacity: nat)
    requires
        frame_count(pending.len(), capacity) == 0,
    ensures
        frames_of_chunks(pending, chunks, capacity) == frames_of(
            pending + chunks.flatten(),
            capacity,
        ),
        pending_after_chunks(pending, chunks, capacity) == remainder_of(
            pending + chunks.flatten(),
            capacity,
        ),
    decreases chunks.len(),
{
    if chunks.len() == 0 {
        assert(pending + chunks.flatten() =~= pending);
        assert(remainder_of(pending, capacity) =~= pending);
        assert(frames_of(pending, capacity) =~= Seq::<Seq<u8>>::empty());
    } else {
        let held = pending + chunks.first();
        let left = remainder_of(held, capacity);
        let rest = chunks.drop_first();
        if capacity > 0 {
            lemma_frames_within_stream(held.len(), capacity);
        }
        lemma_frame_count_positive(left.len(), capacity);
        lemma_chunking_independence(left, rest, capacity);
        lemma_frames_of_append(held, rest.flatten(), capacity);
        assert(pending + chunks.flatten() =~= held + rest.flatten());
    }
}

/// A stream that is exactly `count` frames long yields exactly `count`
/// frames, each the same bytes as its slice of the stream, and leaves
/// nothing behind, however it was cut into chunks on the way.
pub proof fn lemma_whole_frames_of_any_chunking(chunks: Seq<Seq<u8>>, capacity: nat, count: nat)
    requires
        capacity > 0,
        chunks.flatten().len() == count * capacity,
    ensures
        frames_of_chunks(Seq::empty(), chunks, capacity).len() == count,
        forall|i: int|
            0 <= i < count ==> #[trigger] frames_of_chunks(Seq::empty(), chunks, capacity)[i]
                == chunks.flatten().subrange(i * capacity, (i + 1) * capacity),
        pending_after_chunks(Seq::empty(), chunks, capacity).len() == 0,
{
    let stream = chunks.flatten();
    lemma_frame_count_positive(0, capacity);
    lemma_chunking_independence(Seq::empty(), chunks, capacity);
    assert(Seq::<u8>::empty() + stream =~= stream);
    lemma_fundamental_div_mod_converse(stream.len() as int, capacity as int, count as int, 0);
}

/// A stream of `count` frames followed by fewer bytes than one frame
/// yields exactly those `count` frames, however it was cut into chunks, and
/// the bytes after them stay behind in the buffer, to be thrown away when
/// the stream ends.
pub proof fn lemma_trailing_bytes_stay_behind(
    chunks: Seq<Seq<u8>>,
    capacity: nat,
    count: nat,
    trailing: nat,
)
    requires
        trailing < capacity,
        chunks.flatten().len() == count * capacity + trailing,
    ensures
        frames_of_chunks(Seq::empty(), chunks, capacity).len() == count,
        forall|i: int|
            0 <= i < count ==> #[trigger] frames_of_chunks(Seq::empty(), chunks, capacity)[i]
                == chunks.flatten().subrange(i * capacity, (i + 1) * capacity),
        pending_after_chunks(Seq::empty(), chunks, capacity) == chunks.flatten().skip(
            (count * capacity) as int,
        ),
        pending_after_chunks(Seq::empty(), chunks, capacity).len() == trailing,
{
    let stream = chunks.flatten();
    lemma_frame_count_positive(0, capacity);
    lemma_chunking_independence(Seq::empty(), chunks, capacity);
    assert(Seq::<u8>::empty() + stream =~= stream);
    lemma_fundamental_div_mod_converse(
        stream.len() as int,
        capacity as int,
        count as int,
        trailing as int,
    );
}

} // verus!
