use crate::barcode::{absorb, BarcodeAssembler, BarcodeImage};
use crate::buffer::contents;
use crate::codec::{
    frame_count, frames_of, lemma_frame_count_positive, lemma_frames_of_append,
    lemma_frames_of_peel, lemma_frames_within_stream, lemma_no_whole_frame, remainder_of,
    VideoFrameCodec,
};
use crate::dimensions::Dimensions;
use crate::error::Error;
use crate::frame::{pixels_of, FrameBuffer};
use crate::pixel::{
    blended_column, get_blended_col_average_pixels, get_simple_col_average_pixels, simple_column,
    Pixel,
};
use bytes::BytesMut;
use vstd::arithmetic::div_mod::{lemma_fundamental_div_mod, lemma_mod_decreases};
use vstd::prelude::*;

verus! {

/// What the ripper asks of whoever feeds it.
#[derive(Clone, Copy, Debug, PartialEq, Eq, Structural)]
pub enum Demand {
    /// The barcode still has unset pixels: go on reading the stream.
    MoreInput,
    /// The barcode is filled: stop reading, what comes now is dropped.
    Satisfied,
}

/// The dimensions of the barcode that keeps the aspect of the video: as
/// high as the video and three times as wide as it is high.
pub fn barcode_dimensions(video: &Dimensions) -> (barcode: Result<Dimensions, Error>)
    ensures
        match barcode {
            Ok(dimensions) => {
                &&& video.width > 0
                &&& video.height > 0
                &&& dimensions.height == video.height
                &&& dimensions.width == video.height * 3
            },
            Err(error) => {
                &&& video.width == 0 || video.height == 0 || video.height * 3 > u32::MAX
                &&& error == Error::InvalidInputError
            },
        },
{
    if video.width == 0 || video.height == 0 || video.height > u32::MAX / 3 {
        Err(Error::InvalidInputError)
    } else {
        Ok(Dimensions::new(video.height * 3, video.height))
    }
}

/// The column of pixels that one frame is reduced to: in simple mode the
/// frame's mean colour, once for each row of the barcode; in blended mode
/// the mean colour of each row of the frame. There is none where a mean
/// over no pixels would be asked for.
pub open spec fn column_of(
    frame: Seq<Pixel>,
    video: Dimensions,
    barcode: Dimensions,
    simple: bool,
) -> Option<Seq<Pixel>> {
    if simple {
        if frame.len() == 0 {
            None
        } else {
            Some(simple_column(frame, barcode.height as nat))
        }
    } else {
        if video.width == 0 {
            None
        } else {
            Some(blended_column(frame, video.width as nat))
        }
    }
}

/// The pixels of the barcode after one more frame has arrived. A frame
/// that arrives at a filled barcode is passed over.
pub open spec fn absorb_frame(
    pixels: Seq<Pixel>,
    frame: Seq<Pixel>,
    video: Dimensions,
    barcode: Dimensions,
    simple: bool,
) -> Seq<Pixel> {
    if pixels.len() >= barcode.pixels() {
        pixels
    } else {
        match column_of(frame, video, barcode, simple) {
            Some(column) => absorb(pixels, column, barcode.pixels()),
            None => pixels,
        }
    }
}

/// The pixels of the barcode after the frames, given as raw bytes, have
/// arrived one after the other.
pub open spec fn absorb_frames(
    pixels: Seq<Pixel>,
    frames: Seq<Seq<u8>>,
    video: Dimensions,
    barcode: Dimensions,
    simple: bool,
) -> Seq<Pixel>
    decreases frames.len(),
{
    if frames.len() == 0 {
        pixels
    } else {
        absorb_frames(
            absorb_frame(pixels, pixels_of(frames.first()), video, barcode, simple),
            frames.drop_first(),
            video,
            barcode,
            simple,
        )
    }
}

/// The run of one video: frames come in, each is reduced to a column of
/// pixels, and the columns fill the barcode in the order of arrival until
/// its budget is met.
pub struct Ripper {
    codec: VideoFrameCodec,
    assembler: BarcodeAssembler,
    is_simple: bool,
}

impl View for Ripper {
    type V = Seq<Pixel>;

    /// The pixels of the barcode that are set so far.
    closed spec fn view(&self) -> Seq<Pixel> {
        self.assembler@
    }
}

impl Ripper {
    /// The dimensions of the video's frames.
    pub closed spec fn video(&self) -> Dimensions {
        self.codec.dims()
    }

    /// The dimensions of the barcode.
    pub closed spec fn barcode(&self) -> Dimensions {
        self.assembler.dims()
    }

    /// Whether frames are reduced in simple mode.
    pub closed spec fn simple(&self) -> bool {
        self.is_simple
    }

    /// Whether two values belong to one run: they have the same dimensions
    /// and the same mode, and differ at most in the pixels that are set.
    pub open spec fn same_run(&self, other: &Ripper) -> bool {
        &&& self.video() == other.video()
        &&& self.barcode() == other.barcode()
        &&& self.simple() == other.simple()
    }

    /// Starts a run with an empty barcode. Dimensions of which one is zero,
    /// or whose raw bytes could not be counted in a machine word, are
    /// refused.
    pub fn new(video: Dimensions, barcode: Dimensions, is_simple: bool) -> (ripper: Result<
        Ripper,
        Error,
    >)
        ensures
            match ripper {
                Ok(fresh) => {
                    &&& video.width > 0 && video.height > 0
                    &&& barcode.width > 0 && barcode.height > 0
                    &&& video.byte_count() <= usize::MAX
                    &&& barcode.byte_count() <= usize::MAX
                    &&& fresh.video() == video
                    &&& fresh.barcode() == barcode
                    &&& fresh.simple() == is_simple
                    &&& fresh@ == Seq::<Pixel>::empty()
                },
                Err(error) => {
                    &&& video.width == 0 || video.height == 0 || barcode.width == 0
                        || barcode.height == 0 || video.byte_count() > usize::MAX
                        || barcode.byte_count() > usize::MAX
                    &&& error == Error::InvalidInputError
                },
            },
    {
        if video.width == 0 || video.height == 0 || barcode.width == 0 || barcode.height == 0 {
            return Err(Error::InvalidInputError);
        }
        if video.byte_len().is_none() {
            return Err(Error::InvalidInputError);
        }
        match BarcodeAssembler::new(barcode) {
            Ok(assembler) => Ok(
                Ripper { codec: VideoFrameCodec::new(video.width, video.height), assembler, is_simple },
            ),
            Err(error) => Err(error),
        }
    }

    /// The codec that cuts this run's stream into frames.
    pub fn codec(&self) -> (codec: &VideoFrameCodec)
        ensures
            codec.dims() == self.video(),
    {
        &self.codec
    }

    /// What the ripper asks for now.
    pub fn demand(&self) -> (demand: Demand)
        ensures
            demand == Demand::Satisfied <==> self@.len() == self.barcode().pixels(),
            self@.len() <= self.barcode().pixels(),
    {
        if self.assembler.is_full() {
            Demand::Satisfied
        } else {
            Demand::MoreInput
        }
    }

    /// Takes one frame: reduces it to its column of pixels and appends
    /// them to the barcode, as far as the budget allows. Once the barcode is
    /// filled, frames are passed over unread.
    pub fn process_frame(&mut self, frame: FrameBuffer) -> (outcome: Result<Demand, Error>)
        ensures
            final(self).same_run(old(self)),
            final(self)@ == absorb_frame(
                old(self)@,
                frame@,
                old(self).video(),
                old(self).barcode(),
                old(self).simple(),
            ),
            final(self)@.len() <= final(self).barcode().pixels(),
            match outcome {
                Ok(demand) => {
                    &&& old(self)@.len() < old(self).barcode().pixels() ==> column_of(
                        frame@,
                        old(self).video(),
                        old(self).barcode(),
                        old(self).simple(),
                    ) is Some
                    &&& demand == Demand::Satisfied <==> final(self)@.len() == old(
                        self,
                    ).barcode().pixels()
                },
                Err(error) => {
                    &&& old(self)@.len() < old(self).barcode().pixels()
                    &&& column_of(
                        frame@,
                        old(self).video(),
                        old(self).barcode(),
                        old(self).simple(),
                    ) is None
                    &&& error == Error::EmptyFrameError
                },
            },
    {
        if self.assembler.is_full() {
            return Ok(Demand::Satisfied);
        }
        let column: Result<Vec<Pixel>, Error> = if self.is_simple {
            let barcode: Dimensions = self.assembler.dimensions();
            get_simple_col_average_pixels(frame, &barcode)
        } else {
            let video: Dimensions = self.codec.dimensions();
            get_blended_col_average_pixels(frame, &video)
        };
        match column {
            Ok(pixels) => {
                self.assembler.accept(pixels.as_slice());
                Ok(self.demand())
            },
            Err(error) => Err(error),
        }
    }

    /// Takes every whole frame that the buffer holds, in order, as
    /// `process_frame` does, and leaves in the buffer what follows the last
    /// of them. The caller appends what it reads to the buffer and calls
    /// this again, for as long as more input is asked for.
    pub fn process_buffer(&mut self, src: &mut BytesMut) -> (demand: Demand)
        ensures
            final(self).same_run(old(self)),
            final(self)@ == absorb_frames(
                old(self)@,
                frames_of(contents(*old(src)), old(self).video().byte_count()),
                old(self).video(),
                old(self).barcode(),
                old(self).simple(),
            ),
            contents(*final(src)) == remainder_of(
                contents(*old(src)),
                old(self).video().byte_count(),
            ),
            final(self)@.len() <= final(self).barcode().pixels(),
            demand == Demand::Satisfied <==> final(self)@.len() == final(self).barcode().pixels(),
    {
        let ghost video: Dimensions = self.video();
        let ghost barcode: Dimensions = self.barcode();
        let ghost simple: bool = self.simple();
        let ghost capacity: nat = video.byte_count();
        let ghost stream: Seq<u8> = contents(*src);
        loop
            invariant
                self.same_run(old(self)),
                video == self.video(),
                barcode == self.barcode(),
                simple == self.simple(),
                capacity == video.byte_count(),
                absorb_frames(self@, frames_of(contents(*src), capacity), video, barcode, simple)
                    == absorb_frames(
                    old(self)@,
                    frames_of(stream, capacity),
                    video,
                    barcode,
                    simple,
                ),
                remainder_of(contents(*src), capacity) == remainder_of(stream, capacity),
            ensures
                capacity == 0 || contents(*src).len() < capacity,
            decreases contents(*src).len(),
        {
            let ghost held: Seq<u8> = contents(*src);
            if self.assembler.is_full() {
                // Nothing more is taken: the frames that are left are not even cut.
                let size: usize = self.codec.capacity();
                if size > 0 {
                    let buffered: usize = src.len();
                    proof {
                        lemma_mod_decreases(buffered as nat, size as nat);
                    }
                    let whole: usize = buffered - buffered % size;
                    proof {
                        lemma_fundamental_div_mod(held.len() as int, size as int);
                        assert(size * (held.len() as int / size as int) == (held.len() as int
                            / size as int) * size) by (nonlinear_arith);
                        lemma_full_barcode_takes_nothing(
                            self@,
                            frames_of(held, capacity),
                            video,
                            barcode,
                            simple,
                        );
                    }
                    let _ = src.split_to(whole);
                    proof {
                        assert(contents(*src) =~= remainder_of(held, capacity));
                        lemma_frames_within_stream(held.len(), capacity);
                        lemma_no_whole_frame(contents(*src), capacity);
                    }
                }
                break ;
            }
            match self.codec.decode(src) {
                Some(frame) => {
                    proof {
                        lemma_frames_of_peel(held, capacity);
                        lemma_frame_has_pixels(frame.raw(), video);
                    }
                    // A frame that the codec has cut has pixels, and so a column.
                    let _ = self.process_frame(frame);
                },
                None => {
                    break ;
                },
            }
        }
        proof {
            lemma_no_whole_frame(contents(*src), capacity);
        }
        self.demand()
    }

    /// Ends the run when the stream has ended. The barcode is handed out
    /// only if every pixel of it is set; otherwise the error says how many
    /// are missing.
    pub fn finish(self) -> (image: Result<BarcodeImage, Error>)
        ensures
            match image {
                Ok(barcode) => {
                    &&& self@.len() == self.barcode().pixels()
                    &&& barcode.dims() == self.barcode()
                    &&& barcode@ == self@
                },
                Err(error) => {
                    &&& self@.len() < self.barcode().pixels()
                    &&& error == Error::IncompleteBarcodeError {
                        missing: (self.barcode().pixels() - self@.len()) as usize,
                    }
                },
            },
    {
        self.assembler.finish()
    }
}

/// The columns of the frames, one after the other. A frame that has no
/// column adds nothing.
pub open spec fn columns_of(
    frames: Seq<Seq<u8>>,
    video: Dimensions,
    barcode: Dimensions,
    simple: bool,
) -> Seq<Pixel>
    decreases frames.len(),
{
    if frames.len() == 0 {
        Seq::empty()
    } else {
        let rest = columns_of(frames.drop_first(), video, barcode, simple);
        match column_of(pixels_of(frames.first()), video, barcode, simple) {
            Some(column) => column + rest,
            None => rest,
        }
    }
}

/// The pixels of the barcode after the chunks of a stream have arrived one
/// after the other at a buffer that holds `pending`: each chunk is appended
/// to the buffer, and every whole frame in it is taken.
pub open spec fn pixels_after_chunks(
    pixels: Seq<Pixel>,
    pending: Seq<u8>,
    chunks: Seq<Seq<u8>>,
    video: Dimensions,
    barcode: Dimensions,
    simple: bool,
) -> Seq<Pixel>
    decreases chunks.len(),
{
    if chunks.len() == 0 {
        pixels
    } else {
        let held = pending + chunks.first();
        pixels_after_chunks(
            absorb_frames(pixels, frames_of(held, video.byte_count()), video, barcode, simple),
            remainder_of(held, video.byte_count()),
            chunks.drop_first(),
            video,
            barcode,
            simple,
        )
    }
}

/// A barcode that is filled stays as it is, whatever frames arrive.
pub proof fn lemma_full_barcode_takes_nothing(
    pixels: Seq<Pixel>,
    frames: Seq<Seq<u8>>,
    video: Dimensions,
    barcode: Dimensions,
    simple: bool,
)
    requires
        pixels.len() >= barcode.pixels(),
    ensures
        absorb_frames(pixels, frames, video, barcode, simple) == pixels,
    decreases frames.len(),
{
    if frames.len() > 0 {
        lemma_full_barcode_takes_nothing(pixels, frames.drop_first(), video, barcode, simple);
    }
}

/// Two columns that arrive one after the other fill the barcode as their
/// concatenation does.
pub proof fn lemma_absorb_twice(
    pixels: Seq<Pixel>,
    first: Seq<Pixel>,
    second: Seq<Pixel>,
    budget: nat,
)
    requires
        pixels.len() <= budget,
    ensures
        absorb(absorb(pixels, first, budget), second, budget) == absorb(
            pixels,
            first + second,
            budget,
        ),
        absorb(pixels, first, budget).len() <= budget,
{
    assert(absorb(absorb(pixels, first, budget), second, budget) =~= absorb(
        pixels,
        first + second,
        budget,
    ));
}

/// A barcode never holds more pixels than its budget, whatever frames
/// arrive.
pub proof fn lemma_absorb_frames_within_budget(
    pixels: Seq<Pixel>,
    frames: Seq<Seq<u8>>,
    video: Dimensions,
    barcode: Dimensions,
    simple: bool,
)
    requires
        pixels.len() <= barcode.pixels(),
    ensures
        absorb_frames(pixels, frames, video, barcode, simple).len() <= barcode.pixels(),
    decreases frames.len(),
{
    if frames.len() > 0 {
        lemma_absorb_frames_within_budget(
            absorb_frame(pixels, pixels_of(frames.first()), video, barcode, simple),
            frames.drop_first(),
            video,
            barcode,
            simple,
        );
    }
}

/// The barcode holds the pixels of the frames' columns in the order of
/// arrival, cut at its budget: no pixel is written past the budget, none
/// is left out before it, and none changes place.
pub proof fn lemma_barcode_is_prefix_of_columns(
    pixels: Seq<Pixel>,
    frames: Seq<Seq<u8>>,
    video: Dimensions,
    barcode: Dimensions,
    simple: bool,
)
    requires
        pixels.len() <= barcode.pixels(),
    ensures
        absorb_frames(pixels, frames, video, barcode, simple) == absorb(
            pixels,
            columns_of(frames, video, barcode, simple),
            barcode.pixels(),
        ),
    decreases frames.len(),
{
    let budget = barcode.pixels();
    if frames.len() == 0 {
        assert(absorb(pixels, Seq::<Pixel>::empty(), budget) =~= pixels);
    } else {
        let rest = columns_of(frames.drop_first(), video, barcode, simple);
        let next = absorb_frame(pixels, pixels_of(frames.first()), video, barcode, simple);
        lemma_barcode_is_prefix_of_columns(next, frames.drop_first(), video, barcode, simple);
        match column_of(pixels_of(frames.first()), video, barcode, simple) {
            Some(column) => {
                if pixels.len() >= budget {
                    assert(absorb(pixels, rest, budget) =~= pixels);
                    assert(absorb(pixels, column + rest, budget) =~= pixels);
                } else {
                    lemma_absorb_twice(pixels, column, rest, budget);
                }
            },
            None => {},
        }
    }
}

/// Frames that arrive in two batches fill the barcode as they do in one.
pub proof fn lemma_absorb_frames_in_batches(
    pixels: Seq<Pixel>,
    first: Seq<Seq<u8>>,
    second: Seq<Seq<u8>>,
    video: Dimensions,
    barcode: Dimensions,
    simple: bool,
)
    ensures
        absorb_frames(
            absorb_frames(pixels, first, video, barcode, simple),
            second,
            video,
            barcode,
            simple,
        ) == absorb_frames(pixels, first + second, video, barcode, simple),
    decreases first.len(),
{
    if first.len() == 0 {
        assert(first + second =~= second);
    } else {
        let next = absorb_frame(pixels, pixels_of(first.first()), video, barcode, simple);
        lemma_absorb_frames_in_batches(next, first.drop_first(), second, video, barcode, simple);
        assert((first + second).first() == first.first());
        assert((first + second).drop_first() =~= first.drop_first() + second);
    }
}

/// However the stream is cut into chunks on its way, the barcode is the
/// one that the frames of the stream as a whole give.
pub proof fn lemma_barcode_of_any_chunking(
    pixels: Seq<Pixel>,
    pending: Seq<u8>,
    chunks: Seq<Seq<u8>>,
    video: Dimensions,
    barcode: Dimensions,
    simple: bool,
)
    requires
        frame_count(pending.len(), video.byte_count()) == 0,
    ensures
        pixels_after_chunks(pixels, pending, chunks, video, barcode, simple) == absorb_frames(
            pixels,
            frames_of(pending + chunks.flatten(), video.byte_count()),
            video,
            barcode,
            simple,
        ),
    decreases chunks.len(),
{
    let capacity = video.byte_count();
    if chunks.len() == 0 {
        assert(pending + chunks.flatten() =~= pending);
        assert(frames_of(pending, capacity) =~= Seq::<Seq<u8>>::empty());
    } else {
        let held = pending + chunks.first();
        let left = remainder_of(held, capacity);
        let rest = chunks.drop_first();
        let next = absorb_frames(pixels, frames_of(held, capacity), video, barcode, simple);
        if capacity > 0 {
            lemma_frames_within_stream(held.len(), capacity);
        }
        lemma_frame_count_positive(left.len(), capacity);
        lemma_barcode_of_any_chunking(next, left, rest, video, barcode, simple);
        lemma_absorb_frames_in_batches(
            pixels,
            frames_of(held, capacity),
            frames_of(left + rest.flatten(), capacity),
            video,
            barcode,
            simple,
        );
        lemma_frames_of_append(held, rest.flatten(), capacity);
        assert(pending + chunks.flatten() =~= held + rest.flatten());
    }
}

/// The raw bytes of a frame that has bytes at all stand for at least one
/// pixel, and neither side of the frame is zero.
proof fn lemma_frame_has_pixels(raw: Seq<u8>, dimensions: Dimensions)
    requires
        raw.len() == dimensions.byte_count(),
        dimensions.byte_count() > 0,
    ensures
        pixels_of(raw).len() > 0,
        dimensions.width > 0,
        dimensions.height > 0,
{
    assert(dimensions.width > 0 && dimensions.height > 0) by (nonlinear_arith)
        requires
            dimensions.width * dimensions.height * 3 > 0,
            dimensions.width >= 0,
            dimensions.height >= 0,
    ;
}

} // verus!
