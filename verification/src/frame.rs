use crate::dimensions::Dimensions;
use crate::error::Error;
use crate::pixel::Pixel;
use vstd::prelude::*;

verus! {

/// The pixels that raw RGB bytes stand for: three bytes a pixel, in order.
/// Bytes after the last whole pixel stand for nothing.
pub open spec fn pixels_of(bytes: Seq<u8>) -> Seq<Pixel> {
    Seq::new(
        (bytes.len() / 3) as nat,
        |i: int| Pixel { r: bytes[3 * i], g: bytes[3 * i + 1], b: bytes[3 * i + 2] },
    )
}

/// One decoded video frame: a dense grid of pixels, row after row, held as
/// raw RGB bytes. It always holds exactly three bytes for each pixel of its
/// dimensions.
pub struct FrameBuffer {
    dimensions: Dimensions,
    data: Vec<u8>,
}

impl View for FrameBuffer {
    type V = Seq<Pixel>;

    /// The frame's pixels, row after row.
    open spec fn view(&self) -> Seq<Pixel> {
        pixels_of(self.raw())
    }
}

impl FrameBuffer {
    /// The frame's raw bytes.
    pub closed spec fn raw(&self) -> Seq<u8> {
        self.data@
    }

    /// The frame's width and height.
    pub closed spec fn dims(&self) -> Dimensions {
        self.dimensions
    }

    #[verifier::type_invariant]
    spec fn well_formed(&self) -> bool {
        self.data@.len() == self.dimensions.byte_count()
    }

    /// Builds a frame from raw bytes. The bytes must be exactly three for
    /// each pixel: nothing is cut off and nothing is filled in.
    pub fn from_raw(width: u32, height: u32, data: Vec<u8>) -> (frame: Result<FrameBuffer, Error>)
        ensures
            match frame {
                Ok(built) => {
                    &&& data@.len() == (Dimensions { width, height }).byte_count()
                    &&& built.dims() == (Dimensions { width, height })
                    &&& built.raw() == data@
                },
                Err(error) => {
                    &&& data@.len() != (Dimensions { width, height }).byte_count()
                    &&& error == Error::FrameBufferError { width, height, actual: data@.len() as usize }
                },
            },
    {
        let dimensions = Dimensions::new(width, height);
        match dimensions.byte_len() {
            Some(expected) => {
                if data.len() == expected {
                    Ok(FrameBuffer { dimensions, data })
                } else {
                    Err(Error::FrameBufferError { width, height, actual: data.len() })
                }
            },
            None => Err(Error::FrameBufferError { width, height, actual: data.len() }),
        }
    }

    /// The frame's width and height.
    pub fn dimensions(&self) -> (dimensions: Dimensions)
        ensures
            dimensions == self.dims(),
    {
        self.dimensions
    }

    /// The raw bytes of the frame.
    pub fn as_raw(&self) -> (bytes: &Vec<u8>)
        ensures
            bytes@ == self.raw(),
            bytes@.len() == self.dims().byte_count(),
    {
        proof {
            use_type_invariant(self);
        }
        &self.data
    }

    /// The pixels of the frame, row after row.
    pub fn pixels(&self) -> (pixels: Vec<Pixel>)
        ensures
            pixels@ == self@,
            pixels@.len() == self.dims().pixels(),
    {
        proof {
            use_type_invariant(self);
        }
        let count: usize = self.data.len() / 3;
        let mut pixels: Vec<Pixel> = Vec::new();
        let mut i: usize = 0;
        while i < count
            invariant
                i <= count,
                count == self.data.len() / 3,
                pixels@ == self@.take(i as int),
            decreases count - i,
        {
            assert(3 * i + 2 < self.data.len());
            let pixel = Pixel {
                r: self.data[3 * i],
                g: self.data[3 * i + 1],
                b: self.data[3 * i + 2],
            };
            pixels.push(pixel);
            i = i + 1;
            assert(pixels@ =~= self@.take(i as int));
        }
        assert(self@.take(count as int) =~= self@);
        assert(self.dims().pixels() * 3 / 3 == self.dims().pixels());
        pixels
    }
}

} // verus!
