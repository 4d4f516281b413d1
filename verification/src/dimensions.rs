use vstd::prelude::*;

verus! {

/// Width and height, in pixels, of a video frame or of a barcode image.
#[derive(Clone, Copy, Debug, PartialEq, Eq, Structural)]
pub struct Dimensions {
    pub width: u32,
    pub height: u32,
}

impl Dimensions {
    /// Number of pixels in a grid of these dimensions.
    pub open spec fn pixels(self) -> nat {
        (self.width * self.height) as nat
    }

    /// Number of bytes in a raw frame of these dimensions: three a pixel.
    pub open spec fn byte_count(self) -> nat {
        self.pixels() * 3
    }

    /// Dimensions of `width` by `height` pixels.
    pub fn new(width: u32, height: u32) -> (dimensions: Self)
        ensures
            dimensions.width == width,
            dimensions.height == height,
    {
        Self { width, height }
    }

    /// The number of pixels, where it fits the machine's word.
    pub fn pixel_count(&self) -> (count: Option<usize>)
        ensures
            count is Some <==> self.pixels() <= usize::MAX,
            count is Some ==> count->0 == self.pixels(),
    {
        let wide: u64 = self.width as u64;
        let high: u64 = self.height as u64;
        assert(wide * high <= u64::MAX) by (nonlinear_arith)
            requires
                wide <= u32::MAX,
                high <= u32::MAX,
        ;
        let count: u64 = wide * high;
        if count <= usize::MAX as u64 {
            Some(count as usize)
        } else {
            None
        }
    }

    /// The number of bytes of a raw frame, where it fits the machine's word.
    pub fn byte_len(&self) -> (len: Option<usize>)
        ensures
            len is Some <==> self.byte_count() <= usize::MAX,
            len is Some ==> len->0 == self.byte_count(),
    {
        let wide: u128 = self.width as u128;
        let high: u128 = self.height as u128;
        assert(wide * high <= 0xFFFF_FFFF_FFFF_FFFF) by (nonlinear_arith)
            requires
                wide <= u32::MAX,
                high <= u32::MAX,
        ;
        let len: u128 = wide * high * 3;
        if len <= usize::MAX as u128 {
            Some(len as usize)
        } else {
            None
        }
    }
}

} // verus!
