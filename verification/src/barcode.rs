use crate::dimensions::Dimensions;
use crate::error::Error;
use crate::pixel::{channel, Pixel};
use vstd::prelude::*;

verus! {

/// The pixels held after `column` has arrived at an image that holds
/// `pixels` and has room for `budget`: the new ones are appended in order,
/// and what does not fit is dropped.
pub open spec fn absorb(pixels: Seq<Pixel>, column: Seq<Pixel>, budget: nat) -> Seq<Pixel> {
    if pixels.len() + column.len() <= budget {
        pixels + column
    } else {
        (pixels + column).take(budget as int)
    }
}

/// Collects reduced pixels, in the order in which they arrive, until the
/// barcode's pixel budget (`width * height`) is filled. It never holds more
/// pixels than the budget.
pub struct BarcodeAssembler {
    dimensions: Dimensions,
    budget: usize,
    pixels: Vec<Pixel>,
}

impl View for BarcodeAssembler {
    type V = Seq<Pixel>;

    /// The pixels collected so far, in the order of arrival.
    closed spec fn view(&self) -> Seq<Pixel> {
        self.pixels@
    }
}

impl BarcodeAssembler {
    /// The dimensions of the barcode that is being assembled.
    pub closed spec fn dims(&self) -> Dimensions {
        self.dimensions
    }

    #[verifier::type_invariant]
    spec fn well_formed(&self) -> bool {
        &&& self.dimensions.byte_count() <= usize::MAX
        &&& self.budget == self.dimensions.pixels()
        &&& self.pixels@.len() <= self.budget
    }

    /// An assembler that holds no pixel yet. A barcode whose raw bytes
    /// could not be counted in a machine word is refused.
    pub fn new(dimensions: Dimensions) -> (assembler: Result<BarcodeAssembler, Error>)
        ensures
            match assembler {
                Ok(empty) => {
                    &&& dimensions.byte_count() <= usize::MAX
                    &&& empty.dims() == dimensions
                    &&& empty@ == Seq::<Pixel>::empty()
                },
                Err(error) => {
                    &&& dimensions.byte_count() > usize::MAX
                    &&& error == Error::InvalidInputError
                },
            },
    {
        match (dimensions.byte_len(), dimensions.pixel_count()) {
            (Some(_), Some(budget)) => Ok(
                BarcodeAssembler { dimensions, budget, pixels: Vec::new() },
            ),
            _ => Err(Error::InvalidInputError),
        }
    }

    /// The dimensions of the barcode that is being assembled.
    pub fn dimensions(&self) -> (dimensions: Dimensions)
        ensures
            dimensions == self.dims(),
    {
        self.dimensions
    }

    /// The number of pixels that the barcode has room for.
    pub fn budget(&self) -> (budget: usize)
        ensures
            budget == self.dims().pixels(),
    {
        proof {
            use_type_invariant(self);
        }
        self.budget
    }

    /// The number of pixels collected so far.
    pub fn len(&self) -> (len: usize)
        ensures
            len == self@.len(),
            len <= self.dims().pixels(),
    {
        proof {
            use_type_invariant(self);
        }
        self.pixels.len()
    }

    /// The number of pixels that are still unset.
    pub fn missing(&self) -> (missing: usize)
        ensures
            missing == self.dims().pixels() - self@.len(),
    {
        proof {
            use_type_invariant(self);
        }
        self.budget - self.pixels.len()
    }

    /// Whether the budget is filled, so that nothing more will be taken.
    pub fn is_full(&self) -> (full: bool)
        ensures
            full <==> self@.len() == self.dims().pixels(),
            self@.len() <= self.dims().pixels(),
    {
        proof {
            use_type_invariant(self);
        }
        self.pixels.len() == self.budget
    }

    /// Appends the pixels of one column, in order, as far as the budget
    /// allows, and returns how many were taken. The rest is dropped.
    pub fn accept(&mut self, column: &[Pixel]) -> (taken: usize)
        ensures
            final(self).dims() == old(self).dims(),
            final(self)@ == absorb(old(self)@, column@, old(self).dims().pixels()),
            final(self)@.len() <= final(self).dims().pixels(),
            taken == final(self)@.len() - old(self)@.len(),
    {
        proof {
            use_type_invariant(&*self);
        }
        let room: usize = self.budget - self.pixels.len();
        let taken: usize = if column.len() < room {
            column.len()
        } else {
            room
        };
        let mut pixels: Vec<Pixel> = Vec::new();
        core::mem::swap(&mut pixels, &mut self.pixels);
        let mut i: usize = 0;
        while i < taken
            invariant
                i <= taken,
                taken <= column@.len(),
                pixels@ == old(self).pixels@ + column@.take(i as int),
            decreases taken - i,
        {
            pixels.push(column[i]);
            i = i + 1;
            assert(pixels@ =~= old(self).pixels@ + column@.take(i as int));
        }
        assert(pixels@ =~= absorb(old(self)@, column@, old(self).dims().pixels()));
        core::mem::swap(&mut pixels, &mut self.pixels);
        taken
    }

    /// Ends the assembly. A barcode with unset pixels is never handed out:
    /// it is an error that says how many are missing.
    pub fn finish(self) -> (image: Result<BarcodeImage, Error>)
        ensures
            match image {
                Ok(barcode) => {
                    &&& self@.len() == self.dims().pixels()
                    &&& barcode.dims() == self.dims()
                    &&& barcode@ == self@
                },
                Err(error) => {
                    &&& self@.len() < self.dims().pixels()
                    &&& error == Error::IncompleteBarcodeError {
                        missing: (self.dims().pixels() - self@.len()) as usize,
                    }
                },
            },
    {
        proof {
            use_type_invariant(&self);
        }
        if self.pixels.len() == self.budget {
            Ok(BarcodeImage { dimensions: self.dimensions, pixels: self.pixels })
        } else {
            Err(Error::IncompleteBarcodeError { missing: self.budget - self.pixels.len() })
        }
    }
}

/// A finished barcode: every one of its `width * height` pixels is set.
///
/// The pixels are kept in the order of arrival, which is column after
/// column: the pixel in column `x` and row `y` is the one at index
/// `x * height + y`.
pub struct BarcodeImage {
    dimensions: Dimensions,
    pixels: Vec<Pixel>,
}

impl View for BarcodeImage {
    type V = Seq<Pixel>;

    /// The pixels in the order of arrival, column after column.
    closed spec fn view(&self) -> Seq<Pixel> {
        self.pixels@
    }
}

/// The raw RGB bytes, row after row, of an image whose pixels are given
/// column after column.
pub open spec fn raster(pixels: Seq<Pixel>, dimensions: Dimensions) -> Seq<u8> {
    Seq::new(
        dimensions.byte_count(),
        |k: int|
            {
                let x = (k / 3) % (dimensions.width as int);
                let y = (k / 3) / (dimensions.width as int);
                channel(pixels[x * dimensions.height + y], k % 3)
            },
    )
}

impl BarcodeImage {
    /// The dimensions of the barcode.
    pub closed spec fn dims(&self) -> Dimensions {
        self.dimensions
    }

    #[verifier::type_invariant]
    spec fn well_formed(&self) -> bool {
        &&& self.dimensions.byte_count() <= usize::MAX
        &&& self.pixels@.len() == self.dimensions.pixels()
    }

    /// The pixel in column `x` and row `y`.
    pub open spec fn pixel_at(&self, x: int, y: int) -> Pixel {
        self@[x * self.dims().height + y]
    }

    /// The dimensions of the barcode.
    pub fn dimensions(&self) -> (dimensions: Dimensions)
        ensures
            dimensions == self.dims(),
    {
        self.dimensions
    }

    /// The pixels in the order of arrival, column after column.
    pub fn as_pixels(&self) -> (pixels: &Vec<Pixel>)
        ensures
            pixels@ == self@,
            pixels@.len() == self.dims().pixels(),
    {
        proof {
            use_type_invariant(self);
        }
        &self.pixels
    }

    /// The pixel in column `x` and row `y`, if the barcode has one there.
    pub fn get_pixel(&self, x: u32, y: u32) -> (pixel: Option<Pixel>)
        ensures
            pixel is Some <==> x < self.dims().width && y < self.dims().height,
            pixel is Some ==> pixel->0 == self.pixel_at(x as int, y as int),
    {
        proof {
            use_type_invariant(self);
        }
        if x < self.dimensions.width && y < self.dimensions.height {
            let high: usize = self.dimensions.height as usize;
            proof {
                lemma_cell_in_grid(x as int, y as int, self.dimensions.width as int, high as int);
            }
            Some(self.pixels[x as usize * high + y as usize])
        } else {
            None
        }
    }

    /// The barcode as raw RGB bytes, row after row, three bytes a pixel:
    /// the layout in which image encoders take their input.
    pub fn to_raw(&self) -> (bytes: Vec<u8>)
        ensures
            bytes@ == raster(self@, self.dims()),
            bytes@.len() == self.dims().byte_count(),
    {
        proof {
            use_type_invariant(self);
        }
        let wide: usize = self.dimensions.width as usize;
        let high: usize = self.dimensions.height as usize;
        let mut bytes: Vec<u8> = Vec::new();
        let mut y: usize = 0;
        while y < high
            invariant
                y <= high,
                wide == self.dimensions.width,
                high == self.dimensions.height,
                self.dimensions.byte_count() <= usize::MAX,
                self.pixels@.len() == self.dimensions.pixels(),
                bytes@.len() == y * wide * 3,
                forall|k: int|
                    0 <= k < bytes@.len() ==> bytes@[k] == raster(self@, self.dims())[k],
            decreases high - y,
        {
            let mut x: usize = 0;
            while x < wide
                invariant
                    x <= wide,
                    y < high,
                    wide == self.dimensions.width,
                    high == self.dimensions.height,
                    self.dimensions.byte_count() <= usize::MAX,
                    self.pixels@.len() == self.dimensions.pixels(),
                    bytes@.len() == (y * wide + x) * 3,
                    forall|k: int|
                        0 <= k < bytes@.len() ==> bytes@[k] == raster(self@, self.dims())[k],
                decreases wide - x,
            {
                proof {
                    lemma_cell_in_grid(y as int, x as int, high as int, wide as int);
                    lemma_cell_in_grid(x as int, y as int, wide as int, high as int);
                    assert(self.dimensions.width * self.dimensions.height == high * wide)
                        by (nonlinear_arith)
                        requires
                            wide == self.dimensions.width,
                            high == self.dimensions.height,
                    ;
                    assert(wide * high == high * wide) by (nonlinear_arith);
                }
                let pixel: Pixel = self.pixels[x * high + y];
                let ghost cell: int = y * wide + x;
                proof {
                    vstd::arithmetic::div_mod::lemma_fundamental_div_mod_converse(
                        cell,
                        wide as int,
                        y as int,
                        x as int,
                    );
                }
                bytes.push(pixel.r);
                bytes.push(pixel.g);
                bytes.push(pixel.b);
                x = x + 1;
                assert(bytes@.len() == (y * wide + x) * 3);
                assert forall|k: int| 0 <= k < bytes@.len() implies bytes@[k] == raster(
                    self@,
                    self.dims(),
                )[k] by {
                    if k >= 3 * cell {
                        assert(k / 3 == cell);
                    }
                }
            }
            assert((y + 1) * wide * 3 == (y * wide + wide) * 3) by (nonlinear_arith);
            y = y + 1;
        }
        assert(high * wide * 3 == self.dimensions.byte_count()) by (nonlinear_arith)
            requires
                wide == self.dimensions.width,
                high == self.dimensions.height,
                self.dimensions.byte_count() == self.dimensions.width * self.dimensions.height * 3,
        ;
        assert(bytes@ =~= raster(self@, self.dims()));
        bytes
    }
}

/// Where the pixels of a barcode lie in its raw bytes: the pixel in column
/// `x` and row `y`, which arrived as number `x * height + y`, takes the
/// three bytes from `(y * width + x) * 3` on, one for each channel.
pub proof fn lemma_raster_layout(pixels: Seq<Pixel>, dimensions: Dimensions, x: int, y: int, c: int)
    requires
        0 <= x < dimensions.width,
        0 <= y < dimensions.height,
        0 <= c < 3,
    ensures
        0 <= (y * dimensions.width + x) * 3 + c < raster(pixels, dimensions).len(),
        raster(pixels, dimensions)[(y * dimensions.width + x) * 3 + c] == channel(
            pixels[x * dimensions.height + y],
            c,
        ),
{
    let width = dimensions.width as int;
    let height = dimensions.height as int;
    let cell = y * width + x;
    lemma_cell_in_grid(y, x, height, width);
    assert(width * height == height * width) by (nonlinear_arith);
    vstd::arithmetic::div_mod::lemma_fundamental_div_mod_converse(cell, width, y, x);
    assert((cell * 3 + c) / 3 == cell);
    assert((cell * 3 + c) % 3 == c);
}

/// Where a pixel lands by its place in the order of arrival: number `i` is
/// the pixel in column `i / height` and row `i % height`, so that each
/// frame's pixels run down one column and the frames follow one another
/// from left to right.
pub proof fn lemma_arrival_position(image: BarcodeImage, i: int)
    requires
        0 <= i < image@.len(),
        image@.len() == image.dims().pixels(),
    ensures
        image.dims().height > 0,
        0 <= i / (image.dims().height as int) < image.dims().width,
        image.pixel_at(i / (image.dims().height as int), i % (image.dims().height as int))
            == image@[i],
{
    let width = image.dims().width as int;
    let height = image.dims().height as int;
    assert(height > 0) by (nonlinear_arith)
        requires
            0 <= i < width * height,
            width >= 0,
            height >= 0,
    ;
    vstd::arithmetic::div_mod::lemma_fundamental_div_mod(i, height);
    let column = i / height;
    let row = i % height;
    assert(height * column == column * height) by (nonlinear_arith);
    assert(column < width) by (nonlinear_arith)
        requires
            column * height + row < width * height,
            0 <= row,
            height > 0,
    ;
    assert(0 <= column) by (nonlinear_arith)
        requires
            column * height + row >= 0,
            row < height,
            height > 0,
    ;
}

/// A cell of a grid, counted row after row, lies within the grid.
proof fn lemma_cell_in_grid(row: int, column: int, rows: int, columns: int)
    requires
        0 <= row < rows,
        0 <= column < columns,
    ensures
        0 <= row * columns + column < rows * columns,
        row * columns + column + 1 <= rows * columns,
{
    assert(row * columns + columns <= rows * columns) by (nonlinear_arith)
        requires
            row + 1 <= rows,
            columns > 0,
    ;
    assert(0 <= row * columns) by (nonlinear_arith)
        requires
            0 <= row,
            0 <= columns,
    ;
}

} // verus!
