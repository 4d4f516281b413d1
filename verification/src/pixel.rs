use crate::dimensions::Dimensions;
use crate::error::Error;
use crate::frame::FrameBuffer;
use vstd::arithmetic::div_mod::lemma_fundamental_div_mod_converse;
use vstd::prelude::*;
use vstd::slice::slice_subrange;

verus! {

/// One RGB pixel, eight bits a channel.
#[derive(Clone, Copy, Debug, PartialEq, Eq, Structural)]
pub struct Pixel {
    pub r: u8,
    pub g: u8,
    pub b: u8,
}

/// Largest square of a channel value.
pub const MAX_SQUARE: u128 = 65025;

/// Channel `c` of a pixel: 0 is red, 1 is green, anything else is blue.
pub open spec fn channel(pixel: Pixel, c: int) -> u8 {
    if c == 0 {
        pixel.r
    } else if c == 1 {
        pixel.g
    } else {
        pixel.b
    }
}

/// Sum, over the pixels, of the square of channel `c`.
pub open spec fn square_sum(pixels: Seq<Pixel>, c: int) -> nat
    decreases pixels.len(),
{
    if pixels.len() == 0 {
        0
    } else {
        let value = channel(pixels.last(), c) as nat;
        square_sum(pixels.drop_last(), c) + value * value
    }
}

/// `4 * sum < (2 * root + 1)^2 * count`: the square root of `sum / count`
/// lies below `root + 1/2`.
pub open spec fn root_below_next_half(root: nat, sum: nat, count: nat) -> bool {
    4 * sum < (2 * root + 1) * (2 * root + 1) * count
}

/// `root` is the square root of `sum / count`, rounded to the nearest
/// integer with halves rounded up:
/// `root - 1/2 <= sqrt(sum / count) < root + 1/2`, written over integers.
pub open spec fn is_rounded_root(root: nat, sum: nat, count: nat) -> bool {
    &&& count > 0
    &&& root == 0 || !root_below_next_half((root - 1) as nat, sum, count)
    &&& root_below_next_half(root, sum, count)
}

/// The square root of `sum / count`, rounded to the nearest integer.
pub open spec fn rounded_root(sum: nat, count: nat) -> nat {
    choose|root: nat| is_rounded_root(root, sum, count)
}

/// Quadratic mean of channel `c` over the pixels, rounded.
pub open spec fn quadratic_mean(pixels: Seq<Pixel>, c: int) -> nat {
    rounded_root(square_sum(pixels, c), pixels.len())
}

/// The pixel whose channels are the quadratic means of the pixels' channels.
pub open spec fn mean_pixel(pixels: Seq<Pixel>) -> Pixel {
    Pixel {
        r: quadratic_mean(pixels, 0) as u8,
        g: quadratic_mean(pixels, 1) as u8,
        b: quadratic_mean(pixels, 2) as u8,
    }
}

/// The bound of `root_below_next_half` grows with the root.
proof fn lemma_half_steps_grow(low: nat, high: nat, count: nat)
    requires
        low <= high,
    ensures
        (2 * low + 1) * (2 * low + 1) * count <= (2 * high + 1) * (2 * high + 1) * count,
{
    assert((2 * low + 1) * (2 * low + 1) <= (2 * high + 1) * (2 * high + 1)) by (nonlinear_arith)
        requires
            low <= high,
    ;
    assert((2 * low + 1) * (2 * low + 1) * count <= (2 * high + 1) * (2 * high + 1) * count)
        by (nonlinear_arith)
        requires
            (2 * low + 1) * (2 * low + 1) <= (2 * high + 1) * (2 * high + 1),
    ;
}

/// At most one number is the rounded root of a quotient.
pub proof fn lemma_rounded_root_unique(first: nat, second: nat, sum: nat, count: nat)
    requires
        is_rounded_root(first, sum, count),
        is_rounded_root(second, sum, count),
    ensures
        first == second,
{
    if first < second {
        lemma_half_steps_grow(first, (second - 1) as nat, count);
    } else if second < first {
        lemma_half_steps_grow(second, (first - 1) as nat, count);
    }
}

/// A number that meets `is_rounded_root` is the rounded root.
pub proof fn lemma_rounded_root_is(root: nat, sum: nat, count: nat)
    requires
        is_rounded_root(root, sum, count),
    ensures
        rounded_root(sum, count) == root,
{
    lemma_rounded_root_unique(root, rounded_root(sum, count), sum, count);
}

/// A sum over part of a sequence, extended by the next pixel.
proof fn lemma_square_sum_step(pixels: Seq<Pixel>, i: int, c: int)
    requires
        0 <= i < pixels.len(),
    ensures
        square_sum(pixels.take(i + 1), c) == square_sum(pixels.take(i), c) + (channel(
            pixels[i],
            c,
        ) as nat) * (channel(pixels[i], c) as nat),
{
    assert(pixels.take(i + 1).drop_last() =~= pixels.take(i));
}

/// No square exceeds `MAX_SQUARE`, so no sum exceeds that many times the
/// number of pixels.
pub proof fn lemma_square_sum_bound(pixels: Seq<Pixel>, c: int)
    ensures
        square_sum(pixels, c) <= MAX_SQUARE * pixels.len(),
    decreases pixels.len(),
{
    if pixels.len() > 0 {
        lemma_square_sum_bound(pixels.drop_last(), c);
        let value = channel(pixels.last(), c) as nat;
        assert(value * value <= 65025) by (nonlinear_arith)
            requires
                value <= 255,
        ;
    }
}

/// The least root from `start` on whose next half step lies above the mean.
spec fn least_root(start: nat, sum: nat, count: nat) -> nat
    decreases 255 - start,
{
    if start >= 255 || root_below_next_half(start, sum, count) {
        start
    } else {
        least_root(start + 1, sum, count)
    }
}

/// Among the roots up to 255 there is a rounded root of every mean of
/// squares of bytes: the least one whose next half step lies above the
/// mean.
proof fn lemma_least_root(start: nat, sum: nat, count: nat)
    requires
        count > 0,
        sum <= MAX_SQUARE * count,
        start <= 255,
        start == 0 || !root_below_next_half((start - 1) as nat, sum, count),
    ensures
        least_root(start, sum, count) <= 255,
        is_rounded_root(least_root(start, sum, count), sum, count),
    decreases 255 - start,
{
    if start >= 255 {
        assert(root_below_next_half(255, sum, count)) by (nonlinear_arith)
            requires
                count > 0,
                sum <= 65025 * count,
        ;
    } else if root_below_next_half(start, sum, count) {
    } else {
        lemma_least_root(start + 1, sum, count);
    }
}

/// Every channel of the mean of a non-empty sequence is the rounded root of
/// that channel's mean square, and fits a byte.
pub proof fn lemma_mean_pixel_is_rounded_root(pixels: Seq<Pixel>, c: int)
    requires
        pixels.len() > 0,
        0 <= c < 3,
    ensures
        quadratic_mean(pixels, c) <= 255,
        channel(mean_pixel(pixels), c) == quadratic_mean(pixels, c),
        is_rounded_root(quadratic_mean(pixels, c), square_sum(pixels, c), pixels.len()),
{
    let sum = square_sum(pixels, c);
    let count = pixels.len();
    lemma_square_sum_bound(pixels, c);
    let least = least_root(0, sum, count);
    lemma_least_root(0, sum, count);
    lemma_rounded_root_is(least, sum, count);
}

/// The rounded root of `sum / count`, for a sum of `count` squares of bytes.
fn rounded_root_of(sum: u128, count: u128) -> (root: u8)
    requires
        count > 0,
        count <= u64::MAX,
        sum <= MAX_SQUARE * count,
    ensures
        is_rounded_root(root as nat, sum as nat, count as nat),
{
    let mut low: u128 = 0;
    let mut high: u128 = 255;
    assert(root_below_next_half(255, sum as nat, count as nat)) by (nonlinear_arith)
        requires
            count > 0,
            sum <= 65025 * count,
    ;
    while low < high
        invariant
            low <= high <= 255,
            count > 0,
            count <= u64::MAX,
            sum <= MAX_SQUARE * count,
            root_below_next_half(high as nat, sum as nat, count as nat),
            low == 0 || !root_below_next_half((low - 1) as nat, sum as nat, count as nat),
        decreases high - low,
    {
        let middle: u128 = (low + high) / 2;
        let side: u128 = 2 * middle + 1;
        assert(side * side <= 261121) by (nonlinear_arith)
            requires
                side <= 511,
        ;
        assert(side * side * count <= 261121 * 0xFFFF_FFFF_FFFF_FFFF) by (nonlinear_arith)
            requires
                side * side <= 261121,
                count <= 0xFFFF_FFFF_FFFF_FFFF,
        ;
        assert(sum <= 65025 * 0xFFFF_FFFF_FFFF_FFFF) by (nonlinear_arith)
            requires
                sum <= 65025 * count,
                count <= 0xFFFF_FFFF_FFFF_FFFF,
        ;
        if 4 * sum < side * side * count {
            high = middle;
        } else {
            low = middle + 1;
        }
    }
    low as u8
}

/// Whether every one of the pixels has the given colour.
pub open spec fn is_uniform(pixels: Seq<Pixel>, colour: Pixel) -> bool {
    forall|i: int| 0 <= i < pixels.len() ==> pixels[i] == colour
}

/// The squares of pixels of one colour add up to as many times one square.
proof fn lemma_uniform_square_sum(pixels: Seq<Pixel>, colour: Pixel, c: int)
    requires
        is_uniform(pixels, colour),
    ensures
        square_sum(pixels, c) == pixels.len() * ((channel(colour, c) as nat) * (channel(
            colour,
            c,
        ) as nat)),
    decreases pixels.len(),
{
    if pixels.len() > 0 {
        lemma_uniform_square_sum(pixels.drop_last(), colour, c);
        let square = (channel(colour, c) as nat) * (channel(colour, c) as nat);
        assert(pixels.len() * square == (pixels.len() - 1) * square + square)
            by (nonlinear_arith);
    }
}

/// The mean of pixels that all have one colour is that colour, unchanged.
pub proof fn lemma_uniform_mean(pixels: Seq<Pixel>, colour: Pixel)
    requires
        pixels.len() > 0,
        is_uniform(pixels, colour),
    ensures
        mean_pixel(pixels) == colour,
{
    let count = pixels.len();
    assert forall|c: int| 0 <= c < 3 implies quadratic_mean(pixels, c) == channel(colour, c) by {
        let value = channel(colour, c) as nat;
        lemma_uniform_square_sum(pixels, colour, c);
        assert(4 * (count * (value * value)) < (2 * value + 1) * (2 * value + 1) * count)
            by (nonlinear_arith)
            requires
                count > 0,
        ;
        if value > 0 {
            assert((2 * (value - 1) + 1) * (2 * (value - 1) + 1) * count <= 4 * (count * (value
                * value))) by (nonlinear_arith)
                requires
                    count > 0,
                    value > 0,
            ;
        }
        lemma_rounded_root_is(value, square_sum(pixels, c), count);
    }
    assert(quadratic_mean(pixels, 0) == channel(colour, 0));
    assert(quadratic_mean(pixels, 1) == channel(colour, 1));
    assert(quadratic_mean(pixels, 2) == channel(colour, 2));
}

/// The mean of at least one pixel.
fn mean_of(pixels: &[Pixel]) -> (average: Pixel)
    requires
        pixels@.len() > 0,
    ensures
        average == mean_pixel(pixels@),
{
    let count: usize = pixels.len();
    let mut red: u128 = 0;
    let mut green: u128 = 0;
    let mut blue: u128 = 0;
    let mut i: usize = 0;
    while i < count
        invariant
            i <= count,
            count == pixels@.len(),
            red == square_sum(pixels@.take(i as int), 0),
            green == square_sum(pixels@.take(i as int), 1),
            blue == square_sum(pixels@.take(i as int), 2),
            red <= MAX_SQUARE * i,
            green <= MAX_SQUARE * i,
            blue <= MAX_SQUARE * i,
        decreases count - i,
    {
        let pixel: Pixel = pixels[i];
        let r: u128 = pixel.r as u128;
        let g: u128 = pixel.g as u128;
        let b: u128 = pixel.b as u128;
        proof {
            lemma_square_sum_step(pixels@, i as int, 0);
            lemma_square_sum_step(pixels@, i as int, 1);
            lemma_square_sum_step(pixels@, i as int, 2);
            assert(r * r <= 65025 && g * g <= 65025 && b * b <= 65025) by (nonlinear_arith)
                requires
                    r <= 255,
                    g <= 255,
                    b <= 255,
            ;
        }
        red = red + r * r;
        green = green + g * g;
        blue = blue + b * b;
        i = i + 1;
    }
    assert(pixels@.take(count as int) =~= pixels@);
    let r: u8 = rounded_root_of(red, count as u128);
    let g: u8 = rounded_root_of(green, count as u128);
    let b: u8 = rounded_root_of(blue, count as u128);
    proof {
        lemma_rounded_root_is(r as nat, red as nat, count as nat);
        lemma_rounded_root_is(g as nat, green as nat, count as nat);
        lemma_rounded_root_is(b as nat, blue as nat, count as nat);
    }
    Pixel { r, g, b }
}

/// Averages the pixels: each channel of the result is the quadratic mean
/// (the root of the mean of the squares) of that channel, rounded to the
/// nearest integer. The rounding is exact: the mean is compared with the
/// half steps between integers over whole numbers, not computed in floating
/// point. There is no average of no pixels.
pub fn get_avg_pixel_color(pixels: &[Pixel]) -> (average: Result<Pixel, Error>)
    ensures
        match average {
            Ok(pixel) => pixels@.len() > 0 && pixel == mean_pixel(pixels@),
            Err(error) => pixels@.len() == 0 && error == Error::EmptyFrameError,
        },
        pixels@.len() > 0 && is_uniform(pixels@, pixels@[0]) ==> average == Ok::<Pixel, Error>(
            pixels@[0],
        ),
{
    if pixels.len() == 0 {
        Err(Error::EmptyFrameError)
    } else {
        proof {
            if is_uniform(pixels@, pixels@[0]) {
                lemma_uniform_mean(pixels@, pixels@[0]);
            }
        }
        Ok(mean_of(pixels))
    }
}

/// What simple mode makes of a frame: its mean colour, `height` times.
pub open spec fn simple_column(pixels: Seq<Pixel>, height: nat) -> Seq<Pixel> {
    Seq::new(height, |i: int| mean_pixel(pixels))
}

/// Reduces a whole frame to its mean colour and repeats that colour once
/// for each row of a barcode of the given dimensions. A frame without
/// pixels has no mean colour.
pub fn get_simple_col_average_pixels(buf: FrameBuffer, dimensions: &Dimensions) -> (column: Result<
    Vec<Pixel>,
    Error,
>)
    ensures
        match column {
            Ok(pixels) => {
                &&& buf@.len() > 0
                &&& pixels@ == simple_column(buf@, dimensions.height as nat)
                &&& pixels@.len() == dimensions.height
                &&& forall|i: int| 0 <= i < pixels@.len() ==> pixels@[i] == mean_pixel(buf@)
                &&& forall|i: int, j: int|
                    0 <= i < pixels@.len() && 0 <= j < pixels@.len() ==> pixels@[i] == pixels@[j]
            },
            Err(error) => buf@.len() == 0 && error == Error::EmptyFrameError,
        },
{
    let pixels: Vec<Pixel> = buf.pixels();
    if pixels.len() == 0 {
        return Err(Error::EmptyFrameError);
    }
    let average: Pixel = mean_of(pixels.as_slice());
    let height: usize = dimensions.height as usize;
    let mut column: Vec<Pixel> = Vec::new();
    let mut i: usize = 0;
    while i < height
        invariant
            i <= height,
            column@ == simple_column(buf@, i as nat),
            average == mean_pixel(buf@),
        decreases height - i,
    {
        column.push(average);
        i = i + 1;
        assert(column@ =~= simple_column(buf@, i as nat));
    }
    Ok(column)
}

/// Number of chunks of `width` pixels that `len` pixels are cut into, the
/// last of which may be shorter.
pub open spec fn chunk_count(len: nat, width: nat) -> nat {
    if width == 0 {
        0
    } else {
        ((len + width - 1) / (width as int)) as nat
    }
}

/// Chunk `i` of the pixels: `width` of them from `i * width` on, or as many
/// as are left.
pub open spec fn chunk(pixels: Seq<Pixel>, width: nat, i: int) -> Seq<Pixel> {
    let end = if (i + 1) * width <= pixels.len() {
        (i + 1) * width
    } else {
        pixels.len() as int
    };
    pixels.subrange(i * width, end)
}

/// What blended mode makes of a frame: the mean colour of each chunk of
/// `width` pixels, in order.
pub open spec fn blended_column(pixels: Seq<Pixel>, width: nat) -> Seq<Pixel> {
    Seq::new(chunk_count(pixels.len(), width), |i: int| mean_pixel(chunk(pixels, width, i)))
}

/// Cuts the frame's pixels, row after row, into chunks as wide as the given
/// dimensions and reduces each chunk to its mean colour. With the frame's
/// own dimensions that is one pixel for each row. A width of zero leaves
/// nothing to average.
pub fn get_blended_col_average_pixels(buf: FrameBuffer, dimensions: &Dimensions) -> (column:
    Result<Vec<Pixel>, Error>)
    ensures
        match column {
            Ok(pixels) => {
                &&& dimensions.width > 0
                &&& pixels@ == blended_column(buf@, dimensions.width as nat)
                &&& *dimensions == buf.dims() ==> {
                    &&& pixels@.len() == dimensions.height
                    &&& forall|row: int|
                        0 <= row < dimensions.height ==> #[trigger] pixels@[row] == mean_pixel(
                            buf@.subrange(row * dimensions.width, (row + 1) * dimensions.width),
                        )
                }
            },
            Err(error) => dimensions.width == 0 && error == Error::EmptyFrameError,
        },
{
    if dimensions.width == 0 {
        return Err(Error::EmptyFrameError);
    }
    let pixels: Vec<Pixel> = buf.pixels();
    proof {
        if *dimensions == buf.dims() {
            lemma_blended_column_by_rows(buf@, *dimensions);
        }
    }
    let total: usize = pixels.len();
    let width: usize = dimensions.width as usize;
    let mut column: Vec<Pixel> = Vec::new();
    let mut start: usize = 0;
    proof {
        if total == 0 {
            lemma_fundamental_div_mod_converse(width as int - 1, width as int, 0, width as int - 1);
        }
    }
    while start < total
        invariant
            width > 0,
            total == pixels@.len(),
            pixels@ == buf@,
            start <= total,
            start < total ==> start == column@.len() * width,
            start == total ==> column@.len() == chunk_count(total as nat, width as nat),
            forall|j: int|
                0 <= j < column@.len() ==> column@[j] == mean_pixel(
                    chunk(pixels@, width as nat, j),
                ),
        decreases total - start,
    {
        let done: Ghost<int> = Ghost(column@.len() as int);
        let end: usize = if total - start < width {
            total
        } else {
            start + width
        };
        proof {
            assert((done@ + 1) * width == done@ * width + width) by (nonlinear_arith);
            assert(pixels@.subrange(start as int, end as int) == chunk(
                pixels@,
                width as nat,
                done@,
            ));
            if end == total {
                lemma_fundamental_div_mod_converse(
                    total + width - 1,
                    width as int,
                    done@ + 1,
                    total - 1 - start,
                );
            }
        }
        let average: Pixel = mean_of(slice_subrange(pixels.as_slice(), start, end));
        column.push(average);
        start = end;
    }
    assert(column@ =~= blended_column(buf@, width as nat));
    Ok(column)
}

/// Blended mode, given a frame's own dimensions, yields one pixel for each
/// row of the frame, and that pixel is the mean of that row's pixels alone.
pub proof fn lemma_blended_column_by_rows(pixels: Seq<Pixel>, dimensions: Dimensions)
    requires
        dimensions.width > 0,
        pixels.len() == dimensions.pixels(),
    ensures
        blended_column(pixels, dimensions.width as nat).len() == dimensions.height,
        forall|row: int|
            0 <= row < dimensions.height ==> #[trigger] blended_column(
                pixels,
                dimensions.width as nat,
            )[row] == mean_pixel(
                pixels.subrange(row * dimensions.width, (row + 1) * dimensions.width),
            ),
{
    let width = dimensions.width as int;
    let height = dimensions.height as int;
    assert(pixels.len() == height * width) by (nonlinear_arith)
        requires
            pixels.len() == width * height,
    ;
    lemma_fundamental_div_mod_converse(height * width + width - 1, width, height, width - 1);
    assert(chunk_count(pixels.len(), width as nat) == height);
    assert forall|row: int| 0 <= row < height implies #[trigger] blended_column(
        pixels,
        dimensions.width as nat,
    )[row] == mean_pixel(pixels.subrange(row * width, (row + 1) * width)) by {
        assert((row + 1) * width <= height * width) by (nonlinear_arith)
            requires
                row + 1 <= height,
                width > 0,
        ;
    }
}

} // verus!
