use vstd::prelude::*;

verus! {

/// Everything that can stop a run of the pipeline.
#[derive(Clone, Copy, Debug, PartialEq, Eq, Structural)]
pub enum Error {
    /// No input path was given.
    InputPathOptionMissingError,
    /// No output path was given.
    OutputPathOptionMissingError,
    /// Dimensions that are zero, or too large for this machine.
    InvalidInputError,
    /// The prober's line is not of the form `<width>x<height>`.
    ParseDimensionsError,
    /// A frame of `width` by `height` pixels was to be built from `actual`
    /// bytes, which is not three bytes a pixel.
    FrameBufferError { width: u32, height: u32, actual: usize },
    /// An average over no pixels was asked for.
    EmptyFrameError,
    /// The stream ended while `missing` pixels of the barcode were unset.
    IncompleteBarcodeError { missing: usize },
}

} // verus!
