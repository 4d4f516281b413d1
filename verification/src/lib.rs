//! Turns the raw RGB frames of a video into a barcode image: one column of
//! averaged colour per sampled frame.
//!
//! The crate holds the part of that pipeline that computes: cutting a byte
//! stream into frames, reducing a frame to averaged pixels, and assembling
//! the pixels into the final grid. Starting processes and writing files is
//! left to the caller.

pub mod barcode;
pub mod buffer;
pub mod codec;
pub mod config;
pub mod dimensions;
pub mod error;
pub mod ffmpeg;
pub mod frame;
pub mod pixel;
pub mod ripper;

pub use barcode::{BarcodeAssembler, BarcodeImage};
pub use codec::VideoFrameCodec;
pub use config::Config;
pub use dimensions::Dimensions;
pub use error::Error;
pub use frame::FrameBuffer;
pub use pixel::Pixel;
pub use ripper::{Demand, Ripper};
