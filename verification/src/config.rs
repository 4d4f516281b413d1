use crate::error::Error;
use vstd::prelude::*;

verus! {

/// What a run is asked to do.
pub struct Config {
    /// The video to read.
    pub input_file_path: String,
    /// The image to write.
    pub output_file_path: String,
    /// Simple mode: one colour for each frame. Otherwise blended mode: one
    /// colour for each row of each frame.
    pub is_simple: bool,
}

impl Config {
    /// Puts the options of the command line together. Both paths have to
    /// be there; where both are missing, the input path is the one that is
    /// reported.
    pub fn from_options(
        input_path: Option<String>,
        output_path: Option<String>,
        is_simple: bool,
    ) -> (config: Result<Config, Error>)
        ensures
            match config {
                Ok(options) => {
                    &&& input_path == Some(options.input_file_path)
                    &&& output_path == Some(options.output_file_path)
                    &&& options.is_simple == is_simple
                },
                Err(error) => {
                    if input_path is None {
                        error == Error::InputPathOptionMissingError
                    } else {
                        output_path is None && error == Error::OutputPathOptionMissingError
                    }
                },
            },
    {
        let input_file_path: String = match input_path {
            Some(path) => path,
            None => {
                return Err(Error::InputPathOptionMissingError);
            },
        };
        let output_file_path: String = match output_path {
            Some(path) => path,
            None => {
                return Err(Error::OutputPathOptionMissingError);
            },
        };
        Ok(Config { input_file_path, output_file_path, is_simple })
    }
}

} // verus!
