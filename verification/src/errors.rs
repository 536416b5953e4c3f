//! The ways in which hiding or extracting a file is refused.
use vstd::prelude::*;

verus! {

/// Why an operation was refused. Each refusal is made before anything is
/// changed.
#[derive(Debug, Clone, Copy, PartialEq, Eq)]
pub enum SteganerError {
    /// The name of the host file has no extension.
    NoExtension,
    /// The host is not a lossless image that this library takes: its
    /// extension is not one of the supported ones, or its pixels are not 8-bit
    /// RGB or RGBA, or it has more pixels than can be numbered.
    UnsupportedFormat,
    /// The host image is too small for what has to be hidden in it.
    CapacityExceeded,
    /// The file to hide is too long for its length to be recorded, or for
    /// its chunks to be numbered.
    SizeOverflow,
}

impl SteganerError {
    /// The text of each message.
    pub open spec fn message(&self) -> Seq<char> {
        match self {
            SteganerError::NoExtension => {
                "Error: host file has no extension to check it is supported."@
            },
            SteganerError::UnsupportedFormat => "Image type not supported."@,
            SteganerError::CapacityExceeded => {
                "File to be hidden is too big for this host image."@
            },
            SteganerError::SizeOverflow => "File to hide is too big. Maximum size is 4294967295"@,
        }
    }

    /// A message for the user.
    pub fn description(&self) -> (text: String)
        ensures
            text@ == self.message(),
    {
        match self {
            SteganerError::NoExtension => String::from_str(
                "Error: host file has no extension to check it is supported.",
            ),
            SteganerError::UnsupportedFormat => String::from_str("Image type not supported."),
            SteganerError::CapacityExceeded => String::from_str(
                "File to be hidden is too big for this host image.",
            ),
            SteganerError::SizeOverflow => String::from_str(
                "File to hide is too big. Maximum size is 4294967295",
            ),
        }
    }
}

} // verus!
