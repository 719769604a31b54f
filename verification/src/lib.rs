//! Extraction of printable text runs from binary data, in the manner of the
//! command `strings`.
//!
//! A pass reads the bytes once. One state machine per encoding follows the
//! bytes and reports each run that reaches the minimum length to a sink: an
//! in-memory collector or a streaming JSON writer.
//!
//! ```
//! use rust_strings::{dump_strings, strings, BytesConfig, Encoding};
//!
//! let config = BytesConfig::new(b"test\x00".to_vec());
//! let extracted_strings = strings(&config);
//! assert_eq!(vec![(String::from("test"), 0)], extracted_strings.unwrap());
//!
//! // Two-byte little-endian strings of at least five units.
//! let config = BytesConfig::new(b"w\x00i\x00d\x00e\x00r\x00".to_vec())
//!     .with_min_length(5)
//!     .with_encoding(Encoding::UTF16LE);
//! assert_eq!(vec![(String::from("wider"), 0)], strings(&config).unwrap());
//!
//! // The same as a JSON array, written to a buffer.
//! let json = dump_strings(&config, Vec::new()).unwrap();
//! assert_eq!(json, b"[[\"wider\",0]]".to_vec());
//! ```
//!
//! The modules `runs`, `sharing` and `laws` hold no code that runs: they say
//! what a run is and prove what holds of every pass.

use vstd::prelude::*;

pub mod encodings;
pub mod laws;
pub mod runs;
pub mod sharing;
pub mod strings;
pub mod strings_extractor;
pub mod strings_writer;

pub use encodings::{Encoding, EncodingNotFoundError};
pub use strings::{dump_strings, strings, BytesConfig, Config, Extraction, FileConfig};
pub use strings_writer::{ByteSink, JsonWriter, Output, Recorded, StringWriter, VectorWriter};

verus! {

/// Why a pass was given up.
#[derive(Debug)]
pub enum StringsError {
    /// The byte source could not be read; the text says why.
    Source(String),
    /// The sink could not be written; the text says why.
    Sink(String),
}

impl StringsError {
    /// The text of this error.
    pub open spec fn text(&self) -> Seq<char> {
        match self {
            StringsError::Source(why) => why@,
            StringsError::Sink(why) => why@,
        }
    }

    /// Why the pass was given up, in words.
    pub fn to_string(&self) -> (r: String)
        ensures
            r@ == self.text(),
    {
        match self {
            StringsError::Source(why) => why.clone(),
            StringsError::Sink(why) => why.clone(),
        }
    }
}

/// What a step of a pass returns: nothing, or why the pass was given up.
pub type ErrorResult = Result<(), StringsError>;

} // verus!
