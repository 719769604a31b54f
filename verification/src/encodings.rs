//! The encodings a pass can look for, and their names.

use vstd::prelude::*;
use vstd::string::StringExecFns;

verus! {

/// How the units of a run are laid out in the bytes: one byte per unit, or
/// two bytes per unit with the null byte second (little-endian) or first
/// (big-endian).
#[derive(Debug, Copy, Clone, PartialEq, Eq, Structural)]
pub enum Encoding {
    ASCII,
    UTF16LE,
    UTF16BE,
}

/// A name in lower case, as the standard library makes it.
pub uninterp spec fn lowercased(name: Seq<char>) -> Seq<char>;

/// `str::to_lowercase` returns the lower-case form of its argument; the
/// result depends on the argument alone.
pub assume_specification[ str::to_lowercase ](s: &str) -> (r: String)
    ensures
        r@ == lowercased(s@),
;

/// Text between quotation marks with its special characters escaped, as the
/// standard library prints a string for debugging.
pub uninterp spec fn quoted(text: Seq<char>) -> Seq<char>;

/// `format!("{:?}", ..)` of a string gives its quoted form; the result
/// depends on the string alone.
#[verifier::external_body]
fn debug_quoted(text: &String) -> (r: String)
    ensures
        r@ == quoted(text@),
{
    format!("{:?}", text)
}

/// The encoding that a lower-case name stands for. `utf8` and `utf-8` stand
/// for the one-byte encoding.
pub open spec fn named(name: Seq<char>) -> Option<Encoding> {
    if name == "utf-16le"@ {
        Some(Encoding::UTF16LE)
    } else if name == "utf-16be"@ {
        Some(Encoding::UTF16BE)
    } else if name == "ascii"@ || name == "utf8"@ || name == "utf-8"@ {
        Some(Encoding::ASCII)
    } else {
        None
    }
}

/// The name of an encoding.
pub open spec fn name_of(encoding: Encoding) -> Seq<char> {
    match encoding {
        Encoding::ASCII => "ASCII"@,
        Encoding::UTF16LE => "UTF16LE"@,
        Encoding::UTF16BE => "UTF16BE"@,
    }
}

/// A name that stands for no encoding.
#[derive(Debug)]
pub struct EncodingNotFoundError {
    encoding: String,
}

impl View for EncodingNotFoundError {
    type V = Seq<char>;

    /// The name that was not found.
    closed spec fn view(&self) -> Seq<char> {
        self.encoding@
    }
}

impl EncodingNotFoundError {
    /// The error for a name that stands for no encoding.
    fn new(encoding: String) -> (r: Self)
        ensures
            r@ == encoding@,
    {
        EncodingNotFoundError { encoding }
    }

    /// The message of this error: `Encoding not found: ` and the name in
    /// quotation marks.
    pub fn to_string(&self) -> (r: String)
        ensures
            r@ == "Encoding not found: "@ + quoted(self@),
    {
        let name = debug_quoted(&self.encoding);
        "Encoding not found: ".to_owned().concat(name.as_str())
    }
}

impl Encoding {
    /// The name of this encoding, as it is written in the program.
    pub fn to_string(&self) -> (r: String)
        ensures
            r@ == name_of(*self),
    {
        match self {
            Encoding::ASCII => "ASCII".to_owned(),
            Encoding::UTF16LE => "UTF16LE".to_owned(),
            Encoding::UTF16BE => "UTF16BE".to_owned(),
        }
    }

    /// The encoding that the lower-case name `encoding` stands for, or the
    /// name back in an error.
    pub fn from_lowercase(encoding: String) -> (r: Result<Encoding, EncodingNotFoundError>)
        ensures
            match named(encoding@) {
                Some(found) => r == Ok::<Encoding, EncodingNotFoundError>(found),
                None => r is Err && r->Err_0@ == encoding@,
            },
    {
        if encoding == "utf-16le".to_owned() {
            Ok(Encoding::UTF16LE)
        } else if encoding == "utf-16be".to_owned() {
            Ok(Encoding::UTF16BE)
        } else if encoding == "ascii".to_owned() || encoding == "utf8".to_owned() || encoding
            == "utf-8".to_owned() {
            Ok(Encoding::ASCII)
        } else {
            Err(EncodingNotFoundError::new(encoding))
        }
    }
}

impl core::str::FromStr for Encoding {
    type Err = EncodingNotFoundError;

    /// The encoding that `encoding` names, whatever the case of its letters.
    /// An unknown name comes back in lower case in the error.
    fn from_str(encoding: &str) -> (r: Result<Self, Self::Err>)
        ensures
            match named(lowercased(encoding@)) {
                Some(found) => r == Ok::<Encoding, EncodingNotFoundError>(found),
                None => r is Err && r->Err_0@ == lowercased(encoding@),
            },
    {
        Encoding::from_lowercase(encoding.to_lowercase())
    }
}

} // verus!
