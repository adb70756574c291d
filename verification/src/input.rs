//! The source file as the library sees it: its path and its bytes.
//!
//! Reading the file is the application's job; an unreadable or empty input
//! cannot produce any output, so the application fails immediately on it.

use vstd::prelude::*;

verus! {

/// What `Path::extension` gives for a path, as text, when there is one.
pub uninterp spec fn extension_of(path: Seq<char>) -> Option<Seq<char>>;

/// What `str::to_lowercase` gives.
pub uninterp spec fn lowercase_of(text: Seq<char>) -> Seq<char>;

/// The extension of a path, without the dot.
///
/// Trusted: calls `std::path::Path::extension` and converts the result with
/// `OsStr::to_string_lossy`. The contract names the result; it depends on the
/// path alone.
#[verifier::external_body]
fn path_extension(path: &str) -> (r: Option<String>)
    ensures
        match r {
            Some(e) => extension_of(path@) == Some(e@),
            None => extension_of(path@) is None,
        },
{
    std::path::Path::new(path).extension().map(|e| e.to_string_lossy().into_owned())
}

/// Lower-cases text.
///
/// Trusted: calls `str::to_lowercase`. The contract names the result; it
/// depends on the text alone.
#[verifier::external_body]
fn lowercase(text: &str) -> (r: String)
    ensures
        r@ == lowercase_of(text@),
{
    text.to_lowercase()
}

/// Why a file could not be used as input. Loading is one of the few
/// hard-error paths: an unreadable or empty input cannot produce any output.
#[derive(Debug)]
pub enum InputError {
    /// The file could not be read; `reason` says why.
    Unreadable { path: String, reason: String },
    /// The file holds no bytes.
    Empty { path: String },
}

/// A loaded source file.
#[derive(Debug)]
pub struct SourceFile {
    pub path: String,
    pub bytes: Vec<u8>,
}

impl SourceFile {
    /// A source file from the bytes read from `path`; an empty file is an
    /// error, since it cannot produce any output.
    pub fn from_bytes(path: String, bytes: Vec<u8>) -> (r: Result<SourceFile, InputError>)
        ensures
            bytes@.len() == 0 <==> r is Err,
            r matches Err(e) ==> e == (InputError::Empty { path }),
            r matches Ok(f) ==> f.path == path && f.bytes == bytes,
    {
        if bytes.len() == 0 {
            Err(InputError::Empty { path })
        } else {
            Ok(SourceFile { path, bytes })
        }
    }

    /// Size of the file in bytes.
    pub fn size(&self) -> (n: usize)
        ensures
            n == self.bytes@.len(),
    {
        self.bytes.len()
    }

    /// File extension in lower case, without the dot; empty when there is
    /// none. Used for reporting only: extension is never treated as evidence
    /// that a file is a Loop container.
    pub fn extension(&self) -> (r: String)
        ensures
            r@ == match extension_of(self.path@) {
                Some(e) => lowercase_of(e),
                None => Seq::empty(),
            },
    {
        match path_extension(self.path.as_str()) {
            Some(e) => lowercase(e.as_str()),
            None => String::new(),
        }
    }
}

} // verus!
