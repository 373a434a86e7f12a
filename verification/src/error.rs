//! The error type of the library, and helpers that attach context to
//! errors coming from the operating system or from glob patterns.

use vstd::prelude::*;

verus! {

/// Declares std's I/O error type to the verifier.  Values of it are opaque
/// here: the library only carries them through, attached to the path on
/// which the operation failed.
#[verifier::external_type_specification]
#[verifier::external_body]
pub struct ExIoError(std::io::Error);

/// Declares glob's pattern-syntax error type to the verifier, so that
/// results of the glob crate can be given path context.
#[verifier::external_type_specification]
#[verifier::external_body]
pub struct ExPatternError(glob::PatternError);

/// Everything that can go wrong in a deduplication run.
#[derive(Debug)]
pub enum Error {
    /// An OS-level I/O failure, together with the path it concerns.
    PathIo { path: String, source: std::io::Error },
    /// A malformed glob pattern, with the syntax-error position and message.
    GlobPattern { glob: String, pos: usize, msg: String },
    /// A strategy name that is none of the known ones.
    UnsupportedStrategy { name: String },
}

/// Extension trait for `std::io::Result`: attach the offending path.
pub trait IOResultExt<T>: Sized {
    /// The value seen as the I/O result it wraps.
    spec fn as_io_result(self) -> Result<T, std::io::Error>;

    fn path_ctx(self, path: &str) -> (r: Result<T, Error>)
        ensures
            self.as_io_result() matches Ok(v) ==> (r matches Ok(w) && w == v),
            self.as_io_result() matches Err(e) ==> (r matches Err(Error::PathIo {
                path: p,
                source,
            }) && p@ == path@ && source == e),
    ;
}

impl<T> IOResultExt<T> for Result<T, std::io::Error> {
    open spec fn as_io_result(self) -> Result<T, std::io::Error> {
        self
    }

    fn path_ctx(self, path: &str) -> (r: Result<T, Error>) {
        match self {
            Ok(v) => Ok(v),
            Err(e) => Err(Error::PathIo { path: path.to_owned(), source: e }),
        }
    }
}

/// Extension trait for results of the glob crate: attach the pattern text.
pub trait GlobResultExt<T>: Sized {
    /// The value seen as the pattern result it wraps.
    spec fn as_pattern_result(self) -> Result<T, glob::PatternError>;

    fn glob_ctx(self, glob: &str) -> (r: Result<T, Error>)
        ensures
            self.as_pattern_result() matches Ok(v) ==> (r matches Ok(w) && w == v),
            self.as_pattern_result() matches Err(e) ==> (r matches Err(Error::GlobPattern {
                glob: g,
                ..
            }) && g@ == glob@),
    ;
}

/// Relies on glob's `PatternError`, whose public fields are the error
/// position and a static message; this only moves them out.
#[verifier::external_body]
fn pattern_error_parts(e: &glob::PatternError) -> (usize, String) {
    (e.pos, e.msg.to_owned())
}

impl<T> GlobResultExt<T> for Result<T, glob::PatternError> {
    open spec fn as_pattern_result(self) -> Result<T, glob::PatternError> {
        self
    }

    fn glob_ctx(self, glob: &str) -> (r: Result<T, Error>) {
        match self {
            Ok(v) => Ok(v),
            Err(e) => {
                let (pos, msg) = pattern_error_parts(&e);
                Err(Error::GlobPattern { glob: glob.to_owned(), pos, msg })
            },
        }
    }
}

} // verus!
