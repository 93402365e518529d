//! Error variants returned by the library's fallible operations.

use vstd::prelude::*;

verus! {

/// The result type used throughout the crate.
pub type DcsvResult<T> = Result<T, DcsvError>;

/// `std::io::Error` appears inside `IoErrorWithMeta`; it is opaque here.
#[verifier::external_type_specification]
#[verifier::external_body]
pub struct ExIoError(std::io::Error);

/// An I/O failure together with a short description of what was being done.
#[derive(Debug)]
pub struct IoErrorWithMeta {
    error: std::io::Error,
    meta: String,
}

impl IoErrorWithMeta {
    /// The contextual description carried beside the I/O error.
    pub closed spec fn meta_spec(&self) -> Seq<char> {
        self.meta@
    }

    /// Create a new instance from an I/O error and its context.
    pub fn new(error: std::io::Error, meta: &str) -> (r: Self)
        ensures
            r.meta_spec() == meta@,
    {
        Self { error, meta: meta.to_owned() }
    }
}

/// Error kinds for all fallible operations of the crate.
#[derive(Debug)]
pub enum DcsvError {
    /// Limiter construction violated its internal consistency rules.
    InvalidLimiter(String),
    /// Unparseable type token or failed numeric parse.
    InvalidValueType(String),
    /// A propagated byte-source failure with context.
    IoError(IoErrorWithMeta),
    /// A coordinate or index outside the current bounds.
    OutOfRangeError,
    /// A row or value-list length mismatch against the column count.
    InsufficientRowData,
    /// A structural row problem.
    InvalidRowData(String),
    /// A column operation violated indexing or uniqueness rules.
    InvalidColumn(String),
    /// A value failed its column's limiter.
    InvalidCellData(String),
}

impl DcsvError {
    /// Wrap an I/O error with contextual metadata.
    pub fn io_error(err: std::io::Error, meta: &str) -> (r: Self)
        ensures
            r is IoError,
    {
        Self::IoError(IoErrorWithMeta::new(err, meta))
    }
}

} // verus!
