//! Error type of the reader.

use vstd::prelude::*;
use vstd::string::*;

use crate::text::{joined, push_decimal, push_hexadecimal};

verus! {

/// Result alias used throughout the crate.
pub type Result<T> = std::result::Result<T, Error>;

/// Everything that can go wrong while reading a netCDF-4 / HDF5 file.
///
/// [`Error::Unsupported`] is deliberately distinct from the other variants. A
/// caller that keeps netcdf-c as a fallback matches on it to decide whether to
/// retry through the C library. Every other variant means the file is damaged
/// or this reader has a bug, and a fallback would only hide the problem.
#[derive(Debug)]
pub enum Error {
    /// The underlying storage failed. The text is the storage's own account.
    Io(String),
    /// The file is not HDF5, or a structure is malformed.
    Malformed(String),
    /// A read ran past the end of a buffer or of the file.
    OutOfBounds {
        /// What the reader tried to access.
        what: &'static str,
        /// Byte offset of the attempted access.
        offset: u64,
        /// Number of bytes requested.
        len: u64,
        /// Size of the region that was available.
        available: u64,
    },
    /// A valid HDF5 feature that this reader does not implement yet.
    ///
    /// Callers may fall back to netcdf-c on this variant.
    Unsupported(String),
    /// A checksum stored in the file did not match the bytes read.
    ChecksumMismatch {
        /// Which structure failed the check.
        what: &'static str,
        /// Checksum recorded in the file.
        stored: u32,
        /// Checksum computed over the bytes read.
        computed: u32,
    },
    /// The caller asked for something the file does not contain.
    NotFound(String),
    /// The caller asked for a Rust type that the variable does not store.
    TypeMismatch {
        /// The type the variable stores.
        stored: String,
        /// The Rust type the caller asked for.
        asked: &'static str,
        /// Which variable, when the reader knows.
        what: String,
    },
    /// The caller passed an invalid request, such as an out-of-range hyperslab.
    BadRequest(String),
    /// The byte source does not hold the requested bytes yet.
    ///
    /// It surfaces only from a synchronous read on a file that an asynchronous
    /// open produced.
    Incomplete,
}

/// What an [`Error`] says: its variant, its numbers and the characters of its text.
#[verifier::ext_equal]
pub enum ErrorView {
    Io(Seq<char>),
    Malformed(Seq<char>),
    OutOfBounds { what: Seq<char>, offset: int, len: int, available: int },
    Unsupported(Seq<char>),
    ChecksumMismatch { what: Seq<char>, stored: u32, computed: u32 },
    NotFound(Seq<char>),
    TypeMismatch { stored: Seq<char>, asked: Seq<char>, what: Seq<char> },
    BadRequest(Seq<char>),
    Incomplete,
}

impl View for Error {
    type V = ErrorView;

    open spec fn view(&self) -> ErrorView {
        match *self {
            Error::Io(m) => ErrorView::Io(m@),
            Error::Malformed(m) => ErrorView::Malformed(m@),
            Error::OutOfBounds { what, offset, len, available } => ErrorView::OutOfBounds {
                what: what@,
                offset: offset as int,
                len: len as int,
                available: available as int,
            },
            Error::Unsupported(m) => ErrorView::Unsupported(m@),
            Error::ChecksumMismatch { what, stored, computed } => ErrorView::ChecksumMismatch {
                what: what@,
                stored,
                computed,
            },
            Error::NotFound(m) => ErrorView::NotFound(m@),
            Error::TypeMismatch { stored, asked, what } => ErrorView::TypeMismatch {
                stored: stored@,
                asked: asked@,
                what: what@,
            },
            Error::BadRequest(m) => ErrorView::BadRequest(m@),
            Error::Incomplete => ErrorView::Incomplete,
        }
    }
}

impl ErrorView {
    /// The storage, not the file's contents, is why a read failed.
    pub open spec fn is_storage_failure(self) -> bool {
        self is Io || self is Incomplete
    }

    /// The text shown for this error.
    pub open spec fn message(self) -> Seq<char> {
        match self {
            ErrorView::Io(m) => "io error: "@ + m,
            ErrorView::Malformed(m) => "malformed HDF5: "@ + m,
            ErrorView::OutOfBounds { what, offset, len, available } => what
                + " read out of bounds: wanted "@ + crate::text::decimal(len as nat)
                + " bytes at offset "@ + crate::text::decimal(offset as nat) + ", but only "@
                + crate::text::decimal(available as nat) + " bytes are available"@,
            ErrorView::Unsupported(m) => "unsupported HDF5 feature: "@ + m,
            ErrorView::ChecksumMismatch { what, stored, computed } => what
                + " checksum mismatch: file stores 0x"@ + crate::text::hexadecimal(stored as nat, 8)
                + ", computed 0x"@ + crate::text::hexadecimal(computed as nat, 8),
            ErrorView::NotFound(m) => "not found: "@ + m,
            ErrorView::TypeMismatch { stored, asked, what } => "type mismatch"@ + (if what.len()
                == 0 {
                Seq::empty()
            } else {
                " for "@ + what
            }) + ": the variable stores "@ + stored + ", but "@ + asked
                + " was asked for; this reader does not convert between numeric types"@,
            ErrorView::BadRequest(m) => "bad request: "@ + m,
            ErrorView::Incomplete =>
                "the bytes are not in memory: an asynchronous open produced this file, so use the asynchronous read methods"@,
        }
    }
}

/// What a result says, by the views of its value and of its error.
pub open spec fn seen<T: View>(r: Result<T>) -> std::result::Result<T::V, ErrorView> {
    match r {
        Ok(v) => Ok(v@),
        Err(e) => Err(e@),
    }
}

impl Error {
    /// Build an [`Error::Malformed`] from its text.
    pub fn malformed(msg: &str) -> (e: Self)
        ensures
            e@ == ErrorView::Malformed(msg@),
    {
        Error::Malformed(msg.to_string())
    }

    /// Build an [`Error::Unsupported`] from its text.
    pub fn unsupported(msg: &str) -> (e: Self)
        ensures
            e@ == ErrorView::Unsupported(msg@),
    {
        Error::Unsupported(msg.to_string())
    }

    /// Build an [`Error::NotFound`] from its text.
    pub fn not_found(msg: &str) -> (e: Self)
        ensures
            e@ == ErrorView::NotFound(msg@),
    {
        Error::NotFound(msg.to_string())
    }

    /// Build an [`Error::BadRequest`] from its text.
    pub fn bad_request(msg: &str) -> (e: Self)
        ensures
            e@ == ErrorView::BadRequest(msg@),
    {
        Error::BadRequest(msg.to_string())
    }

    /// Whether a caller should retry this read through netcdf-c.
    ///
    /// Only unsupported features qualify. A malformed file or a checksum
    /// failure is a real defect and must surface.
    pub fn is_fallback_worthy(&self) -> (r: bool)
        ensures
            r == (self@ is Unsupported),
    {
        match self {
            Error::Unsupported(_) => true,
            _ => false,
        }
    }

    /// The text shown for this error.
    pub fn to_string(&self) -> (r: String)
        ensures
            r@ == self@.message(),
    {
        match self {
            Error::Io(m) => joined("io error: ", m.as_str()),
            Error::Malformed(m) => joined("malformed HDF5: ", m.as_str()),
            Error::OutOfBounds { what, offset, len, available } => {
                let mut out = String::from_str(*what);
                out.append(" read out of bounds: wanted ");
                push_decimal(&mut out, *len);
                out.append(" bytes at offset ");
                push_decimal(&mut out, *offset);
                out.append(", but only ");
                push_decimal(&mut out, *available);
                out.append(" bytes are available");
                out
            },
            Error::Unsupported(m) => joined("unsupported HDF5 feature: ", m.as_str()),
            Error::ChecksumMismatch { what, stored, computed } => {
                let mut out = String::from_str(*what);
                out.append(" checksum mismatch: file stores 0x");
                push_hexadecimal(&mut out, *stored, 8);
                out.append(", computed 0x");
                push_hexadecimal(&mut out, *computed, 8);
                out
            },
            Error::NotFound(m) => joined("not found: ", m.as_str()),
            Error::TypeMismatch { stored, asked, what } => {
                let mut out = String::from_str("type mismatch");
                if !what.as_str().is_empty() {
                    out.append(" for ");
                    out.append(what.as_str());
                }
                out.append(": the variable stores ");
                out.append(stored.as_str());
                out.append(", but ");
                out.append(*asked);
                out.append(" was asked for; this reader does not convert between numeric types");
                proof {
                    assert(out@ =~= self@.message());
                }
                out
            },
            Error::BadRequest(m) => joined("bad request: ", m.as_str()),
            Error::Incomplete => String::from_str(
                "the bytes are not in memory: an asynchronous open produced this file, so use the asynchronous read methods",
            ),
        }
    }
}

} // verus!
