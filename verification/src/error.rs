//! The error type of every fallible entry point.

use vstd::prelude::*;

verus! {

/// Errors of bitstream parsing, entropy decoding and encoding.
#[derive(Debug, Clone, PartialEq, Eq)]
pub enum IcerError {
    /// The bitstream breaks a rule of its syntax: a bad marker, a reserved bit
    /// that is set, a field out of range.
    InvalidData(String),
    /// The request or the bitstream is well formed, and this crate refuses it.
    Unsupported(String),
    /// The input ends before the next required field.
    Truncated,
}

/// Which of the three errors an [`IcerError`] is, without its text.
pub enum Fault {
    /// [`IcerError::InvalidData`].
    InvalidData,
    /// [`IcerError::Unsupported`].
    Unsupported,
    /// [`IcerError::Truncated`].
    Truncated,
}

/// Result of every fallible entry point.
pub type Result<T> = core::result::Result<T, IcerError>;

impl IcerError {
    /// Which error this is.
    pub open spec fn fault(self) -> Fault {
        match self {
            IcerError::InvalidData(_) => Fault::InvalidData,
            IcerError::Unsupported(_) => Fault::Unsupported,
            IcerError::Truncated => Fault::Truncated,
        }
    }

    /// An [`IcerError::InvalidData`] with the text `s`.
    pub fn invalid(s: &str) -> (e: Self)
        ensures
            e matches IcerError::InvalidData(t) && t@ == s@,
    {
        IcerError::InvalidData(s.to_owned())
    }

    /// An [`IcerError::Unsupported`] with the text `s`.
    pub fn unsupported(s: &str) -> (e: Self)
        ensures
            e matches IcerError::Unsupported(t) && t@ == s@,
    {
        IcerError::Unsupported(s.to_owned())
    }

    /// The error in words.
    pub fn describe(&self) -> (s: String)
        ensures
            s@ == (match *self {
                IcerError::InvalidData(t) => "icer: invalid data: "@ + t@,
                IcerError::Unsupported(t) => "icer: unsupported: "@ + t@,
                IcerError::Truncated => "icer: truncated input"@,
            }),
    {
        match self {
            IcerError::InvalidData(t) => {
                let mut s = "icer: invalid data: ".to_owned();
                s.append(t.as_str());
                s
            },
            IcerError::Unsupported(t) => {
                let mut s = "icer: unsupported: ".to_owned();
                s.append(t.as_str());
                s
            },
            IcerError::Truncated => "icer: truncated input".to_owned(),
        }
    }
}

/// `r` is `Err` of the given fault.
pub open spec fn fails_with<T>(r: Result<T>, fault: Fault) -> bool {
    r is Err && r->Err_0.fault() == fault
}

} // verus!
