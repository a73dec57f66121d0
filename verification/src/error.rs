use vstd::prelude::*;

verus! {

/// The ways a codec operation can fail. Every failure is terminal for the
/// single operation in progress: no retries, no partial recovery, and no
/// error is silently downgraded to a default value.
#[derive(Clone, Copy, Debug, PartialEq, Eq, Structural)]
pub enum Error {
    /// The leading bytes of an archive or of an image blob are not the
    /// format's magic signature.
    BadMagic,
    /// The archive's directory length field is inconsistent with the
    /// fixed header and entry sizes.
    BadDirectory,
    /// A read falls outside the archive bytes: the directory table, or an
    /// entry's offset/size range, or a token's payload is cut short.
    TruncatedArchive,
    /// An entry name does not fit the fixed 24-byte slot (at most 23 bytes
    /// plus the NUL terminator).
    NameTooLong,
    /// An image dimension does not fit the 16-bit header field.
    DimensionOverflow,
    /// A token header's mode nibble is neither Raw nor Repeat.
    UnknownTokenMode,
    /// A token's length would run past the image's total pixel count.
    TokenOverrun,
}

impl Error {
    /// A short human-readable description of the failure.
    pub fn describe(&self) -> (r: &'static str) {
        match self {
            Error::BadMagic => "wrong format signature",
            Error::BadDirectory => "malformed directory length field",
            Error::TruncatedArchive => "offset or size out of range",
            Error::NameTooLong => "entry name longer than 23 bytes",
            Error::DimensionOverflow => "image dimension over 65535",
            Error::UnknownTokenMode => "unsupported token mode",
            Error::TokenOverrun => "token runs past the pixel count",
        }
    }
}

} // verus!
