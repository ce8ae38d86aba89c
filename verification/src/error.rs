use vstd::prelude::*;

verus! {

/// Everything that can go wrong while decoding a table.
#[derive(Debug)]
pub enum Error {
    /// A buffer holds fewer bytes than the structure read from it needs:
    /// the bytes found, and what was expected.
    InsufficientData(usize, &'static str),
    /// The file does not start with `RESTBL`: the six bytes found instead.
    InvalidMagic([u8; 6]),
    /// The header announces more records than the buffer holds: the
    /// buffer's length, and the length the header asks for.
    InvalidTableSize(usize, u64),
    /// A name field has no terminator, or is not UTF-8 up to it.
    Utf8Error,
    /// An output buffer is too small for the text form: its length, and the
    /// length that is always enough.
    InsufficientBuffer(usize, u64),
    /// A line of the text form has no `": "` separator: the line.
    YamlError(String),
    /// The value of a line of the text form is not a decimal `u32`.
    YamlInvalidNumber,
}

} // verus!
