use vstd::prelude::*;

verus! {

/// What went wrong.
#[derive(Clone, Copy, Debug, PartialEq, Eq, Structural)]
pub enum Kind {
    /// The encoded text is empty.
    EmptyString,
    /// The encoded text has more than 13 symbols, too many for a 64-bit value.
    OutOfRange,
    /// The byte at this position is no symbol of the alphabet.
    InvalidDigit(usize, u8),
    /// The byte at this position is a check-digit symbol, which is not supported.
    CheckDigitUnsupported(usize, u8),
    /// A salt must hold at least one byte.
    EmptySalt,
    /// A custom alphabet must hold each of the 32 symbols exactly once.
    InvalidAlphabet,
}

/// An error of decoding or of building a codec.
#[derive(Clone, Copy, Debug, PartialEq, Eq, Structural)]
pub struct Error {
    pub kind: Kind,
}

impl Error {
    pub fn new(kind: Kind) -> (r: Error)
        ensures
            r.kind == kind,
    {
        Error { kind }
    }

    pub fn kind(&self) -> (r: Kind)
        ensures
            r == self.kind,
    {
        self.kind
    }

    /// A short description of the error.
    pub fn message(&self) -> &'static str {
        match self.kind {
            Kind::EmptyString => "Encoded input string is empty.",
            Kind::OutOfRange => "Encoded value is too large",
            Kind::InvalidDigit(_, _) => "Invalid encoded digit.",
            Kind::CheckDigitUnsupported(_, _) => "Check digits not currently supported.",
            Kind::EmptySalt => "Salt is empty.",
            Kind::InvalidAlphabet => "Alphabet does not hold each symbol exactly once.",
        }
    }
}

} // verus!
