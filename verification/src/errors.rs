//! Definition of errors.
use vstd::prelude::*;

verus! {

#[verifier::external_type_specification]
#[verifier::external_body]
pub struct ExRucrfError(rucrf::errors::RucrfError);

/// Error used when the argument is invalid.
#[derive(Debug)]
pub struct InvalidArgumentError {
    /// Name of the argument.
    pub arg: &'static str,
    /// Error message.
    pub msg: String,
}

/// Error used when the input format is invalid.
#[derive(Debug)]
pub struct InvalidFormatError {
    /// Name of the format.
    pub arg: &'static str,
    /// Error message.
    pub msg: String,
}

/// The error type.
#[derive(Debug)]
pub enum VibratoError {
    /// The argument is invalid.
    InvalidArgument(InvalidArgumentError),
    /// The input format is invalid.
    InvalidFormat(InvalidFormatError),
    /// An integer conversion failed.
    TryFromInt,
    /// A text does not denote an integer of the expected type.
    ParseInt,
    /// A byte sequence is not valid UTF-8.
    Utf8,
    /// An error of the CRF trainer.
    Crf(rucrf::errors::RucrfError),
}

/// The kinds of [`VibratoError`], for stating which error a function returns.
#[derive(PartialEq, Eq, Structural, Clone, Copy, Debug)]
pub enum Fault {
    /// [`VibratoError::InvalidArgument`].
    Argument,
    /// [`VibratoError::InvalidFormat`].
    Format,
    /// [`VibratoError::TryFromInt`].
    TryFromInt,
    /// [`VibratoError::ParseInt`].
    ParseInt,
    /// [`VibratoError::Utf8`].
    Utf8,
    /// [`VibratoError::Crf`].
    Crf,
}

impl VibratoError {
    /// The kind of this error.
    pub open spec fn fault(self) -> Fault {
        match self {
            VibratoError::InvalidArgument(_) => Fault::Argument,
            VibratoError::InvalidFormat(_) => Fault::Format,
            VibratoError::TryFromInt => Fault::TryFromInt,
            VibratoError::ParseInt => Fault::ParseInt,
            VibratoError::Utf8 => Fault::Utf8,
            VibratoError::Crf(_) => Fault::Crf,
        }
    }

    /// Creates an [`InvalidArgumentError`].
    pub fn invalid_argument(arg: &'static str, msg: &str) -> (r: Self)
        ensures
            r matches VibratoError::InvalidArgument(e) && e.arg == arg && e.msg@ == msg@,
    {
        VibratoError::InvalidArgument(InvalidArgumentError { arg, msg: msg.to_owned() })
    }

    /// Creates an [`InvalidFormatError`].
    pub fn invalid_format(arg: &'static str, msg: &str) -> (r: Self)
        ensures
            r matches VibratoError::InvalidFormat(e) && e.arg == arg && e.msg@ == msg@,
    {
        VibratoError::InvalidFormat(InvalidFormatError { arg, msg: msg.to_owned() })
    }

    /// Whether this is an [`InvalidArgumentError`].
    pub open spec fn is_invalid_argument(self) -> bool {
        self is InvalidArgument
    }

    /// Whether this is an [`InvalidFormatError`].
    pub open spec fn is_invalid_format(self) -> bool {
        self is InvalidFormat
    }
}

} // verus!
