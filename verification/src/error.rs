use vstd::prelude::*;

verus! {

/// The single error type of the decoder. Every malformed input variant the
/// grammar forbids maps to one of these kinds; errors surface at the first
/// check that fails and no partial values are returned.
#[derive(Clone, Copy, Debug, PartialEq, Eq)]
pub enum DecoderError {
    /// The buffer ended before the declared payload completed.
    RlpIsTooShort { expected: usize, got: usize },
    /// The payload exceeds the target type's capacity.
    RlpIsTooBig,
    /// A non-minimal encoding: a single-byte value behind a length prefix,
    /// a long form for a short payload, or a leading zero on an integer.
    RlpInvalidIndirection,
    /// A long-form length field starts with a zero byte.
    RlpDataLenWithZeroPrefix,
    /// Arithmetic overflow while computing payload bounds.
    RlpInvalidLength { expected: usize, got: usize },
    /// The declared payload runs past the available bytes.
    RlpInconsistentLengthAndData { max: usize, index: usize },
    /// A list operation was requested on a non-list item.
    RlpExpectedToBeList,
    /// A data operation was requested on a non-data item.
    RlpExpectedToBeData,
    /// A fixed-arity list (such as an optional value) has the wrong length.
    RlpIncorrectListLen,
    /// A decoded text string contains a NUL byte.
    RlpNullTerminatedString,
    /// Reserved for callers embedding domain constraints.
    Custom(&'static str),
}

/// The text `describe` returns for each kind of error.
pub open spec fn describe_spec(e: DecoderError) -> Seq<char> {
    match e {
        DecoderError::RlpIsTooShort { .. } => "RlpIsTooShort"@,
        DecoderError::RlpIsTooBig => "RlpIsTooBig"@,
        DecoderError::RlpInvalidIndirection => "RlpInvalidIndirection"@,
        DecoderError::RlpDataLenWithZeroPrefix => "RlpDataLenWithZeroPrefix"@,
        DecoderError::RlpInvalidLength { .. } => "RlpInvalidLength"@,
        DecoderError::RlpInconsistentLengthAndData { .. } => "RlpInconsistentLengthAndData"@,
        DecoderError::RlpExpectedToBeList => "RlpExpectedToBeList"@,
        DecoderError::RlpExpectedToBeData => "RlpExpectedToBeData"@,
        DecoderError::RlpIncorrectListLen => "RlpIncorrectListLen"@,
        DecoderError::RlpNullTerminatedString => "RlpNullTerminatedString"@,
        DecoderError::Custom(m) => m@,
    }
}

impl DecoderError {
    /// The name of the error's kind, for rendering.
    pub fn describe(&self) -> (r: String)
        ensures
            r@ == describe_spec(*self),
    {
        match self {
            DecoderError::RlpIsTooShort { .. } => "RlpIsTooShort".to_owned(),
            DecoderError::RlpIsTooBig => "RlpIsTooBig".to_owned(),
            DecoderError::RlpInvalidIndirection => "RlpInvalidIndirection".to_owned(),
            DecoderError::RlpDataLenWithZeroPrefix => "RlpDataLenWithZeroPrefix".to_owned(),
            DecoderError::RlpInvalidLength { .. } => "RlpInvalidLength".to_owned(),
            DecoderError::RlpInconsistentLengthAndData { .. } => {
                "RlpInconsistentLengthAndData".to_owned()
            },
            DecoderError::RlpExpectedToBeList => "RlpExpectedToBeList".to_owned(),
            DecoderError::RlpExpectedToBeData => "RlpExpectedToBeData".to_owned(),
            DecoderError::RlpIncorrectListLen => "RlpIncorrectListLen".to_owned(),
            DecoderError::RlpNullTerminatedString => "RlpNullTerminatedString".to_owned(),
            DecoderError::Custom(m) => (*m).to_owned(),
        }
    }
}

} // verus!
