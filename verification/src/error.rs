use vstd::prelude::*;

verus! {

/// Everything that an operation of this crate can report to its caller.
#[derive(Debug, PartialEq, Eq)]
pub enum BridgeError {
    /// The byte buffer's length does not fit the shape and element type.
    SizeMismatch,
    /// The element type's label or bit width is not one of the supported ones.
    /// Also reported, once every other test has passed, for a cast between
    /// supported types that takes floating point arithmetic: this crate
    /// leaves that cast to its caller.
    UnsupportedDType,
    /// The shapes handed to a reshape or a concatenation do not go together.
    ShapeMismatch,
    /// An axis, a start index, a stride or a range lies outside the tensor.
    IndexOutOfRange,
    /// The exported buffer would be longer than the caller's limit.
    SizeLimitExceeded,
    /// The engine could not load the model or register a provider.
    LoadFailure(String),
    /// The engine failed while running; its message is kept as it came.
    RunFailure(String),
}

impl BridgeError {
    /// The text shown to the caller: a fixed sentence for each of this crate's
    /// own errors, the engine's own words for the two engine errors.
    pub fn message(&self) -> (text: String)
        ensures
            text@ == self.message_spec(),
    {
        match self {
            BridgeError::SizeMismatch => String::from_str(
                "buffer length does not match shape and dtype",
            ),
            BridgeError::UnsupportedDType => String::from_str("unsupported dtype"),
            BridgeError::ShapeMismatch => String::from_str("shapes do not match"),
            BridgeError::IndexOutOfRange => String::from_str("index out of range"),
            BridgeError::SizeLimitExceeded => String::from_str("size limit exceeded"),
            BridgeError::LoadFailure(text) => text.clone(),
            BridgeError::RunFailure(text) => text.clone(),
        }
    }

    pub open spec fn message_spec(&self) -> Seq<char> {
        match self {
            BridgeError::SizeMismatch => "buffer length does not match shape and dtype"@,
            BridgeError::UnsupportedDType => "unsupported dtype"@,
            BridgeError::ShapeMismatch => "shapes do not match"@,
            BridgeError::IndexOutOfRange => "index out of range"@,
            BridgeError::SizeLimitExceeded => "size limit exceeded"@,
            BridgeError::LoadFailure(text) => text@,
            BridgeError::RunFailure(text) => text@,
        }
    }
}

} // verus!
