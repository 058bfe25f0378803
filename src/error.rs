use vstd::prelude::*;

verus! {

/// A fault that ends the role in which it happens.
#[derive(Debug)]
pub struct Error {
    pub message: String,
}

impl Error {
    pub fn new(message: String) -> (r: Error)
        ensures
            r.message@ == message@,
    {
        Error { message }
    }
}

/// The protocol violations that the library detects.
#[derive(Debug, Clone, Copy, PartialEq, Eq, Structural)]
pub enum Fault {
    /// A `}` outside a string that does not close an open object.
    UnmatchedBrace,
    /// A `]` outside a string that does not close an open array.
    UnmatchedBracket,
    /// A channel line without the `:` between priority and payload.
    MissingSeparator,
    /// A channel line whose payload is not valid base64 text.
    InvalidPayload,
    /// A completed payload too long to be encoded.
    PayloadTooLarge,
}

/// The diagnostic text of a fault.
pub open spec fn fault_text(f: Fault) -> Seq<char> {
    match f {
        Fault::UnmatchedBrace => "Unmatched `}` in the input stream"@,
        Fault::UnmatchedBracket => "Unmatched `]` in the input stream"@,
        Fault::MissingSeparator => "There is no `:`"@,
        Fault::InvalidPayload => "Error on decode base64: invalid payload"@,
        Fault::PayloadTooLarge => "Payload too large to encode"@,
    }
}

impl Fault {
    /// The diagnostic text of the fault.
    pub fn message(&self) -> (r: String)
        ensures
            r@ == fault_text(*self),
    {
        match self {
            Fault::UnmatchedBrace => "Unmatched `}` in the input stream".to_owned(),
            Fault::UnmatchedBracket => "Unmatched `]` in the input stream".to_owned(),
            Fault::MissingSeparator => "There is no `:`".to_owned(),
            Fault::InvalidPayload => "Error on decode base64: invalid payload".to_owned(),
            Fault::PayloadTooLarge => "Payload too large to encode".to_owned(),
        }
    }

    /// The fault as an error that carries its diagnostic text.
    pub fn to_error(&self) -> (r: Error)
        ensures
            r.message@ == fault_text(*self),
    {
        Error::new(self.message())
    }
}

} // verus!
