//! What can go wrong in decoding a tile.
use crate::text;
use vstd::prelude::*;

verus! {

/// The step of decoding that failed.
#[derive(Debug, Clone, Copy, PartialEq, Eq, Structural)]
pub enum DecodeStage {
    /// The structure of the container or of its JSON: the same bytes fail again.
    Content,
    /// The Draco decoder.
    Draco,
    /// The KTX2 transcoder.
    Ktx2,
    /// The meshopt decoder.
    Meshopt,
}

/// A tile that could not be decoded.
#[derive(Debug, PartialEq, Eq)]
pub struct DecodeError {
    pub stage: DecodeStage,
    pub message: String,
}

impl DecodeError {
    /// The stage and the message of the error.
    pub open spec fn parts(self) -> (DecodeStage, Seq<char>) {
        (self.stage, self.message@)
    }

    pub fn new(stage: DecodeStage, message: String) -> (e: Self)
        ensures
            e == (DecodeError { stage, message }),
    {
        DecodeError { stage, message }
    }

    pub fn draco(message: String) -> (e: Self)
        ensures
            e == (DecodeError { stage: DecodeStage::Draco, message }),
    {
        Self::new(DecodeStage::Draco, message)
    }

    pub fn ktx2(message: String) -> (e: Self)
        ensures
            e == (DecodeError { stage: DecodeStage::Ktx2, message }),
    {
        Self::new(DecodeStage::Ktx2, message)
    }

    pub fn meshopt(message: String) -> (e: Self)
        ensures
            e == (DecodeError { stage: DecodeStage::Meshopt, message }),
    {
        Self::new(DecodeStage::Meshopt, message)
    }

    /// The error as one line of text.
    pub fn to_string(&self) -> (s: String)
        ensures
            s@ == stage_name(self.stage) + " decode: "@ + self.message@,
    {
        let stage = match self.stage {
            DecodeStage::Content => "Content",
            DecodeStage::Draco => "Draco",
            DecodeStage::Ktx2 => "Ktx2",
            DecodeStage::Meshopt => "Meshopt",
        };
        text::join3(stage, " decode: ", self.message.as_str())
    }
}

/// The name of a stage in messages.
pub open spec fn stage_name(stage: DecodeStage) -> Seq<char> {
    match stage {
        DecodeStage::Content => "Content"@,
        DecodeStage::Draco => "Draco"@,
        DecodeStage::Ktx2 => "Ktx2"@,
        DecodeStage::Meshopt => "Meshopt"@,
    }
}

impl Clone for DecodeError {
    fn clone(&self) -> (r: Self)
        ensures
            r.parts() == self.parts(),
    {
        DecodeError { stage: self.stage, message: self.message.clone() }
    }
}

impl From<String> for DecodeError {
    fn from(message: String) -> (e: Self) {
        DecodeError { stage: DecodeStage::Content, message }
    }
}

impl vstd::std_specs::convert::FromSpecImpl<String> for DecodeError {
    open spec fn obeys_from_spec() -> bool {
        true
    }

    open spec fn from_spec(message: String) -> Self {
        DecodeError { stage: DecodeStage::Content, message }
    }
}

} // verus!
