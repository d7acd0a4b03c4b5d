use vstd::prelude::*;

verus! {

/// The failure modes of the subtitle pipeline.
///
/// Decoder errors (`MalformedSegment`, `MalformedSpu`, `UnknownSpuOpcode`)
/// are per-block; container errors (`MalformedContainer`, `IoError`) abort
/// the whole file; `MalformedIdx` and `MissingCodecPrivate` abort only the
/// track they were found on.
#[derive(Clone, Copy, Debug, PartialEq, Eq, Structural)]
pub enum SubError {
    IoError,
    MalformedContainer,
    UnsupportedLacing,
    MalformedSegment,
    MalformedSpu,
    MalformedIdx,
    UnknownSpuOpcode,
    MissingCodecPrivate,
    OcrFailure,
}

impl SubError {
    /// A short description, in place of a `Display` impl.
    pub fn message(&self) -> (r: &'static str)
        ensures
            r@.len() > 0,
    {
        proof {
            reveal_strlit("i/o failure");
            reveal_strlit("malformed container framing");
            reveal_strlit("laced blocks are unsupported");
            reveal_strlit("malformed presentation-graphics segment");
            reveal_strlit("malformed subpicture block");
            reveal_strlit("malformed idx sidecar");
            reveal_strlit("unknown subpicture opcode");
            reveal_strlit("missing codec-private data");
            reveal_strlit("ocr failure");
        }
        match self {
            SubError::IoError => "i/o failure",
            SubError::MalformedContainer => "malformed container framing",
            SubError::UnsupportedLacing => "laced blocks are unsupported",
            SubError::MalformedSegment => "malformed presentation-graphics segment",
            SubError::MalformedSpu => "malformed subpicture block",
            SubError::MalformedIdx => "malformed idx sidecar",
            SubError::UnknownSpuOpcode => "unknown subpicture opcode",
            SubError::MissingCodecPrivate => "missing codec-private data",
            SubError::OcrFailure => "ocr failure",
        }
    }
}

} // verus!
