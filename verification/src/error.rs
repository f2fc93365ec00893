//! What can go wrong, and how each failure reads.

use crate::text;
use vstd::prelude::*;

verus! {

/// An I/O failure of the standard library, carried through unread.
#[verifier::external_type_specification]
#[verifier::external_body]
pub struct ExIoError(std::io::Error);

/// A failure of `serde_json`, carried through unread.
#[verifier::external_type_specification]
#[verifier::external_body]
pub struct ExJsonError(serde_json::Error);

/// Stage of the ANN→SNN forward path where a non-finite value was found.
#[derive(Debug, Clone, Copy, PartialEq, Eq, Structural)]
pub enum ForwardValueStage {
    /// Transformer hidden-state backing data.
    HiddenState,
    /// Mean-pooled embedding.
    Embedding,
    /// Projector output about to be handed to the spiking network.
    Stimuli,
}

impl ForwardValueStage {
    /// The name of the stage in messages.
    pub open spec fn named(self) -> Seq<char> {
        match self {
            ForwardValueStage::HiddenState => "hidden-state"@,
            ForwardValueStage::Embedding => "embedding"@,
            ForwardValueStage::Stimuli => "stimuli"@,
        }
    }

    /// The name of the stage in messages.
    pub fn name(&self) -> (r: &'static str)
        ensures
            r@ == self.named(),
    {
        match self {
            ForwardValueStage::HiddenState => "hidden-state",
            ForwardValueStage::Embedding => "embedding",
            ForwardValueStage::Stimuli => "stimuli",
        }
    }
}

/// Every failure the library reports.
#[derive(Debug)]
pub enum HybridError {
    InvalidConfig(String),
    ModelLoad { path: String, reason: String },
    UnsupportedFormat(String),
    MissingTensor { name: String, path: String },
    GgufParse(String),
    SafetensorsParse(String),
    InputLengthMismatch { expected: usize, got: usize },
    /// Hidden-state rank is not 1 (`[dim]`) or 2 (`[seq, dim]`).
    HiddenStateRank { got: usize },
    /// Rank-2 hidden state does not have one row per token.
    HiddenStateSeqLen { expected: usize, got: usize },
    /// Hidden-state width is not the transformer's, or is zero.
    HiddenStateDim { expected: usize, got: usize },
    /// Backing data does not have the length its shape calls for.
    HiddenStateDataLen { expected: usize, got: usize },
    /// NaN or an infinity in a forward-path buffer.
    NonFinite { stage: ForwardValueStage, index: usize },
    /// The spiking network has no input channels.
    ZeroSnnChannels,
    /// A configured size is zero or not what the backend reports.
    ConfigMismatch { field: &'static str, configured: usize, backend: usize },
    SnnStep(String),
    Io(std::io::Error),
    Json(serde_json::Error),
}

/// A [`HybridError`] with its texts as character sequences.
pub enum ErrorView {
    InvalidConfig(Seq<char>),
    ModelLoad { path: Seq<char>, reason: Seq<char> },
    UnsupportedFormat(Seq<char>),
    MissingTensor { name: Seq<char>, path: Seq<char> },
    GgufParse(Seq<char>),
    SafetensorsParse(Seq<char>),
    InputLengthMismatch { expected: usize, got: usize },
    HiddenStateRank { got: usize },
    HiddenStateSeqLen { expected: usize, got: usize },
    HiddenStateDim { expected: usize, got: usize },
    HiddenStateDataLen { expected: usize, got: usize },
    NonFinite { stage: ForwardValueStage, index: usize },
    ZeroSnnChannels,
    ConfigMismatch { field: Seq<char>, configured: usize, backend: usize },
    SnnStep(Seq<char>),
    Io(std::io::Error),
    Json(serde_json::Error),
}

impl View for HybridError {
    type V = ErrorView;

    open spec fn view(&self) -> ErrorView {
        match *self {
            HybridError::InvalidConfig(s) => ErrorView::InvalidConfig(s@),
            HybridError::ModelLoad { path, reason } => ErrorView::ModelLoad {
                path: path@,
                reason: reason@,
            },
            HybridError::UnsupportedFormat(s) => ErrorView::UnsupportedFormat(s@),
            HybridError::MissingTensor { name, path } => ErrorView::MissingTensor {
                name: name@,
                path: path@,
            },
            HybridError::GgufParse(s) => ErrorView::GgufParse(s@),
            HybridError::SafetensorsParse(s) => ErrorView::SafetensorsParse(s@),
            HybridError::InputLengthMismatch { expected, got } => ErrorView::InputLengthMismatch {
                expected,
                got,
            },
            HybridError::HiddenStateRank { got } => ErrorView::HiddenStateRank { got },
            HybridError::HiddenStateSeqLen { expected, got } => ErrorView::HiddenStateSeqLen {
                expected,
                got,
            },
            HybridError::HiddenStateDim { expected, got } => ErrorView::HiddenStateDim {
                expected,
                got,
            },
            HybridError::HiddenStateDataLen { expected, got } => ErrorView::HiddenStateDataLen {
                expected,
                got,
            },
            HybridError::NonFinite { stage, index } => ErrorView::NonFinite { stage, index },
            HybridError::ZeroSnnChannels => ErrorView::ZeroSnnChannels,
            HybridError::ConfigMismatch { field, configured, backend } => ErrorView::ConfigMismatch {
                field: field@,
                configured,
                backend,
            },
            HybridError::SnnStep(s) => ErrorView::SnnStep(s@),
            HybridError::Io(e) => ErrorView::Io(e),
            HybridError::Json(e) => ErrorView::Json(e),
        }
    }
}

impl From<std::io::Error> for HybridError {
    fn from(e: std::io::Error) -> (r: HybridError) {
        HybridError::Io(e)
    }
}

impl vstd::std_specs::convert::FromSpecImpl<std::io::Error> for HybridError {
    open spec fn obeys_from_spec() -> bool {
        true
    }

    open spec fn from_spec(e: std::io::Error) -> HybridError {
        HybridError::Io(e)
    }
}

impl From<serde_json::Error> for HybridError {
    fn from(e: serde_json::Error) -> (r: HybridError) {
        HybridError::Json(e)
    }
}

impl vstd::std_specs::convert::FromSpecImpl<serde_json::Error> for HybridError {
    open spec fn obeys_from_spec() -> bool {
        true
    }

    open spec fn from_spec(e: serde_json::Error) -> HybridError {
        HybridError::Json(e)
    }
}

/// `text` is the heading and then what the `Display` of `cause` prints.
pub open spec fn ends_with_display<E: std::fmt::Display>(
    heading: Seq<char>,
    cause: &E,
    text: Seq<char>,
) -> bool {
    exists|shown: String|
        #[trigger] vstd::string::to_string_from_display_ensures(cause, shown) && text == heading + shown@
}

/// `text` is how the error reads. The two errors carried from outside read as
/// a heading and then whatever their own `Display` prints.
pub open spec fn reads_as(error: ErrorView, text: Seq<char>) -> bool {
    match error {
        ErrorView::InvalidConfig(s) => text =~= "invalid configuration: "@ + s,
        ErrorView::ModelLoad { path, reason } => text =~= "model load failed for '"@ + path + "': "@
            + reason,
        ErrorView::UnsupportedFormat(s) => text =~= "unsupported model format: "@ + s,
        ErrorView::MissingTensor { name, path } => text =~= "missing tensor '"@ + name
            + "' in model '"@ + path + "'"@,
        ErrorView::GgufParse(s) => text =~= "GGUF parse failed: "@ + s,
        ErrorView::SafetensorsParse(s) => text =~= "Safetensors parse failed: "@ + s,
        ErrorView::InputLengthMismatch { expected, got } => text
            =~= "input length mismatch: expected "@ + text::decimal(expected as nat) + ", got "@ + text::decimal(
            got as nat,
        ),
        ErrorView::HiddenStateRank { got } => text =~= "hidden-state rank "@ + text::decimal(got as nat)
            + " is unsupported (expected 1 or 2)"@,
        ErrorView::HiddenStateSeqLen { expected, got } => text
            =~= "hidden-state sequence length mismatch: expected "@ + text::decimal(expected as nat)
            + ", got "@ + text::decimal(got as nat),
        ErrorView::HiddenStateDim { expected, got } => text
            =~= "hidden-state dimension mismatch: expected "@ + text::decimal(expected as nat) + ", got "@
            + text::decimal(got as nat),
        ErrorView::HiddenStateDataLen { expected, got } => text
            =~= "hidden-state data length mismatch: expected "@ + text::decimal(expected as nat)
            + ", got "@ + text::decimal(got as nat),
        ErrorView::NonFinite { stage, index } => text =~= "non-finite value in "@ + stage.named()
            + " at index "@ + text::decimal(index as nat),
        ErrorView::ZeroSnnChannels => text =~= "SNN has zero input channels"@,
        ErrorView::ConfigMismatch { field, configured, backend } => text
            =~= "configuration mismatch for "@ + field + ": configured "@ + text::decimal(
            configured as nat,
        ) + ", backend "@ + text::decimal(backend as nat),
        ErrorView::SnnStep(s) => text =~= "SNN step failed: "@ + s,
        ErrorView::Io(e) => ends_with_display("I/O error: "@, &e, text),
        ErrorView::Json(e) => ends_with_display("JSON error: "@, &e, text),
    }
}

/// `expected` and `got` after a heading.
fn expected_got(heading: &str, expected: usize, got: usize) -> (r: String)
    ensures
        r@ == heading@ + text::decimal(expected as nat) + ", got "@ + text::decimal(got as nat),
{
    let mut out = text::with_number(heading, expected, ", got ");
    text::push_decimal(&mut out, got);
    out
}

impl HybridError {
    /// Name of the configured transformer width.
    pub const FIELD_TRANSFORMER_DIM: &'static str = "transformer.dim";

    /// Name of the configured maximum sequence length.
    pub const FIELD_TRANSFORMER_MAX_SEQ_LEN: &'static str = "transformer.max_seq_len";

    /// Name of the configured spiking-network width.
    pub const FIELD_SNN_INPUT_CHANNELS: &'static str = "snn_input_channels";

    /// A configured size that disagrees with the backend's.
    pub fn config_mismatch(field: &'static str, configured: usize, backend: usize) -> (r: Self)
        ensures
            r == (HybridError::ConfigMismatch { field, configured, backend }),
    {
        HybridError::ConfigMismatch { field, configured, backend }
    }

    /// How the error reads.
    pub fn message(&self) -> (r: String)
        ensures
            reads_as(self@, r@),
    {
        match self {
            HybridError::InvalidConfig(s) => text::join("invalid configuration: ", s.as_str()),
            HybridError::ModelLoad { path, reason } => {
                let mut out = text::join("model load failed for '", path.as_str());
                out.append("': ");
                out.append(reason.as_str());
                out
            },
            HybridError::UnsupportedFormat(s) => text::join("unsupported model format: ", s.as_str()),
            HybridError::MissingTensor { name, path } => {
                let mut out = text::join("missing tensor '", name.as_str());
                out.append("' in model '");
                out.append(path.as_str());
                out.append("'");
                out
            },
            HybridError::GgufParse(s) => text::join("GGUF parse failed: ", s.as_str()),
            HybridError::SafetensorsParse(s) => text::join("Safetensors parse failed: ", s.as_str()),
            HybridError::InputLengthMismatch { expected, got } => expected_got(
                "input length mismatch: expected ",
                *expected,
                *got,
            ),
            HybridError::HiddenStateRank { got } => text::with_number(
                "hidden-state rank ",
                *got,
                " is unsupported (expected 1 or 2)",
            ),
            HybridError::HiddenStateSeqLen { expected, got } => expected_got(
                "hidden-state sequence length mismatch: expected ",
                *expected,
                *got,
            ),
            HybridError::HiddenStateDim { expected, got } => expected_got(
                "hidden-state dimension mismatch: expected ",
                *expected,
                *got,
            ),
            HybridError::HiddenStateDataLen { expected, got } => expected_got(
                "hidden-state data length mismatch: expected ",
                *expected,
                *got,
            ),
            HybridError::NonFinite { stage, index } => {
                let mut out = text::join("non-finite value in ", stage.name());
                out.append(" at index ");
                text::push_decimal(&mut out, *index);
                out
            },
            HybridError::ZeroSnnChannels => String::from_str("SNN has zero input channels"),
            HybridError::ConfigMismatch { field, configured, backend } => {
                let mut out = text::join("configuration mismatch for ", field);
                out.append(": configured ");
                text::push_decimal(&mut out, *configured);
                out.append(", backend ");
                text::push_decimal(&mut out, *backend);
                out
            },
            HybridError::SnnStep(s) => text::join("SNN step failed: ", s.as_str()),
            HybridError::Io(e) => {
                let cause = e.to_string();
                let out = text::join("I/O error: ", cause.as_str());
                assert(vstd::string::to_string_from_display_ensures(e, cause));
                assert(ends_with_display("I/O error: "@, e, out@));
                out
            },
            HybridError::Json(e) => {
                let cause = e.to_string();
                let out = text::join("JSON error: ", cause.as_str());
                assert(vstd::string::to_string_from_display_ensures(e, cause));
                assert(ends_with_display("JSON error: "@, e, out@));
                out
            },
        }
    }
}

/// The text ends with `tail`.
pub open spec fn ends_with(text: Seq<char>, tail: Seq<char>) -> bool {
    tail.len() <= text.len() && text.skip(text.len() - tail.len()) == tail
}

/// What stands behind something is what the whole ends with.
proof fn lemma_ends_with(front: Seq<char>, tail: Seq<char>)
    ensures
        ends_with(front + tail, tail),
{
    assert((front + tail).skip(front.len() as int) =~= tail);
}

/// A mismatch of lengths reads with what was expected before what came.
pub proof fn law_mismatch_text(expected: usize, got: usize, text: Seq<char>)
    ensures
        ({
            let tail = text::decimal(expected as nat) + ", got "@ + text::decimal(got as nat);
            &&& reads_as(ErrorView::InputLengthMismatch { expected, got }, text) ==> ends_with(
                text,
                tail,
            )
            &&& reads_as(ErrorView::HiddenStateSeqLen { expected, got }, text) ==> ends_with(
                text,
                tail,
            )
            &&& reads_as(ErrorView::HiddenStateDim { expected, got }, text) ==> ends_with(text, tail)
            &&& reads_as(ErrorView::HiddenStateDataLen { expected, got }, text) ==> ends_with(
                text,
                tail,
            )
        }),
{
    let e = text::decimal(expected as nat);
    let g = text::decimal(got as nat);
    let tail = e + ", got "@ + g;
    let headings = seq![
        "input length mismatch: expected "@,
        "hidden-state sequence length mismatch: expected "@,
        "hidden-state dimension mismatch: expected "@,
        "hidden-state data length mismatch: expected "@,
    ];
    assert forall|i: int| 0 <= i < 4 implies ends_with(
        #[trigger] headings[i] + e + ", got "@ + g,
        tail,
    ) by {
        assert(headings[i] + e + ", got "@ + g =~= headings[i] + tail);
        lemma_ends_with(headings[i], tail);
    }
    assert(ends_with(headings[0] + e + ", got "@ + g, tail));
    assert(ends_with(headings[1] + e + ", got "@ + g, tail));
    assert(ends_with(headings[2] + e + ", got "@ + g, tail));
    assert(ends_with(headings[3] + e + ", got "@ + g, tail));
}

/// A mismatch of configurations reads with the field, what was configured and
/// what the backend has, and a number that is not finite with its stage and its
/// place.
pub proof fn law_value_text(
    field: Seq<char>,
    configured: usize,
    backend: usize,
    stage: ForwardValueStage,
    index: usize,
    text: Seq<char>,
)
    ensures
        reads_as(ErrorView::ConfigMismatch { field, configured, backend }, text) ==> ends_with(
            text,
            field + ": configured "@ + text::decimal(configured as nat) + ", backend "@
                + text::decimal(backend as nat),
        ),
        reads_as(ErrorView::NonFinite { stage, index }, text) ==> ends_with(
            text,
            stage.named() + " at index "@ + text::decimal(index as nat),
        ),
{
    let c = text::decimal(configured as nat);
    let b = text::decimal(backend as nat);
    let tail = field + ": configured "@ + c + ", backend "@ + b;
    let heading = "configuration mismatch for "@;
    assert(heading + field + ": configured "@ + c + ", backend "@ + b =~= heading + tail);
    lemma_ends_with(heading, tail);
    let place = stage.named() + " at index "@ + text::decimal(index as nat);
    let before = "non-finite value in "@;
    assert(before + stage.named() + " at index "@ + text::decimal(index as nat) =~= before + place);
    lemma_ends_with(before, place);
}

/// An error that carries a text reads with that text at its end.
pub proof fn law_carried_text(s: Seq<char>, path: Seq<char>, text: Seq<char>)
    ensures
        reads_as(ErrorView::InvalidConfig(s), text) ==> ends_with(text, s),
        reads_as(ErrorView::UnsupportedFormat(s), text) ==> ends_with(text, s),
        reads_as(ErrorView::GgufParse(s), text) ==> ends_with(text, s),
        reads_as(ErrorView::SafetensorsParse(s), text) ==> ends_with(text, s),
        reads_as(ErrorView::SnnStep(s), text) ==> ends_with(text, s),
        reads_as(ErrorView::ModelLoad { path, reason: s }, text) ==> ends_with(
            text,
            path + "': "@ + s,
        ),
        reads_as(ErrorView::MissingTensor { name: s, path }, text) ==> ends_with(
            text,
            s + "' in model '"@ + path + "'"@,
        ),
{
    lemma_ends_with("invalid configuration: "@, s);
    lemma_ends_with("unsupported model format: "@, s);
    lemma_ends_with("GGUF parse failed: "@, s);
    lemma_ends_with("Safetensors parse failed: "@, s);
    lemma_ends_with("SNN step failed: "@, s);
    let load = path + "': "@ + s;
    assert("model load failed for '"@ + path + "': "@ + s =~= "model load failed for '"@ + load);
    lemma_ends_with("model load failed for '"@, load);
    let missing = s + "' in model '"@ + path + "'"@;
    assert("missing tensor '"@ + s + "' in model '"@ + path + "'"@ =~= "missing tensor '"@ + missing);
    lemma_ends_with("missing tensor '"@, missing);
}

} // verus!
