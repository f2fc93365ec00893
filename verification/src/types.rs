//! Configuration, checkpoint-inventory and output types.

use crate::scalar::Scalar;
use crate::text;
use vstd::prelude::*;

verus! {

/// Strategy to convert spike activity into a dense embedding for an expert
/// router. There are no learned weights in any of them.
#[derive(Debug, Clone, Copy, PartialEq, Eq, Structural)]
pub enum ProjectionMode {
    /// Firing rates only, one per neuron.
    RateSum,
    /// Time-binned spike histogram only, four bins per neuron.
    TemporalHistogram,
    /// Clamped membrane potentials only, one per neuron.
    MembraneSnapshot,
    /// The same features as [`ProjectionMode::RateSum`].
    SpikingTernary,
}

impl Default for ProjectionMode {
    fn default() -> (r: Self)
        ensures
            r == ProjectionMode::RateSum,
    {
        ProjectionMode::RateSum
    }
}

/// Precision a stage is planned at.
#[derive(Debug, Clone, Copy, PartialEq, Eq, Structural)]
pub enum PrecisionTier {
    /// Kept at its source precision.
    Preserve,
    /// Half precision.
    Fp16,
    /// Ternary weights for spiking execution.
    TernarySnn,
}

/// Storage type of a checkpoint tensor, in the vocabulary of Safetensors
/// headers.
#[derive(Debug, Clone, Copy, PartialEq, Eq, Structural)]
pub enum Dtype {
    F64,
    F32,
    F16,
    BF16,
    I64,
    I32,
    I16,
    I8,
    U64,
    U32,
    U16,
    U8,
    Bool,
    F4,
    F6E2M3,
    F6E3M2,
    F8E5M2,
    F8E4M3,
    F8E8M0,
    C64,
}

/// Role of a named checkpoint tensor in a mixture-of-experts model.
#[derive(Debug, Clone, Copy, PartialEq, Eq, Structural)]
pub enum TensorRole {
    /// Router or gate tensor.
    Router,
    /// Expert parameter tensor.
    ExpertWeight,
    /// Attention projection or scores.
    Attention,
    /// Token or position embeddings and output head.
    Embedding,
    /// Normalization.
    Norm,
    /// Anything else.
    Other,
}

impl Default for TensorRole {
    fn default() -> (r: Self)
        ensures
            r == TensorRole::Other,
    {
        TensorRole::Other
    }
}

/// The component belongs to an expert.
pub open spec fn expert_part(p: Seq<char>) -> bool {
    text::occurs(p, "expert"@)
}

/// The component names a router.
pub open spec fn router_part(p: Seq<char>) -> bool {
    p == "gate"@ || text::occurs_at(p, "router"@, 0)
}

/// The component belongs to attention.
pub open spec fn attention_part(p: Seq<char>) -> bool {
    ||| text::occurs(p, "attn"@)
    ||| p == "attention"@
    ||| p == "q_proj"@
    ||| p == "k_proj"@
    ||| p == "v_proj"@
    ||| p == "o_proj"@
    ||| p == "qkv"@
    ||| p == "wq"@
    ||| p == "wk"@
    ||| p == "wv"@
    ||| p == "wo"@
}

/// The component belongs to an embedding or the output head.
pub open spec fn embedding_part(p: Seq<char>) -> bool {
    ||| text::occurs(p, "embed"@)
    ||| p == "wte"@
    ||| p == "wpe"@
    ||| p == "lm_head"@
    ||| p == "token_embd"@
}

/// The component belongs to a normalization.
pub open spec fn norm_part(p: Seq<char>) -> bool {
    text::occurs(p, "norm"@)
}

/// Some component satisfies `test`.
pub open spec fn some_part(parts: Seq<Seq<char>>, test: spec_fn(Seq<char>) -> bool) -> bool {
    exists|i: int| 0 <= i < parts.len() && test(#[trigger] parts[i])
}

/// The role that a tensor name suggests: the first that claims one of the
/// dot-separated components, whatever the case of its letters.
pub open spec fn role_of(name: Seq<char>) -> TensorRole {
    let parts = text::components(text::lowered(name));
    if some_part(parts, |p: Seq<char>| expert_part(p)) {
        TensorRole::ExpertWeight
    } else if some_part(parts, |p: Seq<char>| router_part(p)) {
        TensorRole::Router
    } else if some_part(parts, |p: Seq<char>| attention_part(p)) {
        TensorRole::Attention
    } else if some_part(parts, |p: Seq<char>| embedding_part(p)) {
        TensorRole::Embedding
    } else if some_part(parts, |p: Seq<char>| norm_part(p)) {
        TensorRole::Norm
    } else {
        TensorRole::Other
    }
}

/// The components as character sequences.
pub open spec fn parts_view(parts: Seq<Vec<char>>) -> Seq<Seq<char>> {
    parts.map_values(|p: Vec<char>| p@)
}

/// Whether some component belongs to an expert.
pub fn is_expert_component(parts: &Vec<Vec<char>>) -> (r: bool)
    ensures
        r == some_part(parts_view(parts@), |p: Seq<char>| expert_part(p)),
{
    let ghost view = parts_view(parts@);
    let ghost test = |p: Seq<char>| expert_part(p);
    let mut i: usize = 0;
    while i < parts.len()
        invariant
            i <= parts@.len(),
            view == parts_view(parts@),
            test == (|p: Seq<char>| expert_part(p)),
            forall|k: int| 0 <= k < i ==> !test(#[trigger] view[k]),
        decreases parts@.len() - i,
    {
        assert(view[i as int] == parts@[i as int]@);
        if text::contains_word(&parts[i], "expert") {
            assert(test(view[i as int]));
            return true;
        }
        i = i + 1;
    }
    false
}

/// Whether some component names a router.
pub fn is_router_component(parts: &Vec<Vec<char>>) -> (r: bool)
    ensures
        r == some_part(parts_view(parts@), |p: Seq<char>| router_part(p)),
{
    let ghost view = parts_view(parts@);
    let ghost test = |p: Seq<char>| router_part(p);
    let mut i: usize = 0;
    while i < parts.len()
        invariant
            i <= parts@.len(),
            view == parts_view(parts@),
            test == (|p: Seq<char>| router_part(p)),
            forall|k: int| 0 <= k < i ==> !test(#[trigger] view[k]),
        decreases parts@.len() - i,
    {
        assert(view[i as int] == parts@[i as int]@);
        let p = &parts[i];
        if text::is_word(p, "gate") || text::starts_with_word(p, "router") {
            assert(test(view[i as int]));
            return true;
        }
        i = i + 1;
    }
    false
}

/// Whether some component belongs to attention.
pub fn is_attention_component(parts: &Vec<Vec<char>>) -> (r: bool)
    ensures
        r == some_part(parts_view(parts@), |p: Seq<char>| attention_part(p)),
{
    let ghost view = parts_view(parts@);
    let ghost test = |p: Seq<char>| attention_part(p);
    let mut i: usize = 0;
    while i < parts.len()
        invariant
            i <= parts@.len(),
            view == parts_view(parts@),
            test == (|p: Seq<char>| attention_part(p)),
            forall|k: int| 0 <= k < i ==> !test(#[trigger] view[k]),
        decreases parts@.len() - i,
    {
        assert(view[i as int] == parts@[i as int]@);
        let p = &parts[i];
        if text::contains_word(p, "attn") || text::is_word(p, "attention") || text::is_word(
            p,
            "q_proj",
        ) || text::is_word(p, "k_proj") || text::is_word(p, "v_proj") || text::is_word(p, "o_proj")
            || text::is_word(p, "qkv") || text::is_word(p, "wq") || text::is_word(p, "wk")
            || text::is_word(p, "wv") || text::is_word(p, "wo") {
            assert(test(view[i as int]));
            return true;
        }
        i = i + 1;
    }
    false
}

/// Whether some component belongs to an embedding or the output head.
pub fn is_embedding_component(parts: &Vec<Vec<char>>) -> (r: bool)
    ensures
        r == some_part(parts_view(parts@), |p: Seq<char>| embedding_part(p)),
{
    let ghost view = parts_view(parts@);
    let ghost test = |p: Seq<char>| embedding_part(p);
    let mut i: usize = 0;
    while i < parts.len()
        invariant
            i <= parts@.len(),
            view == parts_view(parts@),
            test == (|p: Seq<char>| embedding_part(p)),
            forall|k: int| 0 <= k < i ==> !test(#[trigger] view[k]),
        decreases parts@.len() - i,
    {
        assert(view[i as int] == parts@[i as int]@);
        let p = &parts[i];
        if text::contains_word(p, "embed") || text::is_word(p, "wte") || text::is_word(p, "wpe")
            || text::is_word(p, "lm_head") || text::is_word(p, "token_embd") {
            assert(test(view[i as int]));
            return true;
        }
        i = i + 1;
    }
    false
}

/// Whether some component belongs to a normalization.
pub fn is_norm_component(parts: &Vec<Vec<char>>) -> (r: bool)
    ensures
        r == some_part(parts_view(parts@), |p: Seq<char>| norm_part(p)),
{
    let ghost view = parts_view(parts@);
    let ghost test = |p: Seq<char>| norm_part(p);
    let mut i: usize = 0;
    while i < parts.len()
        invariant
            i <= parts@.len(),
            view == parts_view(parts@),
            test == (|p: Seq<char>| norm_part(p)),
            forall|k: int| 0 <= k < i ==> !test(#[trigger] view[k]),
        decreases parts@.len() - i,
    {
        assert(view[i as int] == parts@[i as int]@);
        if text::contains_word(&parts[i], "norm") {
            assert(test(view[i as int]));
            return true;
        }
        i = i + 1;
    }
    false
}

impl TensorRole {
    /// Infers a role from a checkpoint tensor name.
    ///
    /// Matching ignores ASCII case and goes by dot-separated components, so
    /// that a feed-forward `gate_proj` is no router. Experts win over routers,
    /// so that `experts.0.gate` is an expert's.
    pub fn from_name(name: &str) -> (r: Self)
        ensures
            r == role_of(name@),
    {
        let parts = text::lowered_components(name);
        assert(parts_view(parts@) =~= text::components(text::lowered(name@)));
        if is_expert_component(&parts) {
            return TensorRole::ExpertWeight;
        }
        if is_router_component(&parts) {
            return TensorRole::Router;
        }
        if is_attention_component(&parts) {
            return TensorRole::Attention;
        }
        if is_embedding_component(&parts) {
            return TensorRole::Embedding;
        }
        if is_norm_component(&parts) {
            return TensorRole::Norm;
        }
        TensorRole::Other
    }
}

/// The case of ASCII letters does not matter to a role.
pub proof fn law_role_ignores_case(name: Seq<char>)
    ensures
        role_of(text::lowered(name)) == role_of(name),
{
    assert(text::lowered(text::lowered(name)) =~= text::lowered(name));
}

/// A component that belongs to an expert decides: whatever else a name holds,
/// its role is that of an expert's weight.
pub proof fn law_expert_decides(name: Seq<char>, i: int)
    requires
        0 <= i < text::components(text::lowered(name)).len(),
        expert_part(text::components(text::lowered(name))[i]),
    ensures
        role_of(name) == TensorRole::ExpertWeight,
{
    let parts = text::components(text::lowered(name));
    let test = |p: Seq<char>| expert_part(p);
    assert(test(parts[i]));
}

/// One named tensor in a checkpoint inventory. Layout only, no payload.
#[derive(Debug, Clone, PartialEq, Eq)]
pub struct TensorManifestEntry {
    /// Checkpoint tensor name.
    pub name: String,
    /// Header storage type.
    pub dtype: Dtype,
    /// Extent of each axis.
    pub shape: Vec<usize>,
    /// File of a sharded checkpoint that holds the tensor.
    pub shard: Option<String>,
    /// Role, inferred from the name by [`TensorManifestEntry::new`].
    pub role: TensorRole,
    /// Free-form labels.
    pub labels: Vec<String>,
}

impl TensorManifestEntry {
    /// An entry whose role is inferred from `name`.
    pub fn new(
        name: String,
        dtype: Dtype,
        shape: Vec<usize>,
        shard: Option<String>,
        labels: Vec<String>,
    ) -> (r: Self)
        ensures
            r == (TensorManifestEntry {
                name,
                dtype,
                shape,
                shard,
                role: role_of(name@),
                labels,
            }),
    {
        let role = TensorRole::from_name(name.as_str());
        TensorManifestEntry { name, dtype, shape, shard, role, labels }
    }
}

/// Sizes of a transformer.
#[derive(Debug, Clone)]
pub struct TransformerConfig {
    pub vocab_size: usize,
    pub dim: usize,
    pub num_heads: usize,
    pub num_layers: usize,
    pub ff_dim: usize,
    pub max_seq_len: usize,
}

impl TransformerConfig {
    /// The smallest preset.
    pub open spec fn tiny_sizes() -> TransformerConfig {
        TransformerConfig {
            vocab_size: 256,
            dim: 128,
            num_heads: 4,
            num_layers: 2,
            ff_dim: 256,
            max_seq_len: 64,
        }
    }

    /// The preset of a one-billion-parameter OLMo model.
    pub open spec fn olmo_1b_sizes() -> TransformerConfig {
        TransformerConfig {
            vocab_size: 50304,
            dim: 2048,
            num_heads: 16,
            num_layers: 22,
            ff_dim: 5504,
            max_seq_len: 2048,
        }
    }

    /// The smallest preset.
    pub fn tiny() -> (r: Self)
        ensures
            r == TransformerConfig::tiny_sizes(),
    {
        TransformerConfig {
            vocab_size: 256,
            dim: 128,
            num_heads: 4,
            num_layers: 2,
            ff_dim: 256,
            max_seq_len: 64,
        }
    }

    /// The preset of a one-billion-parameter OLMo model.
    pub fn olmo_1b() -> (r: Self)
        ensures
            r == TransformerConfig::olmo_1b_sizes(),
    {
        TransformerConfig {
            vocab_size: 50304,
            dim: 2048,
            num_heads: 16,
            num_layers: 22,
            ff_dim: 5504,
            max_seq_len: 2048,
        }
    }
}

/// Sizes of a hybrid network.
#[derive(Debug, Clone)]
pub struct HybridConfig {
    pub transformer: TransformerConfig,
    pub snn_lif_neurons: usize,
    pub snn_izh_neurons: usize,
    pub snn_input_channels: usize,
}

impl HybridConfig {
    /// The smallest preset.
    pub open spec fn tiny_sizes() -> HybridConfig {
        HybridConfig {
            transformer: TransformerConfig::tiny_sizes(),
            snn_lif_neurons: 32,
            snn_izh_neurons: 8,
            snn_input_channels: 64,
        }
    }

    /// The preset for a one-billion-parameter OLMo model.
    pub open spec fn olmo_1b_sizes() -> HybridConfig {
        HybridConfig {
            transformer: TransformerConfig::olmo_1b_sizes(),
            snn_lif_neurons: 128,
            snn_izh_neurons: 32,
            snn_input_channels: 256,
        }
    }

    /// The smallest preset.
    pub fn tiny() -> (r: Self)
        ensures
            r == HybridConfig::tiny_sizes(),
    {
        HybridConfig {
            transformer: TransformerConfig::tiny(),
            snn_lif_neurons: 32,
            snn_izh_neurons: 8,
            snn_input_channels: 64,
        }
    }

    /// The preset for a one-billion-parameter OLMo model.
    pub fn olmo_1b() -> (r: Self)
        ensures
            r == HybridConfig::olmo_1b_sizes(),
    {
        HybridConfig {
            transformer: TransformerConfig::olmo_1b(),
            snn_lif_neurons: 128,
            snn_izh_neurons: 32,
            snn_input_channels: 256,
        }
    }
}

impl Default for HybridConfig {
    fn default() -> (r: Self)
        ensures
            r == HybridConfig::tiny_sizes(),
    {
        HybridConfig::tiny()
    }
}

/// What a pass through either host gives.
#[derive(Debug, Clone)]
pub struct HybridOutput {
    pub embedding: Vec<Scalar>,
    pub stimuli: Vec<Scalar>,
    pub fired_neurons: Vec<usize>,
    pub global_step: u64,
    /// Gate weights, one per expert, where routing ran. They are the router's
    /// weights rescaled to sum to one.
    pub expert_weights: Option<Vec<Scalar>>,
    /// Indices of the selected experts, where routing ran.
    pub selected_experts: Option<Vec<usize>>,
    /// Entropy that the router reported, passed through.
    pub routing_entropy: Option<Scalar>,
}

/// A name has the first of these roles that it has a claim to: an expert's by a
/// component with `expert` in it; a router's by the component `gate` or one that
/// begins with `router`; attention's, an embedding's or a normalization's by a
/// component with `attn`, `embed` or `norm` in it or one of their own words; and
/// else no particular one.
pub proof fn law_roles(name: Seq<char>)
    ensures
        ({
            let parts = text::components(text::lowered(name));
            let expert = exists|i: int|
                0 <= i < parts.len() && text::occurs(#[trigger] parts[i], "expert"@);
            let router = exists|i: int|
                0 <= i < parts.len() && (#[trigger] parts[i] == "gate"@ || text::occurs_at(
                    parts[i],
                    "router"@,
                    0,
                ));
            let attention = exists|i: int|
                #![trigger parts[i]]
                0 <= i < parts.len() && (text::occurs(parts[i], "attn"@) || seq![
                    "attention"@,
                    "q_proj"@,
                    "k_proj"@,
                    "v_proj"@,
                    "o_proj"@,
                    "qkv"@,
                    "wq"@,
                    "wk"@,
                    "wv"@,
                    "wo"@,
                ].contains(parts[i]));
            let embedding = exists|i: int|
                #![trigger parts[i]]
                0 <= i < parts.len() && (text::occurs(parts[i], "embed"@) || seq![
                    "wte"@,
                    "wpe"@,
                    "lm_head"@,
                    "token_embd"@,
                ].contains(parts[i]));
            let norm = exists|i: int|
                0 <= i < parts.len() && text::occurs(#[trigger] parts[i], "norm"@);
            &&& role_of(name) == TensorRole::ExpertWeight <==> expert
            &&& role_of(name) == TensorRole::Router <==> router && !expert
            &&& role_of(name) == TensorRole::Attention <==> attention && !router && !expert
            &&& role_of(name) == TensorRole::Embedding <==> embedding && !attention && !router
                && !expert
            &&& role_of(name) == TensorRole::Norm <==> norm && !embedding && !attention && !router
                && !expert
            &&& role_of(name) == TensorRole::Other <==> !norm && !embedding && !attention
                && !router && !expert
        }),
{
    let parts = text::components(text::lowered(name));
    let expert = |p: Seq<char>| expert_part(p);
    let router = |p: Seq<char>| router_part(p);
    let attention = |p: Seq<char>| attention_part(p);
    let embedding = |p: Seq<char>| embedding_part(p);
    let norm = |p: Seq<char>| norm_part(p);
    let of_attention = seq![
        "attention"@,
        "q_proj"@,
        "k_proj"@,
        "v_proj"@,
        "o_proj"@,
        "qkv"@,
        "wq"@,
        "wk"@,
        "wv"@,
        "wo"@,
    ];
    let of_embedding = seq!["wte"@, "wpe"@, "lm_head"@, "token_embd"@];
    assert forall|i: int| 0 <= i < parts.len() implies {
        &&& expert(#[trigger] parts[i]) <==> text::occurs(parts[i], "expert"@)
        &&& router(parts[i]) <==> parts[i] == "gate"@ || text::occurs_at(parts[i], "router"@, 0)
        &&& attention(parts[i]) <==> text::occurs(parts[i], "attn"@) || of_attention.contains(
            parts[i],
        )
        &&& embedding(parts[i]) <==> text::occurs(parts[i], "embed"@) || of_embedding.contains(
            parts[i],
        )
        &&& norm(parts[i]) <==> text::occurs(parts[i], "norm"@)
    } by {
        let p = parts[i];
        assert(p == of_attention[0] || p == of_attention[1] || p == of_attention[2] || p
            == of_attention[3] || p == of_attention[4] || p == of_attention[5] || p
            == of_attention[6] || p == of_attention[7] || p == of_attention[8] || p
            == of_attention[9] <==> of_attention.contains(p));
        assert(p == of_embedding[0] || p == of_embedding[1] || p == of_embedding[2] || p
            == of_embedding[3] <==> of_embedding.contains(p));
    }
}

/// The sizes of the presets.
pub proof fn law_presets()
    ensures
        ({
            let tiny = HybridConfig::tiny_sizes();
            &&& (tiny.transformer.vocab_size, tiny.transformer.dim, tiny.transformer.num_heads) == (
                256usize,
                128usize,
                4usize,
            )
            &&& (
                tiny.transformer.num_layers,
                tiny.transformer.ff_dim,
                tiny.transformer.max_seq_len,
            ) == (2usize, 256usize, 64usize)
            &&& (tiny.snn_lif_neurons, tiny.snn_izh_neurons, tiny.snn_input_channels) == (
                32usize,
                8usize,
                64usize,
            )
        }),
        ({
            let large = HybridConfig::olmo_1b_sizes();
            &&& (large.transformer.vocab_size, large.transformer.dim, large.transformer.num_heads)
                == (50304usize, 2048usize, 16usize)
            &&& (
                large.transformer.num_layers,
                large.transformer.ff_dim,
                large.transformer.max_seq_len,
            ) == (22usize, 5504usize, 2048usize)
            &&& (large.snn_lif_neurons, large.snn_izh_neurons, large.snn_input_channels) == (
                128usize,
                32usize,
                256usize,
            )
        }),
        HybridConfig::tiny_sizes().transformer == TransformerConfig::tiny_sizes(),
        HybridConfig::olmo_1b_sizes().transformer == TransformerConfig::olmo_1b_sizes(),
{
}

} // verus!
