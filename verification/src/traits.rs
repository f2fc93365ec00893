//! The contracts that backends implement, and the data that crosses them.

use crate::error;
use crate::error::HybridError;
use crate::scalar;
use crate::scalar::Scalar;
use crate::tensor::Tensor;
use crate::text;
use crate::types::PrecisionTier;
use vstd::prelude::*;

verus! {

/// A transformer backend.
pub trait Transformer {
    /// Hidden states for the tokens: `[dim]`, or `[seq, dim]` with one row per
    /// token.
    fn hidden_states(&self, token_ids: &[u32]) -> Tensor;

    /// Width of a hidden state.
    fn dim(&self) -> usize;

    /// Longest token sequence the backend takes.
    fn max_seq_len(&self) -> usize;

    /// Number of parameters; informational.
    fn param_count(&self) -> usize;
}

/// A spiking-network backend.
pub trait SpikingNetwork {
    /// Advances by one timestep and gives the indices of the neurons that
    /// fired.
    fn step(&mut self, stimuli: &[Scalar], modulators: &NeuroModulators) -> Result<
        Vec<usize>,
        HybridError,
    >;

    /// Number of input channels.
    fn num_channels(&self) -> usize;
}

/// Signals that modulate a spiking network.
#[derive(Debug, Clone, Copy)]
pub struct NeuroModulators {
    pub dopamine: Scalar,
    pub cortisol: Scalar,
    pub acetylcholine: Scalar,
    pub tempo: Scalar,
    pub aux_dopamine: Scalar,
}

impl NeuroModulators {
    /// The neutral signals: a half of dopamine and acetylcholine, unit tempo,
    /// nothing else.
    pub open spec fn neutral() -> NeuroModulators {
        NeuroModulators {
            dopamine: scalar::scalar(scalar::HALF_BITS),
            cortisol: scalar::scalar(0),
            acetylcholine: scalar::scalar(scalar::HALF_BITS),
            tempo: scalar::scalar(scalar::ONE_BITS),
            aux_dopamine: scalar::scalar(0),
        }
    }
}

impl Default for NeuroModulators {
    fn default() -> (r: Self)
        ensures
            r == NeuroModulators::neutral(),
    {
        NeuroModulators {
            dopamine: Scalar { bits: scalar::HALF_BITS },
            cortisol: Scalar { bits: 0 },
            acetylcholine: Scalar { bits: scalar::HALF_BITS },
            tempo: Scalar { bits: scalar::ONE_BITS },
            aux_dopamine: Scalar { bits: 0 },
        }
    }
}

/// A loader of GGUF checkpoint layouts.
pub trait GgufLoader {
    /// The layout of the checkpoint at `path`.
    fn load(&self, path: &str) -> Result<GgufLayout, HybridError>;
}

/// Layout of a GGUF checkpoint.
pub struct GgufLayout {
    pub architecture: String,
    pub tensor_count: usize,
}

/// Spikes and membrane potentials, without neuron dynamics.
#[derive(Debug, Clone, PartialEq)]
pub struct SpikeActivity {
    /// Indices of the neurons that fired, per timestep.
    pub spike_train: Vec<Vec<usize>>,
    /// Membrane potentials.
    pub potentials: Vec<Scalar>,
    /// Adaptive-bank potentials; empty where unused. No projection mode reads
    /// them.
    pub iz_potentials: Vec<Scalar>,
}

/// Every index is below `n`.
pub open spec fn all_below(indices: Seq<usize>, n: usize) -> bool {
    forall|i: int| 0 <= i < indices.len() ==> #[trigger] indices[i] < n
}

/// The first index that is not below `n` stands at `i`.
pub open spec fn out_of_range_at(indices: Seq<usize>, n: usize, i: int) -> bool {
    &&& 0 <= i < indices.len()
    &&& indices[i] >= n
    &&& forall|k: int| 0 <= k < i ==> #[trigger] indices[k] < n
}

/// The first index that is not below `n`.
pub open spec fn first_out_of_range(indices: Seq<usize>, n: usize) -> usize {
    indices[choose|i: int| out_of_range_at(indices, n, i)]
}

/// The first index out of range is one index.
pub proof fn lemma_out_of_range(indices: Seq<usize>, n: usize, i: int)
    requires
        out_of_range_at(indices, n, i),
    ensures
        !all_below(indices, n),
        first_out_of_range(indices, n) == indices[i],
{
    let c = choose|k: int| out_of_range_at(indices, n, k);
    assert(out_of_range_at(indices, n, c));
    if c < i {
        assert(indices[c] < n);
    } else if i < c {
        assert(indices[i] < n);
    }
}

/// The first index that is not below `n`, where there is one.
pub fn find_out_of_range(indices: &[usize], n: usize) -> (r: Option<usize>)
    ensures
        r == (if all_below(indices@, n) {
            None
        } else {
            Some(first_out_of_range(indices@, n))
        }),
{
    let mut i: usize = 0;
    while i < indices.len()
        invariant
            i <= indices@.len(),
            forall|k: int| 0 <= k < i ==> #[trigger] indices@[k] < n,
        decreases indices@.len() - i,
    {
        if indices[i] >= n {
            proof {
                lemma_out_of_range(indices@, n, i as int);
            }
            return Some(indices[i]);
        }
        i = i + 1;
    }
    None
}

impl SpikeActivity {
    /// What is wrong with a step of `fired` neurons out of `n_neurons`.
    pub open spec fn fired_error(fired: Seq<usize>, n_neurons: usize) -> Option<error::ErrorView> {
        if n_neurons == 0 {
            Some(
                error::ErrorView::InvalidConfig(
                    "SpikeActivity::from_fired: n_neurons must be > 0"@,
                ),
            )
        } else if !all_below(fired, n_neurons) {
            Some(
                error::ErrorView::InvalidConfig(
                    "SpikeActivity::from_fired: fired index "@ + text::decimal(
                        first_out_of_range(fired, n_neurons) as nat,
                    ) + " out of range for n_neurons="@ + text::decimal(n_neurons as nat),
                ),
            )
        } else {
            None
        }
    }

    /// One step of activity: the neurons that fired, and membranes at rest.
    pub fn from_fired(fired: &[usize], n_neurons: usize) -> (r: Result<Self, HybridError>)
        ensures
            match r {
                Ok(activity) => {
                    &&& SpikeActivity::fired_error(fired@, n_neurons) is None
                    &&& activity.spike_train@.len() == 1
                    &&& activity.spike_train@[0]@ == fired@
                    &&& activity.potentials@ == Seq::new(
                        n_neurons as nat,
                        |i: int| scalar::scalar(0),
                    )
                    &&& activity.iz_potentials@.len() == 0
                },
                Err(e) => SpikeActivity::fired_error(fired@, n_neurons) == Some(e@),
            },
    {
        if n_neurons == 0 {
            return Err(
                HybridError::InvalidConfig(
                    String::from_str("SpikeActivity::from_fired: n_neurons must be > 0"),
                ),
            );
        }
        match find_out_of_range(fired, n_neurons) {
            Some(idx) => {
                let mut message = text::with_number(
                    "SpikeActivity::from_fired: fired index ",
                    idx,
                    " out of range for n_neurons=",
                );
                text::push_decimal(&mut message, n_neurons);
                return Err(HybridError::InvalidConfig(message));
            },
            None => {},
        }
        let mut spike_train: Vec<Vec<usize>> = Vec::new();
        spike_train.push(vstd::slice::slice_to_vec(fired));
        let potentials = vec![Scalar { bits: 0 }; n_neurons];
        assert(potentials@ =~= Seq::new(n_neurons as nat, |i: int| scalar::scalar(0)));
        Ok(SpikeActivity { spike_train, potentials, iz_potentials: Vec::new() })
    }
}

/// Result of expert routing.
///
/// The host holds a router to this: one finite weight that is not negative per
/// expert, a sum within [`crate::reverse::WEIGHT_SUM_TOLERANCE`] of one, and as
/// many distinct experts selected as the router says. A normalizer should be
/// accumulated wide; see [`crate::routing::softmax`].
#[derive(Debug, Clone, PartialEq)]
pub struct ExpertRouteOutput {
    /// Distribution over all experts.
    pub expert_weights: Vec<Scalar>,
    /// Indices of the selected experts.
    pub selected_experts: Vec<usize>,
    /// Entropy of the distribution, where it was computed.
    pub routing_entropy: Option<Scalar>,
}

/// A mixture-of-experts router: embedding to expert weights and selection.
///
/// The host checks what a router returns; see
/// [`crate::reverse::check_route`].
pub trait ExpertRouter {
    /// Number of experts; above zero.
    fn num_experts(&self) -> usize;

    /// Number of experts selected; from one to [`ExpertRouter::num_experts`].
    fn top_k(&self) -> usize;

    /// Routes a dense embedding. Empty embeddings are errors.
    fn route(&mut self, embedding: &[Scalar]) -> Result<
        ExpertRouteOutput,
        HybridError,
    >;
}

/// What a backend would do to bring a stage to its tier.
#[derive(Debug, Clone, Copy, PartialEq, Eq, Structural)]
pub enum OperationKind {
    /// Transform the stage.
    Convert,
    /// Wrap the stage as it is.
    Passthrough,
}

/// One planned unit of work of a dry run.
#[derive(Debug, Clone, PartialEq)]
pub struct PlannedOperation {
    /// Name of the stage.
    pub stage: String,
    /// Precision the stage is planned at.
    pub tier: PrecisionTier,
    /// Whether the tier needs a conversion.
    pub kind: OperationKind,
}

/// A [`PlannedOperation`] with its name as a character sequence.
pub struct OperationView {
    pub stage: Seq<char>,
    pub tier: PrecisionTier,
    pub kind: OperationKind,
}

impl View for PlannedOperation {
    type V = OperationView;

    open spec fn view(&self) -> OperationView {
        OperationView { stage: self.stage@, tier: self.tier, kind: self.kind }
    }
}

/// The texts of stage names.
pub open spec fn stage_texts(stages: Seq<&str>) -> Seq<Seq<char>> {
    stages.map_values(|s: &str| s@)
}

/// A plan or an error, as a view.
pub open spec fn plan_view(r: Result<Vec<PlannedOperation>, HybridError>) -> Result<
    Seq<OperationView>,
    error::ErrorView,
> {
    match r {
        Ok(plan) => Ok(plan@.map_values(|op: PlannedOperation| op@)),
        Err(e) => Err(e@),
    }
}

/// Dry-run planning: stage names to planned operations, with nothing loaded.
///
/// A plan is a function of the planner and the names alone, which
/// [`HybridStagePlanner::planned`] names. The three specification methods are
/// abstract to whoever uses a planner. A verified planner defines them; one in
/// ordinary Rust leaves them out.
pub trait HybridStagePlanner {
    /// The tier of the stages that no rule matches.
    closed spec fn fallback(&self) -> PrecisionTier {
        arbitrary()
    }

    /// Some rule matches the stage.
    closed spec fn matches_rule(&self, stage: Seq<char>) -> bool {
        arbitrary()
    }

    /// What planning the stages comes to.
    closed spec fn planned(&self, stages: Seq<Seq<char>>) -> Result<
        Seq<OperationView>,
        error::ErrorView,
    > {
        arbitrary()
    }

    /// Tier of the stages that no rule matches.
    fn default_tier(&self) -> (r: PrecisionTier)
        ensures
            r == self.fallback(),
    ;

    /// One operation per stage, in order. An empty name fails the whole plan;
    /// no stages are an empty plan. A plan fails with an invalid configuration
    /// and nothing else. The same planner and names give the same plan, and a
    /// stage that no rule matches is planned at the default tier.
    fn plan(&self, stages: &[&str]) -> (r: Result<Vec<PlannedOperation>, HybridError>)
        ensures
            plan_view(r) == self.planned(stage_texts(stages@)),
            r matches Ok(plan) ==> plan@.len() == stages@.len() && forall|i: int|
                0 <= i < plan@.len() ==> {
                    &&& (#[trigger] plan@[i]).stage@ == stages@[i]@
                    &&& !self.matches_rule(stages@[i]@) ==> plan@[i].tier == self.fallback()
                },
            (exists|i: int| 0 <= i < stages@.len() && (#[trigger] stages@[i])@.len() == 0) ==> (
            r matches Err(e) && e@ is InvalidConfig),
            stages@.len() == 0 ==> r is Ok,
            r matches Err(e) ==> e@ is InvalidConfig,
    ;
}

/// A step of fired neurons is taken exactly where there are neurons and every
/// one that fired is among them; else the first that is not is reported.
pub proof fn law_fired(fired: Seq<usize>, n_neurons: usize)
    ensures
        SpikeActivity::fired_error(fired, n_neurons) is None <==> n_neurons > 0 && forall|i: int|
            0 <= i < fired.len() ==> #[trigger] fired[i] < n_neurons,
        n_neurons == 0 ==> SpikeActivity::fired_error(fired, n_neurons) == Some(
            error::ErrorView::InvalidConfig("SpikeActivity::from_fired: n_neurons must be > 0"@),
        ),
        forall|i: int|
            #![trigger fired[i]]
            0 <= i < fired.len() && 0 < n_neurons <= fired[i] && (forall|k: int|
                0 <= k < i ==> #[trigger] fired[k] < n_neurons) ==> SpikeActivity::fired_error(
                fired,
                n_neurons,
            ) == Some(
                error::ErrorView::InvalidConfig(
                    "SpikeActivity::from_fired: fired index "@ + text::decimal(fired[i] as nat)
                        + " out of range for n_neurons="@ + text::decimal(n_neurons as nat),
                ),
            ),
{
    assert forall|i: int|
        #![trigger fired[i]]
        0 <= i < fired.len() && 0 < n_neurons <= fired[i] && (forall|k: int|
            0 <= k < i ==> #[trigger] fired[k] < n_neurons) implies SpikeActivity::fired_error(
        fired,
        n_neurons,
    ) == Some(
        error::ErrorView::InvalidConfig(
            "SpikeActivity::from_fired: fired index "@ + text::decimal(fired[i] as nat)
                + " out of range for n_neurons="@ + text::decimal(n_neurons as nat),
        ),
    ) by {
        lemma_out_of_range(fired, n_neurons, i);
    }
}

} // verus!
