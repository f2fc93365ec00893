//! The ANN→SNN forward path: transformer hidden states to bounded stimuli to
//! fired neurons.

use crate::arithmetic;
use crate::arithmetic::Arithmetic;
use crate::error;
use crate::error::{ForwardValueStage, HybridError};
use crate::projector;
use crate::routing;
use crate::scalar::Scalar;
use crate::tensor::Tensor;
use crate::traits::{NeuroModulators, SpikingNetwork, Transformer};
use crate::types::{HybridConfig, HybridOutput};
use crate::validate;
use vstd::prelude::*;

verus! {

/// A transformer and a spiking network, wired together.
///
/// [`HybridNetwork::try_new`] checks the configuration against what the
/// backends report; [`HybridNetwork::new`] does not.
pub struct HybridNetwork<T: Transformer, S: SpikingNetwork> {
    pub transformer: T,
    pub snn: S,
    config: HybridConfig,
    global_step: u64,
}

/// Why a forward pass failed.
#[derive(Debug)]
pub enum ForwardFailure {
    /// The request or the backends' answers broke a contract. The spiking
    /// network was not stepped. Not worth reporting.
    Contract(HybridError),
    /// The spiking network failed to step. Worth reporting.
    Backend(HybridError),
}

/// The transformer reports the width `dim`.
pub open spec fn reports_dim<T: Transformer>(transformer: &T, dim: usize) -> bool {
    call_ensures(T::dim, (transformer,), dim)
}

/// The transformer reports the maximum sequence length `max`.
pub open spec fn reports_max_seq_len<T: Transformer>(transformer: &T, max: usize) -> bool {
    call_ensures(T::max_seq_len, (transformer,), max)
}

/// The spiking network reports `channels` input channels.
pub open spec fn reports_channels<S: SpikingNetwork>(snn: &S, channels: usize) -> bool {
    call_ensures(S::num_channels, (snn,), channels)
}

/// The transformer gives `hidden` for the tokens.
pub open spec fn gives_hidden<T: Transformer>(
    transformer: &T,
    tokens: Seq<u32>,
    hidden: Tensor,
) -> bool {
    exists|ids: &[u32]|
        ids@ == tokens && #[trigger] call_ensures(T::hidden_states, (transformer, ids), hidden)
}

/// Stepping `snn` gives `result`.
pub open spec fn step_gives<S: SpikingNetwork>(
    snn: &mut S,
    stimuli: Seq<Scalar>,
    modulators: NeuroModulators,
    result: Result<Vec<usize>, HybridError>,
) -> bool {
    exists|xs: &[Scalar]|
        xs@ == stimuli && #[trigger] call_ensures(S::step, (snn, xs, &modulators), result)
}

/// What is wrong with a configured size: it must be the backend's, and above
/// zero.
pub open spec fn capacity_error(field: Seq<char>, configured: usize, backend: usize) -> Option<
    error::ErrorView,
> {
    if configured > 0 && configured == backend {
        None
    } else {
        Some(error::ErrorView::ConfigMismatch { field, configured, backend })
    }
}

/// `found` is what is wrong with a configuration: the first size that is, in
/// the order width, sequence length, channels.
pub open spec fn construction_check<T: Transformer, S: SpikingNetwork>(
    transformer: &T,
    snn: &S,
    config: &HybridConfig,
    found: Option<error::ErrorView>,
) -> bool {
    exists|dim: usize|
        #[trigger] reports_dim(transformer, dim) && {
            let first = capacity_error("transformer.dim"@, config.transformer.dim, dim);
            if first is Some {
                found == first
            } else {
                lengths_check(transformer, snn, config, found)
            }
        }
}

/// `found` is what is wrong with the sequence length and the channels of a
/// configuration.
pub open spec fn lengths_check<T: Transformer, S: SpikingNetwork>(
    transformer: &T,
    snn: &S,
    config: &HybridConfig,
    found: Option<error::ErrorView>,
) -> bool {
    exists|max: usize|
        #[trigger] reports_max_seq_len(transformer, max) && {
            let first = capacity_error(
                "transformer.max_seq_len"@,
                config.transformer.max_seq_len,
                max,
            );
            if first is Some {
                found == first
            } else {
                exists|channels: usize|
                    #[trigger] reports_channels(snn, channels) && found == capacity_error(
                        "snn_input_channels"@,
                        config.snn_input_channels,
                        channels,
                    )
            }
        }
}

/// Checks one configured size against the backend's.
pub fn check_capacity(field: &'static str, configured: usize, backend: usize) -> (r: Result<
    (),
    HybridError,
>)
    ensures
        validate::checks(r, capacity_error(field@, configured, backend)),
{
    if configured > 0 && configured == backend {
        return Ok(());
    }
    Err(HybridError::config_mismatch(field, configured, backend))
}

/// Checks a configuration against the sizes that the backends report. Runs no
/// inference.
pub fn validate_construction<T: Transformer, S: SpikingNetwork>(
    transformer: &T,
    snn: &S,
    config: &HybridConfig,
) -> (r: Result<(), HybridError>)
    ensures
        construction_check(
            transformer,
            snn,
            config,
            match r {
                Ok(_) => None,
                Err(e) => Some(e@),
            },
        ),
{
    let dim: usize = transformer.dim();
    assert(reports_dim(transformer, dim));
    match check_capacity(HybridError::FIELD_TRANSFORMER_DIM, config.transformer.dim, dim) {
        Err(e) => {
            return Err(e);
        },
        Ok(()) => {},
    }
    let max: usize = transformer.max_seq_len();
    assert(reports_max_seq_len(transformer, max));
    match check_capacity(
        HybridError::FIELD_TRANSFORMER_MAX_SEQ_LEN,
        config.transformer.max_seq_len,
        max,
    ) {
        Err(e) => {
            return Err(e);
        },
        Ok(()) => {},
    }
    let channels: usize = snn.num_channels();
    assert(reports_channels(snn, channels));
    check_capacity(HybridError::FIELD_SNN_INPUT_CHANNELS, config.snn_input_channels, channels)
}

/// `out` is the embedding pooled from a hidden state: its columns averaged, or
/// its first `dim` numbers where it has no rows.
pub open spec fn pools_embedding<M: Arithmetic>(
    hidden: &Tensor,
    dim: usize,
    out: Seq<Scalar>,
) -> bool {
    if hidden.extents().len() == 1 {
        out == hidden.values()
    } else if hidden.extents().len() == 2 {
        projector::column_means::<M>(
            hidden.values(),
            projector::at_least_one(hidden.extents()[0]),
            hidden.extents()[1] as int,
            routing::smaller(dim, hidden.extents()[1]) as nat,
            out,
        )
    } else if dim < hidden.values().len() {
        out == hidden.values().take(dim as int)
    } else {
        out == hidden.values()
    }
}

/// Pools a hidden state into an embedding of at most `dim` numbers, where it
/// is not pooled already.
pub fn pool_embedding<M: Arithmetic>(hidden: &Tensor, dim: usize) -> (r: Vec<Scalar>)
    requires
        projector::poolable(hidden),
    ensures
        pools_embedding::<M>(hidden, dim, r@),
{
    let rank: usize = hidden.ndim();
    if rank == 1 {
        return vstd::slice::slice_to_vec(hidden.data());
    }
    if rank == 2 {
        let shape = hidden.shape();
        let rows: usize = if shape[0] == 0 {
            1
        } else {
            shape[0]
        };
        let width: usize = shape[1];
        let take: usize = if dim < width {
            dim
        } else {
            width
        };
        return projector::mean_columns::<M>(hidden.data(), rows, width, take);
    }
    let data = hidden.data();
    if dim < data.len() {
        let mut out = vstd::slice::slice_to_vec(data);
        out.truncate(dim);
        assert(out@ =~= hidden.values().take(dim as int));
        out
    } else {
        vstd::slice::slice_to_vec(data)
    }
}

/// `outcome` is what a hidden state for `seq_len` tokens comes to: the
/// embedding and the stimuli for `channels` channels, or the first thing wrong
/// on the way.
pub open spec fn conditioned<M: Arithmetic>(
    hidden: &Tensor,
    seq_len: usize,
    dim: usize,
    channels: usize,
    outcome: Result<(Seq<Scalar>, Seq<Scalar>), error::ErrorView>,
) -> bool {
    match validate::hidden_state_error(hidden.values(), hidden.extents(), seq_len, dim) {
        Some(e) => outcome == Err::<(Seq<Scalar>, Seq<Scalar>), error::ErrorView>(e),
        None => exists|embedding: Seq<Scalar>|
            #[trigger] pools_embedding::<M>(hidden, dim, embedding) && stimulated::<M>(
                hidden,
                channels,
                embedding,
                outcome,
            ),
    }
}

/// `outcome` is what an accepted hidden state and its embedding come to.
pub open spec fn stimulated<M: Arithmetic>(
    hidden: &Tensor,
    channels: usize,
    embedding: Seq<Scalar>,
    outcome: Result<(Seq<Scalar>, Seq<Scalar>), error::ErrorView>,
) -> bool {
    match validate::finite_error(embedding, ForwardValueStage::Embedding) {
        Some(e) => outcome == Err::<(Seq<Scalar>, Seq<Scalar>), error::ErrorView>(e),
        None => exists|stimuli: Seq<Scalar>|
            #[trigger] projector::stimulates_width::<M>(hidden, channels as nat, stimuli)
                && outcome == (match validate::finite_error(stimuli, ForwardValueStage::Stimuli) {
                Some(e) => Err(e),
                None => Ok((embedding, stimuli)),
            }),
    }
}

/// The view of a conditioning result.
pub open spec fn conditioning_view(
    r: Result<(Vec<Scalar>, Vec<Scalar>), HybridError>,
) -> Result<(Seq<Scalar>, Seq<Scalar>), error::ErrorView> {
    match r {
        Ok(pair) => Ok((pair.0@, pair.1@)),
        Err(e) => Err(e@),
    }
}

/// Validates a hidden state and turns it into an embedding and stimuli, both
/// without infinities and NaN.
pub fn condition_hidden<M: Arithmetic>(
    hidden: &Tensor,
    seq_len: usize,
    dim: usize,
    channels: usize,
) -> (r: Result<(Vec<Scalar>, Vec<Scalar>), HybridError>)
    requires
        seq_len > 0,
    ensures
        conditioned::<M>(hidden, seq_len, dim, channels, conditioning_view(r)),
{
    match validate::validate_hidden_state(hidden, seq_len, dim) {
        Err(e) => {
            return Err(e);
        },
        Ok(()) => {},
    }
    proof {
        validate::law_accepted_hidden_state(hidden.values(), hidden.extents(), seq_len, dim);
    }
    let embedding = pool_embedding::<M>(hidden, dim);
    assert(pools_embedding::<M>(hidden, dim, embedding@));
    match validate::validate_finite(embedding.as_slice(), ForwardValueStage::Embedding) {
        Err(e) => {
            return Err(e);
        },
        Ok(()) => {},
    }
    let stimuli = projector::embed_to_stimuli_with_width::<M>(hidden, channels);
    assert(projector::stimulates_width::<M>(hidden, channels as nat, stimuli@));
    match validate::validate_finite(stimuli.as_slice(), ForwardValueStage::Stimuli) {
        Err(e) => {
            return Err(e);
        },
        Ok(()) => {},
    }
    Ok((embedding, stimuli))
}

/// `outcome` is what a request comes to before the spiking network is stepped.
/// Without a token, with too many of them, or without input channels it fails;
/// else the hidden state decides.
pub open spec fn prepared<M: Arithmetic, T: Transformer, S: SpikingNetwork>(
    transformer: &T,
    snn: &S,
    tokens: Seq<u32>,
    outcome: Result<(Seq<Scalar>, Seq<Scalar>), error::ErrorView>,
) -> bool {
    if tokens.len() == 0 {
        outcome == Err::<(Seq<Scalar>, Seq<Scalar>), error::ErrorView>(
            error::ErrorView::InputLengthMismatch { expected: 1, got: 0 },
        )
    } else {
        exists|max: usize|
            #[trigger] reports_max_seq_len(transformer, max) && if tokens.len() > max {
                outcome == Err::<(Seq<Scalar>, Seq<Scalar>), error::ErrorView>(
                    error::ErrorView::InputLengthMismatch {
                        expected: max,
                        got: tokens.len() as usize,
                    },
                )
            } else {
                prepared_for_channels::<M, T, S>(transformer, snn, tokens, outcome)
            }
    }
}

/// `outcome` is what a request of an admissible length comes to.
pub open spec fn prepared_for_channels<M: Arithmetic, T: Transformer, S: SpikingNetwork>(
    transformer: &T,
    snn: &S,
    tokens: Seq<u32>,
    outcome: Result<(Seq<Scalar>, Seq<Scalar>), error::ErrorView>,
) -> bool {
    exists|channels: usize|
        #[trigger] reports_channels(snn, channels) && if channels == 0 {
            outcome == Err::<(Seq<Scalar>, Seq<Scalar>), error::ErrorView>(
                error::ErrorView::ZeroSnnChannels,
            )
        } else {
            exists|hidden: Tensor, dim: usize|
                #![trigger gives_hidden(transformer, tokens, hidden), reports_dim(transformer, dim)]
                gives_hidden(transformer, tokens, hidden) && reports_dim(transformer, dim)
                    && conditioned::<M>(&hidden, tokens.len() as usize, dim, channels, outcome)
        }
}

/// Steps a spiking network once.
fn step_once<S: SpikingNetwork>(
    snn: &mut S,
    stimuli: &[Scalar],
    modulators: &NeuroModulators,
) -> (r: Result<Vec<usize>, HybridError>)
    ensures
        exists|stepped: &mut S|
            *stepped == *old(snn) && *final(stepped) == *final(snn) && #[trigger] step_gives(
                stepped,
                stimuli@,
                *modulators,
                r,
            ),
{
    let r = snn.step(stimuli, modulators);
    proof {
        let (stepped, xs) = choose|stepped: &mut S, xs: &[Scalar]|
            *stepped == *old(snn) && *final(stepped) == *snn && xs@ == stimuli@
                && #[trigger] call_ensures(S::step, (stepped, xs, modulators), r);
        assert(step_gives(stepped, stimuli@, *modulators, r));
    }
    r
}

impl<T: Transformer, S: SpikingNetwork> HybridNetwork<T, S> {
    /// The transformer.
    pub closed spec fn transformer_part(&self) -> T {
        self.transformer
    }

    /// The spiking network.
    pub closed spec fn snn_part(&self) -> S {
        self.snn
    }

    /// The configuration.
    pub closed spec fn settings(&self) -> HybridConfig {
        self.config
    }

    /// The number of steps counted so far.
    pub closed spec fn steps(&self) -> u64 {
        self.global_step
    }

    /// A network of the given parts, with no check of the configuration
    /// against the backends.
    pub fn new(transformer: T, snn: S, config: HybridConfig) -> (r: Self)
        ensures
            r.transformer_part() == transformer,
            r.snn_part() == snn,
            r.settings() == config,
            r.steps() == 0,
    {
        HybridNetwork { transformer, snn, config, global_step: 0 }
    }

    /// A network of the given parts, where the configuration agrees with the
    /// backends: every size must be what they report, and above zero.
    pub fn try_new(transformer: T, snn: S, config: HybridConfig) -> (r: Result<Self, HybridError>)
        ensures
            match r {
                Ok(network) => {
                    &&& construction_check(&transformer, &snn, &config, None)
                    &&& network.transformer_part() == transformer
                    &&& network.snn_part() == snn
                    &&& network.settings() == config
                    &&& network.steps() == 0
                },
                Err(e) => construction_check(&transformer, &snn, &config, Some(e@)),
            },
    {
        match validate_construction(&transformer, &snn, &config) {
            Err(e) => Err(e),
            Ok(()) => Ok(HybridNetwork::new(transformer, snn, config)),
        }
    }

    /// Validates a request and turns it into an embedding and stimuli. Does
    /// not step the spiking network.
    pub fn prepare<M: Arithmetic>(&self, token_ids: &[u32]) -> (r: Result<
        (Vec<Scalar>, Vec<Scalar>),
        HybridError,
    >)
        ensures
            prepared::<M, T, S>(
                &self.transformer_part(),
                &self.snn_part(),
                token_ids@,
                conditioning_view(r),
            ),
    {
        let len: usize = token_ids.len();
        if len == 0 {
            return Err(HybridError::InputLengthMismatch { expected: 1, got: 0 });
        }
        let max: usize = self.transformer.max_seq_len();
        assert(reports_max_seq_len(&self.transformer, max));
        if len > max {
            return Err(HybridError::InputLengthMismatch { expected: max, got: len });
        }
        let channels: usize = self.snn.num_channels();
        assert(reports_channels(&self.snn, channels));
        match validate::validate_snn_width(channels) {
            Err(e) => {
                return Err(e);
            },
            Ok(()) => {},
        }
        let hidden = self.transformer.hidden_states(token_ids);
        assert(gives_hidden(&self.transformer, token_ids@, hidden));
        let dim: usize = self.transformer.dim();
        assert(reports_dim(&self.transformer, dim));
        let r = condition_hidden::<M>(&hidden, len, dim, channels);
        assert(prepared_for_channels::<M, T, S>(
            &self.transformer,
            &self.snn,
            token_ids@,
            conditioning_view(r),
        ));
        r
    }

    /// One forward pass, with failures told apart by whether they are worth
    /// reporting. Steps the spiking network, and counts the step if it
    /// succeeds. Without modulators the neutral ones are used.
    pub fn forward_traced<M: Arithmetic>(
        &mut self,
        token_ids: &[u32],
        modulators: Option<NeuroModulators>,
    ) -> (r: Result<HybridOutput, ForwardFailure>)
        ensures
            final(self).transformer_part() == old(self).transformer_part(),
            final(self).settings() == old(self).settings(),
            match r {
                Ok(out) => {
                    &&& prepared::<M, T, S>(
                        &old(self).transformer_part(),
                        &old(self).snn_part(),
                        token_ids@,
                        Ok((out.embedding@, out.stimuli@)),
                    )
                    &&& exists|snn: &mut S|
                        *snn == old(self).snn_part() && *final(snn) == final(self).snn_part()
                            && #[trigger] step_gives(
                            snn,
                            out.stimuli@,
                            modulators_or_neutral(modulators),
                            Ok(out.fired_neurons),
                        )
                    &&& final(self).steps() == next_step(old(self).steps())
                    &&& out.global_step == final(self).steps()
                    &&& out.expert_weights is None
                    &&& out.selected_experts is None
                    &&& out.routing_entropy is None
                },
                Err(ForwardFailure::Contract(e)) => {
                    &&& prepared::<M, T, S>(
                        &old(self).transformer_part(),
                        &old(self).snn_part(),
                        token_ids@,
                        Err(e@),
                    )
                    &&& final(self).snn_part() == old(self).snn_part()
                    &&& final(self).steps() == old(self).steps()
                },
                Err(ForwardFailure::Backend(e)) => {
                    &&& exists|embedding: Seq<Scalar>, stimuli: Seq<Scalar>, snn: &mut S|
                        #[trigger] prepared::<M, T, S>(
                            &old(self).transformer_part(),
                            &old(self).snn_part(),
                            token_ids@,
                            Ok((embedding, stimuli)),
                        ) && *snn == old(self).snn_part() && *final(snn) == final(self).snn_part()
                            && #[trigger] step_gives(
                            snn,
                            stimuli,
                            modulators_or_neutral(modulators),
                            Err(e),
                        )
                    &&& final(self).steps() == old(self).steps()
                },
            },
    {
        let (embedding, stimuli) = match self.prepare::<M>(token_ids) {
            Err(e) => {
                return Err(ForwardFailure::Contract(e));
            },
            Ok(pair) => pair,
        };
        let signals = match modulators {
            Some(m) => m,
            None => NeuroModulators::default(),
        };
        assert(signals == modulators_or_neutral(modulators));
        let given = step_once(&mut self.snn, stimuli.as_slice(), &signals);
        let ghost stepped = choose|stepped: &mut S|
            *stepped == old(self).snn_part() && *final(stepped) == self.snn_part()
                && #[trigger] step_gives(stepped, stimuli@, signals, given);
        match given {
            Err(e) => {
                assert(step_gives(stepped, stimuli@, signals, Err(e)));
                Err(ForwardFailure::Backend(e))
            },
            Ok(fired_neurons) => {
                if self.global_step < u64::MAX {
                    self.global_step = self.global_step + 1;
                }
                let out = HybridOutput {
                    embedding,
                    stimuli,
                    fired_neurons,
                    global_step: self.global_step,
                    expert_weights: None,
                    selected_experts: None,
                    routing_entropy: None,
                };
                assert(step_gives(stepped, out.stimuli@, signals, Ok(out.fired_neurons)));
                Ok(out)
            },
        }
    }

    /// One forward pass. A failure leaves the step count as it was.
    pub fn forward<M: Arithmetic>(
        &mut self,
        token_ids: &[u32],
        modulators: Option<NeuroModulators>,
    ) -> (r: Result<HybridOutput, HybridError>)
        ensures
            final(self).transformer_part() == old(self).transformer_part(),
            final(self).settings() == old(self).settings(),
            match r {
                Ok(out) => {
                    &&& prepared::<M, T, S>(
                        &old(self).transformer_part(),
                        &old(self).snn_part(),
                        token_ids@,
                        Ok((out.embedding@, out.stimuli@)),
                    )
                    &&& exists|snn: &mut S|
                        *snn == old(self).snn_part() && *final(snn) == final(self).snn_part()
                            && #[trigger] step_gives(
                            snn,
                            out.stimuli@,
                            modulators_or_neutral(modulators),
                            Ok(out.fired_neurons),
                        )
                    &&& final(self).steps() == next_step(old(self).steps())
                    &&& out.global_step == final(self).steps()
                    &&& out.expert_weights is None
                    &&& out.selected_experts is None
                    &&& out.routing_entropy is None
                },
                Err(e) => {
                    &&& final(self).steps() == old(self).steps()
                    &&& {
                        ||| prepared::<M, T, S>(
                            &old(self).transformer_part(),
                            &old(self).snn_part(),
                            token_ids@,
                            Err(e@),
                        ) && final(self).snn_part() == old(self).snn_part()
                        ||| exists|embedding: Seq<Scalar>, stimuli: Seq<Scalar>, snn: &mut S|
                            #[trigger] prepared::<M, T, S>(
                                &old(self).transformer_part(),
                                &old(self).snn_part(),
                                token_ids@,
                                Ok((embedding, stimuli)),
                            ) && *snn == old(self).snn_part() && *final(snn)
                                == final(self).snn_part() && #[trigger] step_gives(
                                snn,
                                stimuli,
                                modulators_or_neutral(modulators),
                                Err(e),
                            )
                    }
                },
            },
    {
        match self.forward_traced::<M>(token_ids, modulators) {
            Ok(out) => Ok(out),
            Err(ForwardFailure::Contract(e)) => Err(e),
            Err(ForwardFailure::Backend(e)) => Err(e),
        }
    }

    /// The configuration.
    pub fn config(&self) -> (r: &HybridConfig)
        ensures
            *r == self.settings(),
    {
        &self.config
    }

    /// The number of steps counted so far.
    pub fn global_step(&self) -> (r: u64)
        ensures
            r == self.steps(),
    {
        self.global_step
    }

    /// Starts counting steps anew.
    pub fn reset(&mut self)
        ensures
            final(self).steps() == 0,
            final(self).transformer_part() == old(self).transformer_part(),
            final(self).snn_part() == old(self).snn_part(),
            final(self).settings() == old(self).settings(),
    {
        self.global_step = 0;
    }
}

/// The modulators of a request: the neutral ones where none are given.
pub open spec fn modulators_or_neutral(modulators: Option<NeuroModulators>) -> NeuroModulators {
    match modulators {
        Some(m) => m,
        None => NeuroModulators::neutral(),
    }
}

/// The step count after one more step; it stays at the largest there is.
pub open spec fn next_step(step: u64) -> u64 {
    if step < u64::MAX {
        (step + 1) as u64
    } else {
        step
    }
}

/// A configuration passes exactly where each size is above zero and what the
/// backends report.
pub proof fn law_construction<T: Transformer, S: SpikingNetwork>(
    transformer: &T,
    snn: &S,
    config: &HybridConfig,
)
    ensures
        construction_check(transformer, snn, config, None) <==> {
            &&& config.transformer.dim > 0
            &&& config.transformer.max_seq_len > 0
            &&& config.snn_input_channels > 0
            &&& reports_dim(transformer, config.transformer.dim)
            &&& reports_max_seq_len(transformer, config.transformer.max_seq_len)
            &&& reports_channels(snn, config.snn_input_channels)
        },
{
    if construction_check(transformer, snn, config, None) {
        assert(lengths_check(transformer, snn, config, None));
    }
}

/// What reaches the spiking network: a request that passes has a token, and no
/// more than the transformer takes. Its embedding is as wide as the
/// transformer and its stimuli as the spiking network, which has a channel at
/// least. No number in either is infinite or NaN.
pub proof fn law_prepared<M: Arithmetic, T: Transformer, S: SpikingNetwork>(
    transformer: &T,
    snn: &S,
    tokens: Seq<u32>,
    embedding: Seq<Scalar>,
    stimuli: Seq<Scalar>,
)
    requires
        prepared::<M, T, S>(transformer, snn, tokens, Ok((embedding, stimuli))),
        tokens.len() <= usize::MAX,
    ensures
        tokens.len() > 0,
        exists|max: usize| #[trigger] reports_max_seq_len(transformer, max) && tokens.len() <= max,
        exists|dim: usize| #[trigger] reports_dim(transformer, dim) && embedding.len() == dim,
        exists|channels: usize|
            #[trigger] reports_channels(snn, channels) && 0 < channels && stimuli.len() == channels,
        validate::all_finite(embedding),
        validate::all_finite(stimuli),
{
    let outcome: Result<(Seq<Scalar>, Seq<Scalar>), error::ErrorView> = Ok((embedding, stimuli));
    assert(prepared_for_channels::<M, T, S>(transformer, snn, tokens, outcome));
    let (channels, hidden, dim) = choose|channels: usize, hidden: Tensor, dim: usize|
        #![trigger
            reports_channels(snn, channels),
            gives_hidden(transformer, tokens, hidden),
            reports_dim(transformer, dim)]
        reports_channels(snn, channels) && channels > 0 && gives_hidden(
            transformer,
            tokens,
            hidden,
        ) && reports_dim(transformer, dim) && conditioned::<M>(
            &hidden,
            tokens.len() as usize,
            dim,
            channels,
            outcome,
        );
    validate::law_accepted_hidden_state(
        hidden.values(),
        hidden.extents(),
        tokens.len() as usize,
        dim,
    );
    assert(pools_embedding::<M>(&hidden, dim, embedding));
    assert(reports_dim(transformer, dim) && embedding.len() == dim);
    assert(reports_channels(snn, channels) && stimuli.len() == channels);
}

/// On a squashing host every stimulus that reaches the spiking network lies in
/// the interval from `-1` to `1`.
pub proof fn law_prepared_stimuli_bounded<M: Arithmetic, T: Transformer, S: SpikingNetwork>(
    transformer: &T,
    snn: &S,
    tokens: Seq<u32>,
    embedding: Seq<Scalar>,
    stimuli: Seq<Scalar>,
)
    requires
        projector::squashing::<M>(),
        prepared::<M, T, S>(transformer, snn, tokens, Ok((embedding, stimuli))),
    ensures
        forall|i: int| 0 <= i < stimuli.len() ==> (#[trigger] stimuli[i]).unit_bounded(),
{
    let outcome: Result<(Seq<Scalar>, Seq<Scalar>), error::ErrorView> = Ok((embedding, stimuli));
    assert(prepared_for_channels::<M, T, S>(transformer, snn, tokens, outcome));
    let (channels, hidden, dim) = choose|channels: usize, hidden: Tensor, dim: usize|
        #![trigger
            reports_channels(snn, channels),
            gives_hidden(transformer, tokens, hidden),
            reports_dim(transformer, dim)]
        reports_channels(snn, channels) && channels > 0 && gives_hidden(
            transformer,
            tokens,
            hidden,
        ) && reports_dim(transformer, dim) && conditioned::<M>(
            &hidden,
            tokens.len() as usize,
            dim,
            channels,
            outcome,
        );
    projector::law_stimuli_bounded::<M>(&hidden, channels as nat, stimuli);
}

/// On a deterministic host the pooled embedding begins what the projector pools:
/// it is all of it where the hidden state has rank 1, and its first `dim`
/// numbers, or all where there are fewer, in any other rank.
pub proof fn law_embedding_begins_pooled<M: Arithmetic>(
    hidden: &Tensor,
    dim: usize,
    embedding: Seq<Scalar>,
    pooled: Seq<Scalar>,
)
    requires
        arithmetic::deterministic::<M>(),
        pools_embedding::<M>(hidden, dim, embedding),
        projector::mean_pools::<M>(hidden, pooled),
    ensures
        hidden.extents().len() == 1 ==> embedding == pooled,
        hidden.extents().len() != 1 ==> embedding == pooled.take(
            if dim < pooled.len() {
                dim as int
            } else {
                pooled.len() as int
            },
        ),
{
    assert(pooled.take(pooled.len() as int) =~= pooled);
    if hidden.extents().len() == 2 {
        projector::law_fewer_means_are_a_prefix::<M>(
            hidden.values(),
            projector::at_least_one(hidden.extents()[0]),
            hidden.extents()[1] as int,
            routing::smaller(dim, hidden.extents()[1]) as nat,
            hidden.extents()[1] as nat,
            embedding,
            pooled,
        );
    }
}

/// On a deterministic host the stimuli are those of the embedding that comes
/// with them: it, resized to the channels and squashed.
pub proof fn law_stimuli_are_of_embedding<M: Arithmetic>(
    hidden: &Tensor,
    seq_len: usize,
    dim: usize,
    channels: usize,
    embedding: Seq<Scalar>,
    stimuli: Seq<Scalar>,
)
    requires
        arithmetic::deterministic::<M>(),
        conditioned::<M>(hidden, seq_len, dim, channels, Ok((embedding, stimuli))),
    ensures
        projector::fits::<M>(embedding, channels as nat, stimuli),
{
    validate::law_accepted_hidden_state(hidden.values(), hidden.extents(), seq_len, dim);
    let pooled = choose|pooled: Seq<Scalar>| #[trigger]
        projector::mean_pools::<M>(hidden, pooled) && projector::fits::<M>(
            pooled,
            channels as nat,
            stimuli,
        );
    law_embedding_begins_pooled::<M>(hidden, dim, embedding, pooled);
    assert(pooled.take(pooled.len() as int) =~= pooled);
}

/// On a deterministic host a request that passes steps the spiking network with
/// its own embedding, resized to the channels and squashed.
pub proof fn law_prepared_stimuli_are_of_embedding<
    M: Arithmetic,
    T: Transformer,
    S: SpikingNetwork,
>(transformer: &T, snn: &S, tokens: Seq<u32>, embedding: Seq<Scalar>, stimuli: Seq<Scalar>)
    requires
        arithmetic::deterministic::<M>(),
        prepared::<M, T, S>(transformer, snn, tokens, Ok((embedding, stimuli))),
    ensures
        exists|channels: usize|
            #[trigger] reports_channels(snn, channels) && projector::fits::<M>(
                embedding,
                channels as nat,
                stimuli,
            ),
{
    let outcome: Result<(Seq<Scalar>, Seq<Scalar>), error::ErrorView> = Ok((embedding, stimuli));
    assert(prepared_for_channels::<M, T, S>(transformer, snn, tokens, outcome));
    let (channels, hidden, dim) = choose|channels: usize, hidden: Tensor, dim: usize|
        #![trigger
            reports_channels(snn, channels),
            gives_hidden(transformer, tokens, hidden),
            reports_dim(transformer, dim)]
        reports_channels(snn, channels) && channels > 0 && gives_hidden(
            transformer,
            tokens,
            hidden,
        ) && reports_dim(transformer, dim) && conditioned::<M>(
            &hidden,
            tokens.len() as usize,
            dim,
            channels,
            outcome,
        );
    law_stimuli_are_of_embedding::<M>(
        &hidden,
        tokens.len() as usize,
        dim,
        channels,
        embedding,
        stimuli,
    );
}

/// Counting a step adds one, and stays at the largest count there is.
pub proof fn law_next_step(step: u64)
    ensures
        step < 0xffff_ffff_ffff_ffff ==> next_step(step) == step + 1,
        next_step(0xffff_ffff_ffff_ffff) == 0xffff_ffff_ffff_ffff,
{
}

/// Given modulators are taken as they are; where none are given, dopamine and
/// acetylcholine are a half, the tempo is one and the others are zero.
pub proof fn law_modulators(modulators: Option<NeuroModulators>)
    ensures
        modulators matches Some(m) ==> modulators_or_neutral(modulators) == m,
        modulators is None ==> {
            let m = modulators_or_neutral(modulators);
            &&& m.dopamine.bits == 0x3f00_0000
            &&& m.cortisol.bits == 0
            &&& m.acetylcholine.bits == 0x3f00_0000
            &&& m.tempo.bits == 0x3f80_0000
            &&& m.aux_dopamine.bits == 0
        },
{
}

/// What is wrong with a configuration names the size that is, with what was
/// configured and what the backend reports, and sizes that are named later are
/// not looked at.
pub proof fn law_construction_error<T: Transformer, S: SpikingNetwork>(
    transformer: &T,
    snn: &S,
    config: &HybridConfig,
    e: error::ErrorView,
)
    requires
        construction_check(transformer, snn, config, Some(e)),
    ensures
        match e {
            error::ErrorView::ConfigMismatch { field, configured, backend } => {
                &&& configured == 0 || configured != backend
                &&& {
                    ||| {
                        &&& field == "transformer.dim"@
                        &&& configured == config.transformer.dim
                        &&& call_ensures(T::dim, (transformer,), backend)
                    }
                    ||| {
                        &&& field == "transformer.max_seq_len"@
                        &&& configured == config.transformer.max_seq_len
                        &&& call_ensures(T::max_seq_len, (transformer,), backend)
                        &&& config.transformer.dim > 0
                        &&& call_ensures(T::dim, (transformer,), config.transformer.dim)
                    }
                    ||| {
                        &&& field == "snn_input_channels"@
                        &&& configured == config.snn_input_channels
                        &&& call_ensures(S::num_channels, (snn,), backend)
                        &&& config.transformer.dim > 0
                        &&& call_ensures(T::dim, (transformer,), config.transformer.dim)
                        &&& config.transformer.max_seq_len > 0
                        &&& call_ensures(
                            T::max_seq_len,
                            (transformer,),
                            config.transformer.max_seq_len,
                        )
                    }
                }
            },
            _ => false,
        },
{
    let dim = choose|dim: usize| #[trigger]
        reports_dim(transformer, dim) && {
            let first = capacity_error("transformer.dim"@, config.transformer.dim, dim);
            if first is Some {
                Some(e) == first
            } else {
                lengths_check(transformer, snn, config, Some(e))
            }
        };
    assert(reports_dim(transformer, dim));
    if capacity_error("transformer.dim"@, config.transformer.dim, dim) is None {
        let max = choose|max: usize| #[trigger]
            reports_max_seq_len(transformer, max) && {
                let first = capacity_error(
                    "transformer.max_seq_len"@,
                    config.transformer.max_seq_len,
                    max,
                );
                if first is Some {
                    Some(e) == first
                } else {
                    exists|channels: usize| #[trigger]
                        reports_channels(snn, channels) && Some(e) == capacity_error(
                            "snn_input_channels"@,
                            config.snn_input_channels,
                            channels,
                        )
                }
            };
        assert(reports_max_seq_len(transformer, max));
    }
}

/// A configured size passes exactly where it is above zero and the backend's.
pub proof fn law_capacity(field: Seq<char>, configured: usize, backend: usize)
    ensures
        match capacity_error(field, configured, backend) {
            None => 0 < configured && configured == backend,
            Some(e) => {
                &&& configured == 0 || configured != backend
                &&& e == (error::ErrorView::ConfigMismatch { field, configured, backend })
            },
        },
{
}

/// The embedding of a hidden state with rows has at most `dim` numbers, each of
/// them the host's sum of a column, one number per row, times the host's
/// quotient of one by its number for the rows. Handed back are the sum, that
/// number and the quotient.
pub proof fn law_embedding_averages_rows<M: Arithmetic>(
    hidden: &Tensor,
    dim: usize,
    embedding: Seq<Scalar>,
    i: int,
) -> (r: (Scalar, Scalar, Scalar))
    requires
        pools_embedding::<M>(hidden, dim, embedding),
        hidden.extents().len() == 2,
        0 < hidden.extents()[0],
        0 <= i < hidden.extents()[1],
        i < dim,
    ensures
        embedding.len() == (if dim < hidden.extents()[1] {
            dim as int
        } else {
            hidden.extents()[1] as int
        }),
        arithmetic::sums_to::<M>(
            Seq::new(
                hidden.extents()[0] as nat,
                |t: int| hidden.values()[t * hidden.extents()[1] + i],
            ),
            r.0,
        ),
        call_ensures(M::count, (hidden.extents()[0],), r.1),
        call_ensures(M::divide, (Scalar { bits: 0x3f80_0000 }, r.1), r.2),
        call_ensures(M::multiply, (r.0, r.2), embedding[i]),
{
    let rows = hidden.extents()[0];
    let width = hidden.extents()[1];
    let (s, inv) = projector::law_column_mean::<M>(
        hidden.values(),
        rows,
        width as int,
        routing::smaller(dim, width) as nat,
        embedding,
        i,
    );
    arithmetic::law_inverse::<M>(rows, inv);
    let c = choose|c: Scalar|
        call_ensures(M::count, (rows,), c) && #[trigger] call_ensures(
            M::divide,
            (Scalar { bits: 0x3f80_0000 }, c),
            inv,
        );
    assert(Seq::new(rows as nat, |t: int| hidden.values()[t * (width as int) + i]) =~= Seq::new(
        rows as nat,
        |t: int| hidden.values()[t * hidden.extents()[1] + i],
    ));
    (s, c, inv)
}

/// The embedding of a hidden state of rank 1 is that state; that of another
/// without rows is its first `dim` numbers, or all of them.
pub proof fn law_embedding_of_other_ranks<M: Arithmetic>(
    hidden: &Tensor,
    dim: usize,
    embedding: Seq<Scalar>,
)
    requires
        pools_embedding::<M>(hidden, dim, embedding),
        hidden.extents().len() != 2,
    ensures
        hidden.extents().len() == 1 || hidden.values().len() <= dim ==> embedding
            == hidden.values(),
        hidden.extents().len() != 1 && dim < hidden.values().len() ==> embedding.len() == dim
            && embedding == hidden.values().take(dim as int),
{
}

/// What a hidden state comes to is decided by the first of its own error, the
/// first number of the embedding that is infinite or NaN, and the first such
/// stimulus; only where there is none of them do both come out.
pub proof fn law_conditioning<M: Arithmetic>(
    hidden: &Tensor,
    seq_len: usize,
    dim: usize,
    channels: usize,
    outcome: Result<(Seq<Scalar>, Seq<Scalar>), error::ErrorView>,
) -> (r: (Seq<Scalar>, Seq<Scalar>))
    requires
        conditioned::<M>(hidden, seq_len, dim, channels, outcome),
    ensures
        match validate::hidden_state_error(hidden.values(), hidden.extents(), seq_len, dim) {
            Some(e) => outcome == Err::<(Seq<Scalar>, Seq<Scalar>), error::ErrorView>(e),
            None => pools_embedding::<M>(hidden, dim, r.0) && match validate::finite_error(
                r.0,
                ForwardValueStage::Embedding,
            ) {
                Some(e) => outcome == Err::<(Seq<Scalar>, Seq<Scalar>), error::ErrorView>(e),
                None => projector::stimulates_width::<M>(hidden, channels as nat, r.1)
                    && match validate::finite_error(r.1, ForwardValueStage::Stimuli) {
                    Some(e) => outcome == Err::<(Seq<Scalar>, Seq<Scalar>), error::ErrorView>(e),
                    None => outcome == Ok::<(Seq<Scalar>, Seq<Scalar>), error::ErrorView>(r),
                },
            },
        },
{
    let embedding = choose|embedding: Seq<Scalar>| #[trigger]
        pools_embedding::<M>(hidden, dim, embedding) && stimulated::<M>(
            hidden,
            channels,
            embedding,
            outcome,
        );
    let stimuli = choose|stimuli: Seq<Scalar>| #[trigger]
        projector::stimulates_width::<M>(hidden, channels as nat, stimuli) && outcome == (
        match validate::finite_error(stimuli, ForwardValueStage::Stimuli) {
            Some(e) => Err(e),
            None => Ok((embedding, stimuli)),
        });
    (embedding, stimuli)
}

/// A request without a token fails as such; one with more than the transformer
/// takes fails with both numbers; and one for a spiking network without input
/// channels fails for that, before the transformer is asked for a hidden state.
pub proof fn law_refused_request<M: Arithmetic, T: Transformer, S: SpikingNetwork>(
    transformer: &T,
    snn: &S,
    tokens: Seq<u32>,
    max: usize,
    channels: usize,
    outcome: Result<(Seq<Scalar>, Seq<Scalar>), error::ErrorView>,
)
    requires
        tokens.len() <= usize::MAX,
        forall|m: usize| #[trigger] call_ensures(T::max_seq_len, (transformer,), m) ==> m == max,
        forall|c: usize| #[trigger] call_ensures(S::num_channels, (snn,), c) ==> c == channels,
        prepared::<M, T, S>(transformer, snn, tokens, outcome),
    ensures
        tokens.len() == 0 ==> outcome == Err::<(Seq<Scalar>, Seq<Scalar>), error::ErrorView>(
            error::ErrorView::InputLengthMismatch { expected: 1, got: 0 },
        ),
        0 < tokens.len() && max < tokens.len() ==> outcome == Err::<
            (Seq<Scalar>, Seq<Scalar>),
            error::ErrorView,
        >(error::ErrorView::InputLengthMismatch { expected: max, got: tokens.len() as usize }),
        0 < tokens.len() <= max && channels == 0 ==> outcome == Err::<
            (Seq<Scalar>, Seq<Scalar>),
            error::ErrorView,
        >(error::ErrorView::ZeroSnnChannels),
        0 < tokens.len() <= max && channels > 0 ==> exists|hidden: Tensor, dim: usize|
            #![trigger gives_hidden(transformer, tokens, hidden), reports_dim(transformer, dim)]
            gives_hidden(transformer, tokens, hidden) && reports_dim(transformer, dim)
                && conditioned::<M>(&hidden, tokens.len() as usize, dim, channels, outcome),
{
}

/// The hidden state is that of the tokens, in their order.
pub proof fn law_hidden_is_of_tokens<T: Transformer>(
    transformer: &T,
    tokens: Seq<u32>,
    hidden: Tensor,
)
    requires
        gives_hidden(transformer, tokens, hidden),
    ensures
        exists|ids: &[u32]|
            ids@ == tokens && #[trigger] call_ensures(
                T::hidden_states,
                (transformer, ids),
                hidden,
            ),
{
}

/// The view of a conditioning result is its two sequences of numbers, the
/// embedding first, or its error's.
pub proof fn law_conditioning_view(r: Result<(Vec<Scalar>, Vec<Scalar>), HybridError>)
    ensures
        r is Ok ==> conditioning_view(r) == Ok::<(Seq<Scalar>, Seq<Scalar>), error::ErrorView>(
            (r->Ok_0.0@, r->Ok_0.1@),
        ),
        r is Err ==> conditioning_view(r) == Err::<(Seq<Scalar>, Seq<Scalar>), error::ErrorView>(
            r->Err_0@,
        ),
{
}

/// The spiking network is stepped with the stimuli and the modulators as they
/// are.
pub proof fn law_step_is_given_stimuli<S: SpikingNetwork>(
    snn: &mut S,
    stimuli: Seq<Scalar>,
    modulators: NeuroModulators,
    result: Result<Vec<usize>, HybridError>,
)
    requires
        step_gives(snn, stimuli, modulators, result),
    ensures
        exists|xs: &[Scalar]|
            xs@ == stimuli && #[trigger] call_ensures(S::step, (snn, xs, &modulators), result),
{
}

} // verus!
