use hybrid_fusion::hybrid::{check_capacity, condition_hidden, pool_embedding};
use hybrid_fusion::projector::{mean_pool, resize_to, squash_inplace};
use hybrid_fusion::{
    Arithmetic, ForwardFailure, ForwardValueStage, HybridConfig, HybridError, HybridNetwork,
    NeuroModulators, Scalar, SpikingNetwork, Tensor, Transformer, Wide,
};

#[derive(Debug, Clone)]
struct Ieee;

fn n(x: f32) -> Scalar {
    Scalar { bits: x.to_bits() }
}

fn f(x: Scalar) -> f32 {
    f32::from_bits(x.bits)
}

fn wn(x: f64) -> Wide {
    Wide { bits: x.to_bits() }
}

fn wf(x: Wide) -> f64 {
    f64::from_bits(x.bits)
}

fn ns(xs: &[f32]) -> Vec<Scalar> {
    xs.iter().map(|&x| n(x)).collect()
}

fn fs(xs: &[Scalar]) -> Vec<f32> {
    xs.iter().map(|&x| f(x)).collect()
}

impl Arithmetic for Ieee {
    fn add(a: Scalar, b: Scalar) -> Scalar {
        n(f(a) + f(b))
    }
    fn subtract(a: Scalar, b: Scalar) -> Scalar {
        n(f(a) - f(b))
    }
    fn multiply(a: Scalar, b: Scalar) -> Scalar {
        n(f(a) * f(b))
    }
    fn divide(a: Scalar, b: Scalar) -> Scalar {
        n(f(a) / f(b))
    }
    fn count(k: usize) -> Scalar {
        n(k as f32)
    }
    fn tanh(a: Scalar) -> Scalar {
        n(f(a).tanh())
    }
    fn exp(a: Scalar) -> Scalar {
        n(f(a).exp())
    }
    fn ln(a: Scalar) -> Scalar {
        n(f(a).ln())
    }
    fn widen(a: Scalar) -> Wide {
        wn(f64::from(f(a)))
    }
    fn narrow(a: Wide) -> Scalar {
        n(wf(a) as f32)
    }
    fn wide_add(a: Wide, b: Wide) -> Wide {
        wn(wf(a) + wf(b))
    }
    fn wide_multiply(a: Wide, b: Wide) -> Wide {
        wn(wf(a) * wf(b))
    }
    fn wide_divide(a: Wide, b: Wide) -> Wide {
        wn(wf(a) / wf(b))
    }
    fn wide_text(a: Wide) -> String {
        format!("{}", wf(a))
    }
}

struct MockTransformer {
    dim: usize,
    max_seq: usize,
}

impl Transformer for MockTransformer {
    fn hidden_states(&self, token_ids: &[u32]) -> Tensor {
        let seq = token_ids.len();
        let data: Vec<f32> = (0..seq * self.dim).map(|i| (i as f32) * 0.01).collect();
        Tensor::from_vec(ns(&data), &[seq, self.dim])
    }
    fn dim(&self) -> usize {
        self.dim
    }
    fn max_seq_len(&self) -> usize {
        self.max_seq
    }
    fn param_count(&self) -> usize {
        self.dim * 1000
    }
}

struct MockSnn {
    channels: usize,
}

impl SpikingNetwork for MockSnn {
    fn step(&mut self, stimuli: &[Scalar], _modulators: &NeuroModulators) -> Result<Vec<usize>, HybridError> {
        Ok(stimuli
            .iter()
            .enumerate()
            .filter(|(_, v)| f(**v) > 0.0)
            .map(|(i, _)| i)
            .collect())
    }
    fn num_channels(&self) -> usize {
        self.channels
    }
}

fn build_network() -> HybridNetwork<MockTransformer, MockSnn> {
    let cfg = HybridConfig::tiny();
    let t = MockTransformer {
        dim: cfg.transformer.dim,
        max_seq: cfg.transformer.max_seq_len,
    };
    let s = MockSnn {
        channels: cfg.snn_input_channels,
    };
    HybridNetwork::new(t, s, cfg)
}

#[test]
fn test_forward_shape_and_bounds() {
    let mut net = build_network();
    let out = net.forward::<Ieee>(&[1, 2, 3, 4], None).expect("forward ok");
    assert_eq!(out.embedding.len(), 128);
    assert_eq!(out.stimuli.len(), 64);
    for v in &fs(&out.stimuli) {
        assert!(v.abs() <= 1.0);
    }
    assert_eq!(out.global_step, 1);
}

#[test]
fn hybrid_test_forward_rejects_empty() {
    let mut net = build_network();
    assert!(net.forward::<Ieee>(&[], None).is_err());
}

#[test]
fn hybrid_test_forward_rejects_over_long() {
    let mut net = build_network();
    let too_long = vec![0u32; 65];
    assert!(net.forward::<Ieee>(&too_long, None).is_err());
}

#[test]
fn test_global_step_increments() {
    let mut net = build_network();
    net.forward::<Ieee>(&[0, 1], None).unwrap();
    net.forward::<Ieee>(&[0, 1], None).unwrap();
    assert_eq!(net.global_step(), 2);
    net.reset();
    assert_eq!(net.global_step(), 0);
}

#[test]
fn test_snn_width_independent_from_transformer_dim() {
    let mut cfg = HybridConfig::tiny();
    cfg.snn_input_channels = 7;
    let t = MockTransformer {
        dim: cfg.transformer.dim,
        max_seq: cfg.transformer.max_seq_len,
    };
    let s = MockSnn { channels: 7 };
    let mut net = HybridNetwork::try_new(t, s, cfg).expect("custom width is valid");
    let out = net.forward::<Ieee>(&[0, 1, 2], None).unwrap();
    assert_eq!(out.stimuli.len(), 7);
    assert_eq!(out.embedding.len(), 128);
}

#[test]
fn hybrid_test_try_new_accepts_tiny_config() {
    let cfg = HybridConfig::tiny();
    let t = MockTransformer {
        dim: cfg.transformer.dim,
        max_seq: cfg.transformer.max_seq_len,
    };
    let s = MockSnn {
        channels: cfg.snn_input_channels,
    };
    let net = HybridNetwork::try_new(t, s, cfg).expect("tiny config should construct");
    assert_eq!(net.config().transformer.dim, 128);
    assert_eq!(net.config().snn_input_channels, 64);
    assert_eq!(net.global_step(), 0);
}


struct ScriptedTransformer {
    dim: usize,
    max_seq: usize,
    hidden: Tensor,
}

impl Transformer for ScriptedTransformer {
    fn hidden_states(&self, _token_ids: &[u32]) -> Tensor {
        self.hidden.clone()
    }
    fn dim(&self) -> usize {
        self.dim
    }
    fn max_seq_len(&self) -> usize {
        self.max_seq
    }
    fn param_count(&self) -> usize {
        self.dim
    }
}

struct SpySnn {
    channels: usize,
    step_calls: usize,
    state: u32,
}

impl SpikingNetwork for SpySnn {
    fn step(&mut self, _stimuli: &[Scalar], _modulators: &NeuroModulators) -> Result<Vec<usize>, HybridError> {
        self.step_calls += 1;
        self.state = self.state.wrapping_add(1);
        Ok(Vec::new())
    }
    fn num_channels(&self) -> usize {
        self.channels
    }
}

const SPY_STATE: u32 = 7;

fn scripted_net(
    hidden: Tensor,
    dim: usize,
    channels: usize,
) -> HybridNetwork<ScriptedTransformer, SpySnn> {
    let cfg = HybridConfig::tiny();
    HybridNetwork::new(
        ScriptedTransformer {
            dim,
            max_seq: cfg.transformer.max_seq_len,
            hidden,
        },
        SpySnn {
            channels,
            step_calls: 0,
            state: SPY_STATE,
        },
        cfg,
    )
}

fn tensor_parts(data: Vec<f32>, shape: Vec<usize>) -> Tensor {
    Tensor::from_parts(ns(&data), shape)
}

fn assert_preflight_frozen(net: &HybridNetwork<ScriptedTransformer, SpySnn>) {
    assert_eq!(
        net.snn.step_calls, 0,
        "snn.step must not run on preflight error"
    );
    assert_eq!(net.snn.state, SPY_STATE, "SNN state must be unchanged");
    assert_eq!(
        net.global_step(),
        0,
        "global_step must stay 0 on validation error"
    );
}

fn tiny_dims() -> (usize, usize) {
    let cfg = HybridConfig::tiny();
    (cfg.transformer.dim, cfg.snn_input_channels)
}

fn valid_rank2(seq: usize, dim: usize) -> Tensor {
    let data: Vec<f32> = (0..seq * dim).map(|i| (i as f32) * 0.01).collect();
    Tensor::from_vec(ns(&data), &[seq, dim])
}

#[test]
fn preflight_rejects_rank0_without_stepping() {
    let (dim, channels) = tiny_dims();
    let mut net = scripted_net(Tensor::from_vec(ns(&[1.0]), &[]), dim, channels);
    match net.forward::<Ieee>(&[1, 2, 3], None).unwrap_err() {
        HybridError::HiddenStateRank { got: 0 } => {}
        other => panic!("unexpected {other:?}"),
    }
    assert_preflight_frozen(&net);
}

#[test]
fn preflight_rejects_rank1_wrong_dim_without_stepping() {
    let (dim, channels) = tiny_dims();
    let mut net = scripted_net(
        Tensor::from_vec(ns(&vec![0.1; dim + 1]), &[dim + 1]),
        dim,
        channels,
    );
    match net.forward::<Ieee>(&[1, 2], None).unwrap_err() {
        HybridError::HiddenStateDim { expected, got } if expected == dim && got == dim + 1 => {}
        other => panic!("unexpected {other:?}"),
    }
    assert_preflight_frozen(&net);
}

#[test]
fn preflight_rejects_rank3_without_stepping() {
    let (dim, channels) = tiny_dims();
    let mut net = scripted_net(Tensor::from_vec(ns(&[0.0; 8]), &[2, 2, 2]), dim, channels);
    match net.forward::<Ieee>(&[1, 2], None).unwrap_err() {
        HybridError::HiddenStateRank { got: 3 } => {}
        other => panic!("unexpected {other:?}"),
    }
    assert_preflight_frozen(&net);
}

#[test]
fn preflight_rejects_wrong_seq_len_without_stepping() {
    let (dim, channels) = tiny_dims();
    let mut net = scripted_net(valid_rank2(4, dim), dim, channels);
    match net.forward::<Ieee>(&[1, 2], None).unwrap_err() {
        HybridError::HiddenStateSeqLen {
            expected: 2,
            got: 4,
        } => {}
        other => panic!("unexpected {other:?}"),
    }
    assert_preflight_frozen(&net);
}

#[test]
fn preflight_rejects_wrong_hidden_dim_without_stepping() {
    let (dim, channels) = tiny_dims();
    let mut net = scripted_net(valid_rank2(3, dim + 8), dim, channels);
    match net.forward::<Ieee>(&[1, 2, 3], None).unwrap_err() {
        HybridError::HiddenStateDim { expected, got } if expected == dim && got == dim + 8 => {}
        other => panic!("unexpected {other:?}"),
    }
    assert_preflight_frozen(&net);
}

#[test]
fn preflight_rejects_empty_backing_data_without_stepping() {
    let (dim, channels) = tiny_dims();
    let mut net = scripted_net(tensor_parts(vec![], vec![2, dim]), dim, channels);
    match net.forward::<Ieee>(&[1, 2], None).unwrap_err() {
        HybridError::HiddenStateDataLen { expected, got: 0 } if expected == 2 * dim => {}
        other => panic!("unexpected {other:?}"),
    }
    assert_preflight_frozen(&net);
}

#[test]
fn preflight_rejects_inconsistent_storage_without_stepping() {
    let (dim, channels) = tiny_dims();
    let mut net = scripted_net(tensor_parts(vec![0.0; 3], vec![2, dim]), dim, channels);
    match net.forward::<Ieee>(&[1, 2], None).unwrap_err() {
        HybridError::HiddenStateDataLen { expected, got: 3 } if expected == 2 * dim => {}
        other => panic!("unexpected {other:?}"),
    }
    assert_preflight_frozen(&net);
}

#[test]
fn preflight_rejects_nan_hidden_without_stepping() {
    let (dim, channels) = tiny_dims();
    let mut hidden = valid_rank2(2, dim);
    hidden.data_mut()[4] = n(f32::NAN);
    let mut net = scripted_net(hidden, dim, channels);
    match net.forward::<Ieee>(&[1, 2], None).unwrap_err() {
        HybridError::NonFinite {
            stage: ForwardValueStage::HiddenState,
            index: 4,
        } => {}
        other => panic!("unexpected {other:?}"),
    }
    assert_preflight_frozen(&net);
}

#[test]
fn preflight_rejects_pos_inf_hidden_without_stepping() {
    let (dim, channels) = tiny_dims();
    let mut hidden = valid_rank2(2, dim);
    hidden.data_mut()[0] = n(f32::INFINITY);
    let mut net = scripted_net(hidden, dim, channels);
    match net.forward::<Ieee>(&[1, 2], None).unwrap_err() {
        HybridError::NonFinite {
            stage: ForwardValueStage::HiddenState,
            index: 0,
        } => {}
        other => panic!("unexpected {other:?}"),
    }
    assert_preflight_frozen(&net);
}

#[test]
fn preflight_rejects_neg_inf_hidden_without_stepping() {
    let (dim, channels) = tiny_dims();
    let mut hidden = valid_rank2(2, dim);
    hidden.data_mut()[1] = n(f32::NEG_INFINITY);
    let mut net = scripted_net(hidden, dim, channels);
    match net.forward::<Ieee>(&[1, 2], None).unwrap_err() {
        HybridError::NonFinite {
            stage: ForwardValueStage::HiddenState,
            index: 1,
        } => {}
        other => panic!("unexpected {other:?}"),
    }
    assert_preflight_frozen(&net);
}

#[test]
fn preflight_rejects_overflow_inf_embedding_without_stepping() {
    let (dim, channels) = tiny_dims();
    // Two finite f32::MAX rows sum to +Inf during mean-pool.
    let hidden = Tensor::from_vec(ns(&vec![f32::MAX; 2 * dim]), &[2, dim]);
    let mut net = scripted_net(hidden, dim, channels);
    match net.forward::<Ieee>(&[1, 2], None).unwrap_err() {
        HybridError::NonFinite {
            stage: ForwardValueStage::Embedding,
            index: 0,
        } => {}
        other => panic!("unexpected {other:?}"),
    }
    assert_preflight_frozen(&net);
}

#[test]
fn preflight_rejects_zero_snn_channels_without_stepping() {
    let (dim, _) = tiny_dims();
    let mut net = scripted_net(valid_rank2(2, dim), dim, 0);
    match net.forward::<Ieee>(&[1, 2], None).unwrap_err() {
        HybridError::ZeroSnnChannels => {}
        other => panic!("unexpected {other:?}"),
    }
    assert_preflight_frozen(&net);
}

#[test]
fn preflight_rejects_zero_transformer_dim_without_stepping() {
    let (_, channels) = tiny_dims();
    let hidden = tensor_parts(vec![], vec![0]);
    let mut net = scripted_net(hidden, 0, channels);
    match net.forward::<Ieee>(&[1, 2], None).unwrap_err() {
        HybridError::HiddenStateDim {
            expected: 1,
            got: 0,
        } => {}
        other => panic!("unexpected {other:?}"),
    }
    assert_preflight_frozen(&net);
}

#[test]
fn valid_rank2_preserves_pooled_embedding_and_steps_once() {
    let (dim, channels) = tiny_dims();
    let seq = 4;
    let hidden = valid_rank2(seq, dim);
    let mut net = scripted_net(hidden, dim, channels);
    let out = net.forward::<Ieee>(&[1, 2, 3, 4], None).expect("valid rank-2");
    assert_eq!(out.embedding.len(), dim);
    // Mean-pool of data[t * dim + i] = 0.01 * (t * dim + i) over t in 0..seq:
    // embedding[i] = 0.01 * (i + dim * (seq - 1) / 2)
    let expected_0 = 0.01 * dim as f32 * (seq - 1) as f32 / 2.0;
    assert!((f(out.embedding[0]) - expected_0).abs() < 1e-5);
    assert_eq!(out.stimuli.len(), channels);
    for v in &fs(&out.stimuli) {
        assert!(v.is_finite() && v.abs() <= 1.0);
    }
    assert_eq!(net.snn.step_calls, 1);
    assert_eq!(net.snn.state, SPY_STATE + 1);
    assert_eq!(net.global_step(), 1);
    assert_eq!(out.global_step, 1);
}

#[test]
fn valid_rank1_pooled_vector_steps_once() {
    let (dim, channels) = tiny_dims();
    let data: Vec<f32> = (0..dim).map(|i| (i as f32) * 0.01).collect();
    let mut net = scripted_net(Tensor::from_vec(ns(&data), &[dim]), dim, channels);
    let out = net.forward::<Ieee>(&[1, 2, 3], None).expect("valid rank-1");
    assert_eq!(out.embedding, ns(&data));
    assert_eq!(out.stimuli.len(), channels);
    assert_eq!(net.snn.step_calls, 1);
    assert_eq!(net.global_step(), 1);
}

#[test]
fn pooling_an_embedding_respects_rank_and_width() {
    let rows = Tensor::from_vec(ns(&[1.0, 2.0, 3.0, 5.0, 6.0, 7.0]), &[2, 3]);
    assert_eq!(fs(&pool_embedding::<Ieee>(&rows, 2)), vec![3.0, 4.0]);
    assert_eq!(fs(&pool_embedding::<Ieee>(&rows, 9)), vec![3.0, 4.0, 5.0]);
    let one = Tensor::from_vec(ns(&[1.0, 2.0]), &[2]);
    assert_eq!(fs(&pool_embedding::<Ieee>(&one, 1)), vec![1.0, 2.0]);
    let deep = Tensor::from_vec(ns(&[1.0, 2.0, 3.0, 4.0]), &[2, 2, 1]);
    assert_eq!(fs(&pool_embedding::<Ieee>(&deep, 3)), vec![1.0, 2.0, 3.0]);
    assert_eq!(fs(&pool_embedding::<Ieee>(&deep, 4)), vec![1.0, 2.0, 3.0, 4.0]);
}

#[test]
fn conditioning_gives_embedding_and_stimuli() {
    let hidden = Tensor::from_vec(ns(&[0.0, 2.0, 4.0, 6.0]), &[2, 2]);
    let (embedding, stimuli) = condition_hidden::<Ieee>(&hidden, 2, 2, 3).unwrap();
    assert_eq!(fs(&embedding), vec![2.0, 4.0]);
    assert_eq!(fs(&stimuli), vec![2.0f32.tanh(), 4.0f32.tanh(), 0.0]);
    match condition_hidden::<Ieee>(&hidden, 3, 2, 3).unwrap_err() {
        HybridError::HiddenStateSeqLen {
            expected: 3,
            got: 2,
        } => {}
        other => panic!("unexpected {other:?}"),
    }
}

/// A tangent that gives NaN, so that only the stimuli are wrong.
struct BrokenTanh;

impl Arithmetic for BrokenTanh {
    fn add(a: Scalar, b: Scalar) -> Scalar {
        Ieee::add(a, b)
    }
    fn subtract(a: Scalar, b: Scalar) -> Scalar {
        Ieee::subtract(a, b)
    }
    fn multiply(a: Scalar, b: Scalar) -> Scalar {
        Ieee::multiply(a, b)
    }
    fn divide(a: Scalar, b: Scalar) -> Scalar {
        Ieee::divide(a, b)
    }
    fn count(k: usize) -> Scalar {
        Ieee::count(k)
    }
    fn tanh(_a: Scalar) -> Scalar {
        n(f32::NAN)
    }
    fn exp(a: Scalar) -> Scalar {
        Ieee::exp(a)
    }
    fn ln(a: Scalar) -> Scalar {
        Ieee::ln(a)
    }
    fn widen(a: Scalar) -> Wide {
        Ieee::widen(a)
    }
    fn narrow(a: Wide) -> Scalar {
        Ieee::narrow(a)
    }
    fn wide_add(a: Wide, b: Wide) -> Wide {
        Ieee::wide_add(a, b)
    }
    fn wide_multiply(a: Wide, b: Wide) -> Wide {
        Ieee::wide_multiply(a, b)
    }
    fn wide_divide(a: Wide, b: Wide) -> Wide {
        Ieee::wide_divide(a, b)
    }
    fn wide_text(a: Wide) -> String {
        Ieee::wide_text(a)
    }
}

#[test]
fn non_finite_stimuli_are_rejected_without_stepping() {
    let (dim, channels) = tiny_dims();
    let mut net = scripted_net(valid_rank2(2, dim), dim, channels);
    match net.forward::<BrokenTanh>(&[1, 2], None).unwrap_err() {
        HybridError::NonFinite {
            stage: ForwardValueStage::Stimuli,
            index: 0,
        } => {}
        other => panic!("unexpected {other:?}"),
    }
    assert_preflight_frozen(&net);
}

struct FailingSnn {
    channels: usize,
    step_calls: usize,
}

impl SpikingNetwork for FailingSnn {
    fn step(
        &mut self,
        _stimuli: &[Scalar],
        _modulators: &NeuroModulators,
    ) -> Result<Vec<usize>, HybridError> {
        self.step_calls += 1;
        Err(HybridError::SnnStep("out of spikes".into()))
    }
    fn num_channels(&self) -> usize {
        self.channels
    }
}

#[test]
fn a_failed_step_is_a_backend_failure_and_is_not_counted() {
    let cfg = HybridConfig::tiny();
    let t = MockTransformer {
        dim: cfg.transformer.dim,
        max_seq: cfg.transformer.max_seq_len,
    };
    let s = FailingSnn {
        channels: cfg.snn_input_channels,
        step_calls: 0,
    };
    let mut net = HybridNetwork::try_new(t, s, cfg).unwrap();
    match net.forward_traced::<Ieee>(&[1], None).unwrap_err() {
        ForwardFailure::Backend(e) => assert_eq!(e.message(), "SNN step failed: out of spikes"),
        other => panic!("unexpected {other:?}"),
    }
    assert_eq!(net.snn.step_calls, 1);
    assert_eq!(net.global_step(), 0);
    match net.forward_traced::<Ieee>(&[], None).unwrap_err() {
        ForwardFailure::Contract(e) => {
            assert_eq!(e.message(), "input length mismatch: expected 1, got 0")
        }
        other => panic!("unexpected {other:?}"),
    }
    assert_eq!(net.snn.step_calls, 1);
    match net.forward::<Ieee>(&[1], None).unwrap_err() {
        HybridError::SnnStep(text) => assert_eq!(text, "out of spikes"),
        other => panic!("unexpected {other:?}"),
    }
}

#[test]
fn a_capacity_must_be_the_backends_and_above_zero() {
    assert!(check_capacity(HybridError::FIELD_TRANSFORMER_DIM, 4, 4).is_ok());
    assert!(check_capacity(HybridError::FIELD_TRANSFORMER_DIM, 0, 0).is_err());
    assert_eq!(
        check_capacity(HybridError::FIELD_SNN_INPUT_CHANNELS, 4, 5)
            .unwrap_err()
            .message(),
        "configuration mismatch for snn_input_channels: configured 4, backend 5"
    );
}

struct KeepingSnn {
    seen: Option<(Vec<Scalar>, NeuroModulators)>,
}

impl SpikingNetwork for KeepingSnn {
    fn step(
        &mut self,
        stimuli: &[Scalar],
        modulators: &NeuroModulators,
    ) -> Result<Vec<usize>, HybridError> {
        self.seen = Some((stimuli.to_vec(), *modulators));
        Ok(vec![2, 0])
    }
    fn num_channels(&self) -> usize {
        3
    }
}

#[test]
fn the_network_is_stepped_with_the_stimuli_and_neutral_modulators() {
    let hidden = Tensor::from_vec(ns(&[1.0, -1.0]), &[2]);
    let t = ScriptedTransformer {
        dim: 2,
        max_seq: 4,
        hidden,
    };
    let mut net = HybridNetwork::new(t, KeepingSnn { seen: None }, HybridConfig::tiny());
    let out = net.forward::<Ieee>(&[9], None).unwrap();
    assert_eq!(fs(&out.stimuli), vec![1.0f32.tanh(), (-1.0f32).tanh(), 0.0]);
    assert_eq!(out.fired_neurons, vec![2, 0]);
    let (stimuli, modulators) = net.snn.seen.unwrap();
    assert_eq!(stimuli, out.stimuli);
    assert_eq!(f(modulators.dopamine), 0.5);
    assert_eq!(f(modulators.cortisol), 0.0);
    assert_eq!(f(modulators.acetylcholine), 0.5);
    assert_eq!(f(modulators.tempo), 1.0);
    assert_eq!(f(modulators.aux_dopamine), 0.0);
}

#[test]
fn stimuli_are_the_embedding_resized_and_squashed() {
    let hidden = Tensor::from_vec(ns(&[1.0, 2.0, 3.0, 4.0, 3.0, 6.0, 1.0, 0.0]), &[2, 4]);
    let (embedding, stimuli) = condition_hidden::<Ieee>(&hidden, 2, 4, 2).unwrap();
    assert_eq!(fs(&embedding), vec![2.0, 4.0, 2.0, 2.0]);
    assert_eq!(embedding, mean_pool::<Ieee>(&hidden));
    let mut resized = resize_to::<Ieee>(&embedding, 2);
    squash_inplace::<Ieee>(&mut resized);
    assert_eq!(stimuli, resized);
    assert_eq!(pool_embedding::<Ieee>(&hidden, 3), mean_pool::<Ieee>(&hidden)[..3].to_vec());
}
