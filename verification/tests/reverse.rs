use hybrid_fusion::reverse::{check_route, last_fired};
use hybrid_fusion::{
    Arithmetic, ExpertRouteOutput, ExpertRouter, HybridError, ProjectionMode, ReverseHybridPath,
    Scalar, SpikeActivity, StubExpertRouter, SyntheticExpertRouter, Wide, WEIGHT_SUM_TOLERANCE,
};

#[derive(Debug, Clone)]
struct Ieee;

fn n(x: f32) -> Scalar {
    Scalar { bits: x.to_bits() }
}

fn f(x: Scalar) -> f32 {
    f32::from_bits(x.bits)
}

fn wn(x: f64) -> Wide {
    Wide { bits: x.to_bits() }
}

fn wf(x: Wide) -> f64 {
    f64::from_bits(x.bits)
}

fn ns(xs: &[f32]) -> Vec<Scalar> {
    xs.iter().map(|&x| n(x)).collect()
}

fn fs(xs: &[Scalar]) -> Vec<f32> {
    xs.iter().map(|&x| f(x)).collect()
}

impl Arithmetic for Ieee {
    fn add(a: Scalar, b: Scalar) -> Scalar {
        n(f(a) + f(b))
    }
    fn subtract(a: Scalar, b: Scalar) -> Scalar {
        n(f(a) - f(b))
    }
    fn multiply(a: Scalar, b: Scalar) -> Scalar {
        n(f(a) * f(b))
    }
    fn divide(a: Scalar, b: Scalar) -> Scalar {
        n(f(a) / f(b))
    }
    fn count(k: usize) -> Scalar {
        n(k as f32)
    }
    fn tanh(a: Scalar) -> Scalar {
        n(f(a).tanh())
    }
    fn exp(a: Scalar) -> Scalar {
        n(f(a).exp())
    }
    fn ln(a: Scalar) -> Scalar {
        n(f(a).ln())
    }
    fn widen(a: Scalar) -> Wide {
        wn(f64::from(f(a)))
    }
    fn narrow(a: Wide) -> Scalar {
        n(wf(a) as f32)
    }
    fn wide_add(a: Wide, b: Wide) -> Wide {
        wn(wf(a) + wf(b))
    }
    fn wide_multiply(a: Wide, b: Wide) -> Wide {
        wn(wf(a) * wf(b))
    }
    fn wide_divide(a: Wide, b: Wide) -> Wide {
        wn(wf(a) / wf(b))
    }
    fn wide_text(a: Wide) -> String {
        format!("{}", wf(a))
    }
}

/// A router that shares the weight among the first experts.
#[derive(Debug)]
struct MockRouter {
    num_experts: usize,
    top_k: usize,
}

impl MockRouter {
    fn new(num_experts: usize, top_k: usize) -> Self {
        Self {
            num_experts,
            // At least one, so that `1.0 / k` is finite.
            top_k: top_k.min(num_experts).max(1),
        }
    }
}

impl ExpertRouter for MockRouter {
    fn num_experts(&self) -> usize {
        self.num_experts
    }

    fn top_k(&self) -> usize {
        self.top_k
    }

    fn route(&mut self, embedding: &[Scalar]) -> Result<ExpertRouteOutput, HybridError> {
        if embedding.is_empty() {
            return Err(HybridError::InvalidConfig(
                "MockRouter: empty embedding".into(),
            ));
        }
        let count = self.num_experts;
        let mut expert_weights = vec![0.0f32; count];
        let k = self.top_k;
        let w = 1.0 / k as f32;
        let mut selected = Vec::with_capacity(k);
        for (i, weight) in expert_weights.iter_mut().enumerate().take(k) {
            *weight = w;
            selected.push(i);
        }
        Ok(ExpertRouteOutput {
            expert_weights: ns(&expert_weights),
            selected_experts: selected,
            routing_entropy: Some(n(0.5)),
        })
    }
}

/// Router returning a caller-supplied weight vector verbatim, so tests can
/// pin the [`WEIGHT_SUM_TOLERANCE`] boundary. `selected_experts` is the first
/// `top_k` indices, which always satisfies the selection checks that follow.
#[derive(Debug)]
struct FixedWeightsRouter {
    weights: Vec<f32>,
    top_k: usize,
}

impl FixedWeightsRouter {
    fn new(weights: Vec<f32>, top_k: usize) -> Self {
        Self { weights, top_k }
    }
}

impl ExpertRouter for FixedWeightsRouter {
    fn num_experts(&self) -> usize {
        self.weights.len()
    }

    fn top_k(&self) -> usize {
        self.top_k
    }

    fn route(&mut self, _embedding: &[Scalar]) -> Result<ExpertRouteOutput, HybridError> {
        Ok(ExpertRouteOutput {
            expert_weights: ns(&self.weights),
            selected_experts: (0..self.top_k).collect(),
            routing_entropy: Some(n(0.25)),
        })
    }
}

/// Router that advertises `top_k() == 0` to test the explicit zero guard.
#[derive(Debug)]
struct ZeroTopKRouter;

impl ExpertRouter for ZeroTopKRouter {
    fn num_experts(&self) -> usize {
        4
    }

    fn top_k(&self) -> usize {
        0
    }

    fn route(&mut self, _embedding: &[Scalar]) -> Result<ExpertRouteOutput, HybridError> {
        Ok(ExpertRouteOutput {
            expert_weights: ns(&[0.25_f32; 4]),
            selected_experts: vec![],
            routing_entropy: None,
        })
    }
}

#[test]
fn forward_activity_rejects_zero_top_k() {
    let mut path =
        ReverseHybridPath::new(ProjectionMode::RateSum, 4, 8, ZeroTopKRouter).unwrap();
    let act = SpikeActivity::from_fired(&[0], 4).unwrap();
    let err = path.forward_activity::<Ieee>(&act).unwrap_err();
    match err {
        HybridError::InvalidConfig(msg) => assert!(msg.contains("top_k=0")),
        other => panic!("unexpected: {other:?}"),
    }
}

#[test]
fn new_rejects_zero_n_neurons() {
    let r = MockRouter::new(4, 2);
    let err = ReverseHybridPath::new(ProjectionMode::RateSum, 0, 8, r).unwrap_err();
    match err {
        HybridError::InvalidConfig(msg) => assert!(msg.contains("n_neurons")),
        other => panic!("unexpected: {other:?}"),
    }
}

#[test]
fn new_rejects_zero_embed_dim() {
    let r = MockRouter::new(4, 2);
    let err = ReverseHybridPath::new(ProjectionMode::RateSum, 4, 0, r).unwrap_err();
    match err {
        HybridError::InvalidConfig(msg) => assert!(msg.contains("embed_dim")),
        other => panic!("unexpected: {other:?}"),
    }
}

#[test]
fn forward_activity_increments_global_step() {
    let r = MockRouter::new(4, 2);
    let mut path = ReverseHybridPath::new(ProjectionMode::RateSum, 4, 8, r).unwrap();
    assert_eq!(path.global_step(), 0);
    let act = SpikeActivity::from_fired(&[0, 2], 4).unwrap();
    let out = path.forward_activity::<Ieee>(&act).unwrap();
    assert_eq!(out.global_step, 1);
    assert_eq!(path.global_step(), 1);
    let out2 = path.forward_activity::<Ieee>(&act).unwrap();
    assert_eq!(out2.global_step, 2);
}

#[test]
fn reset_clears_global_step() {
    let r = MockRouter::new(4, 2);
    let mut path = ReverseHybridPath::new(ProjectionMode::RateSum, 4, 8, r).unwrap();
    let act = SpikeActivity::from_fired(&[1], 4).unwrap();
    path.forward_activity::<Ieee>(&act).unwrap();
    path.reset();
    assert_eq!(path.global_step(), 0);
}

#[test]
fn forward_activity_sets_moe_fields_and_empty_stimuli() {
    let r = MockRouter::new(4, 2);
    let mut path = ReverseHybridPath::new(ProjectionMode::RateSum, 4, 8, r).unwrap();
    let act = SpikeActivity::from_fired(&[0, 3], 4).unwrap();
    let out = path.forward_activity::<Ieee>(&act).unwrap();

    assert_eq!(out.embedding.len(), 8);
    assert!(out.stimuli.is_empty());
    assert_eq!(out.fired_neurons, vec![0, 3]);
    let weights = fs(&out.expert_weights.expect("MoE weights"));
    assert_eq!(weights.len(), 4);
    assert!((weights.iter().sum::<f32>() - 1.0).abs() < 1e-5);
    let selected = out.selected_experts.expect("selected");
    assert_eq!(selected.len(), 2);
    assert!(out.routing_entropy.is_some());
}

/// Drives the rejection branch from both directions and pins the documented
/// step semantics: a rejected route must not consume a `global_step`.
#[test]
fn forward_activity_rejects_weights_outside_tolerance() {
    let act = SpikeActivity::from_fired(&[0], 4).unwrap();

    for (weights, label) in [
        (vec![2.0_f32, 0.0], "sum far above 1.0"),
        (vec![0.25_f32, 0.25], "sum far below 1.0"),
    ] {
        let mut path = ReverseHybridPath::new(
            ProjectionMode::RateSum,
            4,
            8,
            FixedWeightsRouter::new(weights, 1),
        )
        .unwrap();
        match path.forward_activity::<Ieee>(&act).unwrap_err() {
            HybridError::InvalidConfig(msg) => {
                assert!(msg.contains("outside tolerance"), "{label}: {msg}")
            }
            other => panic!("{label}: unexpected {other:?}"),
        }
        // A step is counted only after the whole route was accepted.
        assert_eq!(path.global_step(), 0, "{label}");
    }
}

/// An all-zero distribution gets its own diagnosis rather than falling
/// through to the tolerance message.
#[test]
fn forward_activity_rejects_all_zero_weights() {
    let mut path = ReverseHybridPath::new(
        ProjectionMode::RateSum,
        4,
        8,
        FixedWeightsRouter::new(vec![0.0, 0.0], 1),
    )
    .unwrap();
    let act = SpikeActivity::from_fired(&[0], 4).unwrap();
    match path.forward_activity::<Ieee>(&act).unwrap_err() {
        HybridError::InvalidConfig(msg) => assert!(msg.contains("all zero"), "{msg}"),
        other => panic!("unexpected {other:?}"),
    }
    assert_eq!(path.global_step(), 0);
}

/// The accept side: ordinary `f32` drift (three thirds sum to 1 + ~3e-8)
/// must pass.
#[test]
fn forward_activity_accepts_normal_f32_drift() {
    let w = 1.0_f32 / 3.0;
    let mut path = ReverseHybridPath::new(
        ProjectionMode::RateSum,
        4,
        8,
        FixedWeightsRouter::new(vec![w, w, w], 2),
    )
    .unwrap();
    let act = SpikeActivity::from_fired(&[0], 4).unwrap();
    let out = path.forward_activity::<Ieee>(&act).unwrap();

    let weights = fs(&out.expert_weights.expect("MoE weights"));
    let sum: f64 = weights.iter().map(|&x| f64::from(x)).sum();
    assert!(
        (sum - 1.0).abs() <= f64::from_bits(WEIGHT_SUM_TOLERANCE),
        "renormalized sum {sum}"
    );
    assert_eq!(path.global_step(), 1);
}

/// Renormalization is observable: a sum inside the tolerance but several
/// `f32` ULPs off 1.0 comes back rescaled, not passed through.
#[test]
fn forward_activity_renormalizes_weights_inside_tolerance() {
    // sum = 1.0 + ~5e-7: inside WEIGHT_SUM_TOLERANCE (9.54e-7) yet ~8 ULPs
    // of 0.5, so the rescale changes the emitted weights.
    let mut path = ReverseHybridPath::new(
        ProjectionMode::RateSum,
        4,
        8,
        FixedWeightsRouter::new(vec![0.5, 0.500_000_5], 2),
    )
    .unwrap();
    let act = SpikeActivity::from_fired(&[0], 4).unwrap();
    let out = path.forward_activity::<Ieee>(&act).unwrap();

    let weights = fs(&out.expert_weights.expect("MoE weights"));
    assert!(weights[0] < 0.5, "weights not renormalized: {weights:?}");
    let sum: f64 = weights.iter().map(|&x| f64::from(x)).sum();
    assert!(
        (sum - 1.0).abs() <= f64::from_bits(WEIGHT_SUM_TOLERANCE),
        "renormalized sum {sum}"
    );
    assert_eq!(path.global_step(), 1);
}

#[test]
fn last_fired_prefers_last_non_empty_step() {
    let train = vec![vec![0], vec![], vec![1, 2]];
    assert_eq!(last_fired(&train), vec![1, 2]);
    let empty: Vec<Vec<usize>> = vec![vec![], vec![]];
    assert!(last_fired(&empty).is_empty());
}

#[test]
fn accessors_match_construction() {
    let r = MockRouter::new(8, 3);
    let path = ReverseHybridPath::new(ProjectionMode::MembraneSnapshot, 16, 32, r).unwrap();
    assert_eq!(path.mode(), ProjectionMode::MembraneSnapshot);
    assert_eq!(path.n_neurons(), 16);
    assert_eq!(path.embed_dim(), 32);
    assert_eq!(path.router().num_experts(), 8);
    assert_eq!(path.router().top_k(), 3);
}

fn route(weights: &[f32], selected: &[usize]) -> ExpertRouteOutput {
    ExpertRouteOutput {
        expert_weights: ns(weights),
        selected_experts: selected.to_vec(),
        routing_entropy: None,
    }
}

fn refusal(n_experts: usize, top_k: usize, route: &ExpertRouteOutput) -> String {
    match check_route::<Ieee>(n_experts, top_k, route).unwrap_err() {
        HybridError::InvalidConfig(text) => text,
        other => panic!("unexpected {other:?}"),
    }
}

#[test]
fn a_refused_route_names_the_first_thing_wrong() {
    let good = route(&[0.5, 0.5], &[1]);
    assert_eq!(fs(&check_route::<Ieee>(2, 1, &good).unwrap()), vec![0.5, 0.5]);
    assert_eq!(
        refusal(0, 1, &good),
        "ReverseHybridPath: router reports invalid num_experts=0 / top_k=1"
    );
    assert_eq!(
        refusal(2, 3, &good),
        "ReverseHybridPath: router reports invalid num_experts=2 / top_k=3"
    );
    assert_eq!(
        refusal(3, 1, &good),
        "ReverseHybridPath: expert_weights.len() (2) != num_experts (3)"
    );
    for bad in [f32::NAN, f32::INFINITY, f32::NEG_INFINITY, -0.5] {
        assert_eq!(
            refusal(2, 1, &route(&[1.5, bad], &[])),
            "ReverseHybridPath: expert_weights contain non-finite or negative values"
        );
    }
    assert_eq!(
        refusal(2, 1, &route(&[0.0, -0.0], &[])),
        "ReverseHybridPath: expert_weights are all zero"
    );
    assert_eq!(
        refusal(2, 1, &route(&[0.5, 0.25], &[])),
        "ReverseHybridPath: expert_weights sum 0.75 is outside tolerance 0.00000095367431640625 \
         of 1.0; routers with many experts must accumulate their softmax denominator in f64 \
         (see ExpertRouteOutput docs)"
    );
    assert_eq!(
        refusal(2, 1, &route(&[0.5, 0.5], &[])),
        "ReverseHybridPath: selected_experts.len() (0) != top_k (1)"
    );
    assert_eq!(
        refusal(2, 2, &route(&[0.5, 0.5], &[7, 7])),
        "ReverseHybridPath: selected expert index 7 >= num_experts (2)"
    );
    assert_eq!(
        refusal(2, 2, &route(&[0.5, 0.5], &[1, 1])),
        "ReverseHybridPath: selected_experts contains duplicate indices"
    );
}

#[test]
fn the_tolerance_is_met_at_its_edges() {
    let tolerance = f64::from_bits(WEIGHT_SUM_TOLERANCE);
    assert_eq!(tolerance, 8.0 * f32::EPSILON as f64);
    assert_eq!(format!("{tolerance}"), "0.00000095367431640625");
    let edge = tolerance as f32;
    // Both sums are exact.
    assert!(check_route::<Ieee>(2, 1, &route(&[1.0, edge], &[0])).is_ok());
    assert!(check_route::<Ieee>(2, 1, &route(&[1.0 - edge, 0.0], &[0])).is_ok());
    let ulp = f32::EPSILON;
    assert!(check_route::<Ieee>(2, 1, &route(&[1.0, edge + ulp], &[0])).is_err());
    assert!(check_route::<Ieee>(2, 1, &route(&[1.0 - edge - ulp, 0.0], &[0])).is_err());
    let least = f32::from_bits(1);
    assert!(check_route::<Ieee>(3, 1, &route(&[1.0, edge, 1e-12], &[0])).is_err());
    assert!(check_route::<Ieee>(3, 1, &route(&[1.0, edge, least], &[0])).is_ok());
}

#[test]
fn accepted_weights_are_rescaled_by_one_over_their_sum() {
    let weights = [0.5f32, 0.500_000_5];
    let out = check_route::<Ieee>(2, 2, &route(&weights, &[1, 0])).unwrap();
    let scale = 1.0 / (f64::from(weights[0]) + f64::from(weights[1]));
    assert_eq!(
        fs(&out),
        vec![
            (f64::from(weights[0]) * scale) as f32,
            (f64::from(weights[1]) * scale) as f32
        ]
    );
}

#[test]
fn a_failed_projection_or_route_leaves_the_step_count() {
    let mut path = ReverseHybridPath::new(
        ProjectionMode::RateSum,
        4,
        8,
        FixedWeightsRouter::new(vec![0.5, 0.5], 1),
    )
    .unwrap();
    let good = SpikeActivity::from_fired(&[3], 4).unwrap();
    path.forward_activity::<Ieee>(&good).unwrap();
    let mut short = good.clone();
    short.potentials.pop();
    match path.forward_activity::<Ieee>(&short).unwrap_err() {
        HybridError::InputLengthMismatch {
            expected: 4,
            got: 3,
        } => {}
        other => panic!("unexpected {other:?}"),
    }
    assert_eq!(path.global_step(), 1);
    path.router_mut().weights = vec![0.5, 0.25];
    assert!(path.forward_activity::<Ieee>(&good).is_err());
    assert_eq!(path.global_step(), 1);
    path.router_mut().weights = vec![0.25, 0.75];
    let out = path.forward_activity::<Ieee>(&good).unwrap();
    assert_eq!(out.global_step, 2);
    assert_eq!(fs(&out.expert_weights.unwrap()), vec![0.25, 0.75]);
    assert_eq!(out.selected_experts.unwrap(), vec![0]);
    assert_eq!(f(out.routing_entropy.unwrap()), 0.25);
}

#[derive(Debug)]
struct RefusingRouter {
    calls: usize,
}

impl ExpertRouter for RefusingRouter {
    fn num_experts(&self) -> usize {
        2
    }

    fn top_k(&self) -> usize {
        1
    }

    fn route(&mut self, embedding: &[Scalar]) -> Result<ExpertRouteOutput, HybridError> {
        self.calls += 1;
        Err(HybridError::UnsupportedFormat(format!(
            "{} numbers",
            embedding.len()
        )))
    }
}

#[test]
fn a_routers_own_error_is_passed_on() {
    let mut path =
        ReverseHybridPath::new(ProjectionMode::RateSum, 2, 5, RefusingRouter { calls: 0 }).unwrap();
    let act = SpikeActivity::from_fired(&[], 2).unwrap();
    let error = path.forward_activity::<Ieee>(&act).unwrap_err();
    assert_eq!(error.message(), "unsupported model format: 5 numbers");
    assert_eq!(path.router().calls, 1);
    assert_eq!(path.global_step(), 0);
}

#[test]
fn routes_of_the_reference_routers_are_accepted() {
    for experts in [1, 3, 7, 1000] {
        for top_k in [1, 2] {
            let emb = ns(&[0.5, -0.25, 0.125, 0.9]);
            let mut stub = StubExpertRouter::<Ieee>::new(experts, top_k).unwrap();
            let route = stub.route(&emb).unwrap();
            assert!(check_route::<Ieee>(experts, stub.top_k(), &route).is_ok());
            let mut synthetic = SyntheticExpertRouter::<Ieee>::new(experts, top_k).unwrap();
            let route = synthetic.route(&emb).unwrap();
            assert!(check_route::<Ieee>(experts, synthetic.top_k(), &route).is_ok());
        }
    }
}
