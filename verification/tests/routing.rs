use hybrid_fusion::routing::uniform_weights;
use hybrid_fusion::{
    route_synthetic, routing_entropy, softmax, synthetic_gate_scores, top_k_indices, Arithmetic,
    ExpertRouter, HybridError, Scalar, StubExpertRouter, SyntheticExpertRouter, Wide,
    MAX_REASONABLE_EXPERTS,
};

#[derive(Debug, Clone)]
struct Ieee;

fn n(x: f32) -> Scalar {
    Scalar { bits: x.to_bits() }
}

fn f(x: Scalar) -> f32 {
    f32::from_bits(x.bits)
}

fn wn(x: f64) -> Wide {
    Wide { bits: x.to_bits() }
}

fn wf(x: Wide) -> f64 {
    f64::from_bits(x.bits)
}

fn ns(xs: &[f32]) -> Vec<Scalar> {
    xs.iter().map(|&x| n(x)).collect()
}

fn fs(xs: &[Scalar]) -> Vec<f32> {
    xs.iter().map(|&x| f(x)).collect()
}

impl Arithmetic for Ieee {
    fn add(a: Scalar, b: Scalar) -> Scalar {
        n(f(a) + f(b))
    }
    fn subtract(a: Scalar, b: Scalar) -> Scalar {
        n(f(a) - f(b))
    }
    fn multiply(a: Scalar, b: Scalar) -> Scalar {
        n(f(a) * f(b))
    }
    fn divide(a: Scalar, b: Scalar) -> Scalar {
        n(f(a) / f(b))
    }
    fn count(k: usize) -> Scalar {
        n(k as f32)
    }
    fn tanh(a: Scalar) -> Scalar {
        n(f(a).tanh())
    }
    fn exp(a: Scalar) -> Scalar {
        n(f(a).exp())
    }
    fn ln(a: Scalar) -> Scalar {
        n(f(a).ln())
    }
    fn widen(a: Scalar) -> Wide {
        wn(f64::from(f(a)))
    }
    fn narrow(a: Wide) -> Scalar {
        n(wf(a) as f32)
    }
    fn wide_add(a: Wide, b: Wide) -> Wide {
        wn(wf(a) + wf(b))
    }
    fn wide_multiply(a: Wide, b: Wide) -> Wide {
        wn(wf(a) * wf(b))
    }
    fn wide_divide(a: Wide, b: Wide) -> Wide {
        wn(wf(a) / wf(b))
    }
    fn wide_text(a: Wide) -> String {
        format!("{}", wf(a))
    }
}

#[test]
fn softmax_sums_to_one() {
    let w = fs(&softmax::<Ieee>(&ns(&[1.0, 2.0, 3.0])));
    assert_eq!(w.len(), 3);
    assert!((w.iter().sum::<f32>() - 1.0).abs() < 1e-5);
    assert!(w[2] > w[1] && w[1] > w[0]);
}

#[test]
fn softmax_empty_and_uniform_fallback() {
    assert!(softmax::<Ieee>(&[]).is_empty());
    let w = fs(&softmax::<Ieee>(&ns(&[f32::NAN, f32::NAN])));
    assert!((w.iter().sum::<f32>() - 1.0).abs() < 1e-5);
}

#[test]
fn top_k_deterministic() {
    let idx = top_k_indices(&ns(&[0.1, 0.5, 0.2, 0.2]), 2);
    assert_eq!(idx, vec![1, 2]); // 0.5 first, then first 0.2 at index 2
    assert!(top_k_indices(&ns(&[1.0]), 0).is_empty());
}

#[test]
fn synthetic_scores_deterministic() {
    let emb = ns(&[1.0, 2.0, 3.0, 4.0]);
    let a = synthetic_gate_scores::<Ieee>(2, &emb);
    let b = synthetic_gate_scores::<Ieee>(2, &emb);
    assert_eq!(a, b);
    assert_eq!(a.len(), 2);
}

#[test]
fn entropy_uniform_near_one() {
    let u = ns(&[0.25; 4]);
    assert!((f(routing_entropy::<Ieee>(&u)) - 1.0).abs() < 1e-5);
    assert_eq!(f(routing_entropy::<Ieee>(&ns(&[1.0]))), 0.0);
}

#[test]
fn route_synthetic_happy_path() {
    let (w, sel, h) = route_synthetic::<Ieee>(&ns(&[1.0, 0.0, 2.0, 0.0]), 4, 2).unwrap();
    assert_eq!(w.len(), 4);
    assert!((fs(&w).iter().sum::<f32>() - 1.0).abs() < 1e-5);
    assert_eq!(sel.len(), 2);
    assert!((0.0..=1.0).contains(&f(h)));
}

#[test]
fn route_synthetic_rejects_empty() {
    assert!(route_synthetic::<Ieee>(&[], 2, 1).is_err());
    assert!(route_synthetic::<Ieee>(&ns(&[1.0]), 0, 1).is_err());
}

#[test]
fn stub_route_uniform_and_top_k() {
    let mut router = StubExpertRouter::<Ieee>::new(4, 2).unwrap();
    assert_eq!(router.num_experts(), 4);
    assert_eq!(router.top_k(), 2);

    let out = router.route(&ns(&[0.1, 0.2, 0.3])).unwrap();
    assert_eq!(out.expert_weights.len(), 4);
    assert!((fs(&out.expert_weights).iter().sum::<f32>() - 1.0).abs() < 1e-5);
    assert_eq!(out.selected_experts, vec![0, 1]);
    assert!(out.routing_entropy.is_some());
}

#[test]
fn stub_rejects_empty_embedding() {
    let mut router = StubExpertRouter::<Ieee>::new(2, 1).unwrap();
    let err = router.route(&[]).unwrap_err();
    match err {
        HybridError::InputLengthMismatch { got: 0, .. } => {}
        other => panic!("unexpected {other:?}"),
    }
}

#[test]
fn stub_clamps_top_k() {
    let router = StubExpertRouter::<Ieee>::new(3, 10).unwrap();
    assert_eq!(router.top_k(), 3);
}

#[test]
fn synthetic_router_routes() {
    let mut r = SyntheticExpertRouter::<Ieee>::new(4, 2).unwrap();
    let out = r.route(&ns(&[1.0, 0.5, 0.0, 2.0])).unwrap();
    assert_eq!(out.expert_weights.len(), 4);
    assert!((fs(&out.expert_weights).iter().sum::<f32>() - 1.0).abs() < 1e-5);
    assert_eq!(out.selected_experts.len(), 2);
    assert!(out.routing_entropy.is_some());
}

#[test]
fn gate_scores_cover_the_embedding_and_wrap_when_short() {
    let emb = ns(&[1.0, 2.0, 4.0, 8.0, 16.0]);
    assert_eq!(fs(&synthetic_gate_scores::<Ieee>(2, &emb)), vec![3.0, 28.0]);
    assert_eq!(fs(&synthetic_gate_scores::<Ieee>(5, &emb)), vec![1.0, 2.0, 4.0, 8.0, 16.0]);
    assert_eq!(
        fs(&synthetic_gate_scores::<Ieee>(5, &ns(&[1.0, 2.0]))),
        vec![1.0, 2.0, 1.0, 2.0, 1.0]
    );
    assert!(synthetic_gate_scores::<Ieee>(0, &emb).is_empty());
    assert!(synthetic_gate_scores::<Ieee>(3, &[]).is_empty());
}

#[test]
fn softmax_has_exact_values() {
    let w = softmax::<Ieee>(&ns(&[5.0, 5.0]));
    assert_eq!(fs(&w), vec![0.5, 0.5]);
    let w = softmax::<Ieee>(&ns(&[0.0, -1.0]));
    let e = (-1.0f32).exp();
    let total = 1.0f64 + f64::from(e);
    assert_eq!(fs(&w), vec![(1.0 / total) as f32, (f64::from(e) / total) as f32]);
    // Infinity makes the largest score infinite, and NaN spoils the sum.
    assert_eq!(fs(&softmax::<Ieee>(&ns(&[1.0, f32::INFINITY]))), vec![0.5, 0.5]);
    assert_eq!(fs(&softmax::<Ieee>(&ns(&[1.0, f32::NAN]))), vec![0.5, 0.5]);
    assert_eq!(fs(&uniform_weights::<Ieee>(4)), vec![0.25; 4]);
}

#[test]
fn softmax_weights_add_up_for_many_experts() {
    let scores: Vec<f32> = (0..200_000).map(|i| ((i % 97) as f32) * 0.01).collect();
    let w = softmax::<Ieee>(&ns(&scores));
    let sum: f64 = fs(&w).iter().map(|&x| f64::from(x)).sum();
    assert!((sum - 1.0).abs() <= 8.0 * f64::from(f32::EPSILON), "sum {sum}");
}

#[test]
fn selection_puts_nan_last_and_breaks_ties_by_index() {
    let weights = ns(&[f32::NAN, 0.5, -1.0, 0.5, f32::NEG_INFINITY]);
    assert_eq!(top_k_indices(&weights, 9), vec![1, 3, 2, 4, 0]);
    assert_eq!(top_k_indices(&weights, 3), vec![1, 3, 2]);
    assert_eq!(top_k_indices(&ns(&[0.0, -0.0]), 2), vec![0, 1]);
    assert_eq!(top_k_indices(&ns(&[-0.0, 0.0]), 2), vec![0, 1]);
    assert!(top_k_indices(&[], 3).is_empty());
}

#[test]
fn entropy_has_exact_values() {
    assert_eq!(f(routing_entropy::<Ieee>(&[])), 0.0);
    assert_eq!(f(routing_entropy::<Ieee>(&ns(&[1.0, 0.0]))), 0.0);
    assert_eq!(f(routing_entropy::<Ieee>(&ns(&[1.0, f32::NAN, f32::INFINITY, -3.0]))), 0.0);
    let t = -0.25f32 * 0.25f32.ln();
    let u = -0.75f32 * 0.75f32.ln();
    let expected = ((f64::from(t) + f64::from(u)) / f64::from(2.0f32.ln())).clamp(0.0, 1.0);
    assert_eq!(f(routing_entropy::<Ieee>(&ns(&[0.25, 0.75]))), expected as f32);
    // Weights that do not add up are clamped.
    assert_eq!(f(routing_entropy::<Ieee>(&ns(&[0.4, 0.4, 0.4]))), 1.0);
}

#[test]
fn many_experts_are_selected_in_order() {
    let count: usize = 1_000_000;
    let weights: Vec<f32> = (0..count).map(|i| ((i * 7919) % 1009) as f32).collect();
    let selected = top_k_indices(&ns(&weights), count);
    assert_eq!(selected.len(), count);
    for pair in selected.windows(2) {
        let (a, b) = (pair[0], pair[1]);
        assert!(weights[a] > weights[b] || weights[a] == weights[b] && a < b);
    }
    assert_eq!(top_k_indices(&ns(&weights), 5), selected[..5].to_vec());
}

#[test]
fn entropy_lies_in_the_unit_interval_for_any_weights() {
    for weights in [
        [f32::MAX, f32::MAX, 1.0],
        [f32::MAX, 0.3, f32::NAN],
        [f32::from_bits(1), f32::INFINITY, -1.0],
        [0.3679, 0.3679, 0.3679],
        [2.0, 3.0, 4.0],
    ] {
        let h = f(routing_entropy::<Ieee>(&ns(&weights)));
        assert!((0.0..=1.0).contains(&h), "{weights:?} {h}");
    }
}

#[test]
fn softmax_weights_are_finite_and_not_negative_for_any_scores() {
    for scores in [
        [f32::NEG_INFINITY, 0.0, 88.0],
        [f32::NAN, 1.0, 2.0],
        [f32::MAX, f32::MIN, 0.0],
        [f32::INFINITY, 1.0, f32::NAN],
    ] {
        let w = fs(&softmax::<Ieee>(&ns(&scores)));
        assert_eq!(w.len(), 3);
        assert!(w.iter().all(|x| x.is_finite() && *x >= 0.0), "{scores:?} {w:?}");
    }
}

fn refusal<T: std::fmt::Debug>(r: Result<T, HybridError>) -> String {
    match r.unwrap_err() {
        HybridError::InvalidConfig(text) => text,
        other => panic!("unexpected {other:?}"),
    }
}

#[test]
fn synthetic_routes_name_what_is_wrong() {
    let emb = ns(&[1.0]);
    assert_eq!(
        refusal(route_synthetic::<Ieee>(&[], 0, 0)),
        "route_synthetic: embedding must be non-empty"
    );
    assert_eq!(
        refusal(route_synthetic::<Ieee>(&emb, 0, 0)),
        "route_synthetic: num_experts must be >= 1"
    );
    assert_eq!(
        refusal(route_synthetic::<Ieee>(&emb, MAX_REASONABLE_EXPERTS + 1, 0)),
        "route_synthetic: num_experts (1000001) exceeds max 1000000"
    );
    assert_eq!(
        refusal(route_synthetic::<Ieee>(&emb, 2, 0)),
        "route_synthetic: top_k must be >= 1"
    );
}

#[test]
fn routers_name_what_is_wrong_with_their_sizes() {
    assert_eq!(
        refusal(StubExpertRouter::<Ieee>::new(0, 0)),
        "StubExpertRouter: num_experts must be >= 1"
    );
    assert_eq!(
        refusal(StubExpertRouter::<Ieee>::new(1, 0)),
        "StubExpertRouter: top_k must be >= 1"
    );
    assert_eq!(
        refusal(SyntheticExpertRouter::<Ieee>::new(0, 0)),
        "SyntheticExpertRouter: num_experts must be >= 1"
    );
    assert_eq!(
        refusal(SyntheticExpertRouter::<Ieee>::new(MAX_REASONABLE_EXPERTS + 1, 1)),
        "SyntheticExpertRouter: num_experts (1000001) exceeds max 1000000"
    );
    assert_eq!(
        refusal(SyntheticExpertRouter::<Ieee>::new(1, 0)),
        "SyntheticExpertRouter: top_k must be >= 1"
    );
    let router = SyntheticExpertRouter::<Ieee>::new(3, 10).unwrap().clone();
    assert_eq!((router.num_experts(), router.top_k()), (3, 3));
}

#[test]
fn routers_give_exact_routes() {
    let mut stub = StubExpertRouter::<Ieee>::new(4, 3).unwrap().clone();
    let out = stub.route(&ns(&[9.0])).unwrap();
    assert_eq!(fs(&out.expert_weights), vec![0.25; 4]);
    assert_eq!(out.selected_experts, vec![0, 1, 2]);
    assert_eq!(f(out.routing_entropy.unwrap()), 4.0f32.ln());

    let mut synthetic = SyntheticExpertRouter::<Ieee>::new(2, 1).unwrap();
    let emb = ns(&[1.0, 1.0, 2.0, 0.0]);
    let out = synthetic.route(&emb).unwrap();
    assert_eq!(fs(&out.expert_weights), vec![0.5, 0.5]);
    assert_eq!(out.selected_experts, vec![0]);
    assert_eq!(f(out.routing_entropy.unwrap()), 1.0);
    let (weights, selected, entropy) = route_synthetic::<Ieee>(&emb, 2, 1).unwrap();
    assert_eq!(out.expert_weights, weights);
    assert_eq!(out.selected_experts, selected);
    assert_eq!(out.routing_entropy, Some(entropy));
    match synthetic.route(&[]).unwrap_err() {
        HybridError::InvalidConfig(_) => {}
        other => panic!("unexpected {other:?}"),
    }
}
