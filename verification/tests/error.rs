use hybrid_fusion::{
    ExpertRouteOutput, ForwardValueStage, HybridError, Scalar, SpikeActivity, Tensor, Wide,
};

#[test]
fn every_error_reads_as_documented() {
    let cases = [
        (
            HybridError::InvalidConfig("x".into()),
            "invalid configuration: x",
        ),
        (
            HybridError::ModelLoad {
                path: "a.gguf".into(),
                reason: "gone".into(),
            },
            "model load failed for 'a.gguf': gone",
        ),
        (
            HybridError::UnsupportedFormat("zip".into()),
            "unsupported model format: zip",
        ),
        (
            HybridError::MissingTensor {
                name: "wq".into(),
                path: "m".into(),
            },
            "missing tensor 'wq' in model 'm'",
        ),
        (HybridError::GgufParse("g".into()), "GGUF parse failed: g"),
        (
            HybridError::SafetensorsParse("s".into()),
            "Safetensors parse failed: s",
        ),
        (
            HybridError::InputLengthMismatch {
                expected: 64,
                got: 1005,
            },
            "input length mismatch: expected 64, got 1005",
        ),
        (
            HybridError::HiddenStateRank { got: 3 },
            "hidden-state rank 3 is unsupported (expected 1 or 2)",
        ),
        (
            HybridError::HiddenStateSeqLen {
                expected: 2,
                got: 4,
            },
            "hidden-state sequence length mismatch: expected 2, got 4",
        ),
        (
            HybridError::HiddenStateDim {
                expected: 128,
                got: 0,
            },
            "hidden-state dimension mismatch: expected 128, got 0",
        ),
        (
            HybridError::HiddenStateDataLen {
                expected: 10,
                got: 9,
            },
            "hidden-state data length mismatch: expected 10, got 9",
        ),
        (
            HybridError::NonFinite {
                stage: ForwardValueStage::HiddenState,
                index: 7,
            },
            "non-finite value in hidden-state at index 7",
        ),
        (
            HybridError::NonFinite {
                stage: ForwardValueStage::Embedding,
                index: 0,
            },
            "non-finite value in embedding at index 0",
        ),
        (
            HybridError::NonFinite {
                stage: ForwardValueStage::Stimuli,
                index: 12,
            },
            "non-finite value in stimuli at index 12",
        ),
        (HybridError::ZeroSnnChannels, "SNN has zero input channels"),
        (
            HybridError::config_mismatch(HybridError::FIELD_TRANSFORMER_MAX_SEQ_LEN, 8, 64),
            "configuration mismatch for transformer.max_seq_len: configured 8, backend 64",
        ),
        (HybridError::SnnStep("no".into()), "SNN step failed: no"),
    ];
    for (error, text) in cases {
        assert_eq!(error.message(), text);
    }
}

#[test]
fn outside_errors_are_carried_and_shown() {
    let io = std::io::Error::new(std::io::ErrorKind::NotFound, "no such file");
    let error = HybridError::from(io);
    assert!(matches!(error, HybridError::Io(_)));
    assert_eq!(error.message(), "I/O error: no such file");

    let cause = serde_json::from_str::<Vec<u32>>("[1,").unwrap_err();
    let shown = cause.to_string();
    let error = HybridError::from(cause);
    assert!(matches!(error, HybridError::Json(_)));
    assert_eq!(error.message(), format!("JSON error: {shown}"));
}

#[test]
fn fired_neurons_are_checked() {
    match SpikeActivity::from_fired(&[0, 9, 12], 9).unwrap_err() {
        HybridError::InvalidConfig(text) => assert_eq!(
            text,
            "SpikeActivity::from_fired: fired index 9 out of range for n_neurons=9"
        ),
        other => panic!("unexpected {other:?}"),
    }
    match SpikeActivity::from_fired(&[3], 0).unwrap_err() {
        HybridError::InvalidConfig(text) => {
            assert_eq!(text, "SpikeActivity::from_fired: n_neurons must be > 0")
        }
        other => panic!("unexpected {other:?}"),
    }
    let activity = SpikeActivity::from_fired(&[1, 1], 2).unwrap();
    assert_eq!(activity.spike_train, vec![vec![1, 1]]);
    assert_eq!(activity.potentials, vec![Scalar { bits: 0 }; 2]);
}

fn n(x: f32) -> Scalar {
    Scalar { bits: x.to_bits() }
}

#[test]
fn patterns_compare_as_numbers() {
    let all = [
        f32::NEG_INFINITY,
        -2.5,
        -1.0,
        -1e-40,
        -0.0,
        0.0,
        1e-40,
        0.5,
        1.0,
        3e38,
        f32::INFINITY,
        f32::NAN,
    ];
    for &a in &all {
        assert_eq!(n(a).is_finite(), a.is_finite(), "{a}");
        assert_eq!(n(a).is_nan(), a.is_nan(), "{a}");
        assert_eq!(n(a).negate().bits, (-a).to_bits(), "{a}");
        let clamped = f32::from_bits(n(a).clamp_to_unit().bits);
        assert!(clamped == a.clamp(0.0, 1.0) || a.is_nan() && clamped.is_nan(), "{a}");
        let wide = f64::from(a);
        let held = Wide::from_bits(wide.to_bits());
        assert_eq!(held.is_nan(), wide.is_nan(), "{a}");
        assert_eq!(held.is_zero(), wide == 0.0, "{a}");
        assert_eq!(held.is_finite_positive(), wide.is_finite() && wide > 0.0, "{a}");
        let clamped = f64::from_bits(held.clamp_to_unit().bits);
        assert!(clamped == wide.clamp(0.0, 1.0) || a.is_nan() && clamped.is_nan(), "{a}");
        for &b in &all {
            assert_eq!(n(a).is_below(n(b)), a < b, "{a} {b}");
            assert_eq!(n(a) == n(b), a == b, "{a} {b}");
            let other = Wide::from_bits(f64::from(b).to_bits());
            assert_eq!(held.is_below(other), a < b, "{a} {b}");
            assert_eq!(held == other, a == b, "{a} {b}");
            let larger = f32::from_bits(n(a).max(n(b)).bits);
            assert!(larger == a.max(b) || a.is_nan() && b.is_nan(), "{a} {b}");
        }
    }
    assert_eq!(Scalar::from_bits(7), Scalar { bits: 7 });
}

#[test]
fn data_is_equal_where_its_numbers_are() {
    let activity = SpikeActivity::from_fired(&[0], 2).unwrap();
    let mut other = activity.clone();
    other.potentials[1] = n(-0.0);
    assert_eq!(activity, other);
    other.potentials[1] = n(f32::NAN);
    assert_ne!(other, other.clone());
    let route = ExpertRouteOutput {
        expert_weights: vec![n(0.0), n(1.0)],
        selected_experts: vec![1],
        routing_entropy: Some(n(-0.0)),
    };
    let mut same = route.clone();
    same.expert_weights[0] = n(-0.0);
    same.routing_entropy = Some(n(0.0));
    assert_eq!(route, same);
    same.routing_entropy = Some(n(f32::NAN));
    assert_ne!(same, same.clone());
}

#[test]
fn tensors_keep_their_parts() {
    let mut t = Tensor::zeros(&[2, 3, 1]);
    assert_eq!((t.ndim(), t.numel()), (3, 6));
    assert_eq!(t.shape(), &[2, 3, 1]);
    t.data_mut()[4] = n(2.5);
    assert_eq!(t.data()[4], n(2.5));
    assert_eq!(t.data()[5], n(0.0));
    let loose = Tensor::from_parts(vec![n(1.0)], vec![0, 9]);
    assert_eq!((loose.ndim(), loose.numel()), (2, 1));
}
