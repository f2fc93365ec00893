use hybrid_fusion::error::{ForwardValueStage, HybridError};
use hybrid_fusion::scalar::Scalar;
use hybrid_fusion::tensor::Tensor;
use hybrid_fusion::validate::{validate_finite, validate_hidden_state, validate_snn_width};

const SEQ: usize = 3;
const DIM: usize = 4;

fn ns(xs: &[f32]) -> Vec<Scalar> {
    xs.iter().map(|x| Scalar { bits: x.to_bits() }).collect()
}

fn num(x: f32) -> Scalar {
    Scalar { bits: x.to_bits() }
}

fn rank2_finite() -> Tensor {
    let data: Vec<f32> = (0..SEQ * DIM).map(|i| i as f32 * 0.01).collect();
    Tensor::from_vec(ns(&data), &[SEQ, DIM])
}

fn loose_tensor(data: Vec<f32>, shape: Vec<usize>) -> Tensor {
    Tensor::from_parts(ns(&data), shape)
}

#[test]
fn rank2_finite_ok() {
    validate_hidden_state(&rank2_finite(), SEQ, DIM).unwrap();
}

#[test]
fn rank1_finite_ok() {
    let t = Tensor::from_vec(ns(&[0.1, 0.2, 0.3, 0.4]), &[DIM]);
    validate_hidden_state(&t, SEQ, DIM).unwrap();
}

#[test]
fn rejects_rank0() {
    let t = Tensor::from_vec(ns(&[1.0]), &[]);
    match validate_hidden_state(&t, SEQ, DIM).unwrap_err() {
        HybridError::HiddenStateRank { got: 0 } => {}
        other => panic!("unexpected {other:?}"),
    }
}

#[test]
fn rejects_rank3() {
    let t = Tensor::from_vec(ns(&[0.0; SEQ * DIM * 2]), &[SEQ, DIM, 2]);
    match validate_hidden_state(&t, SEQ, DIM).unwrap_err() {
        HybridError::HiddenStateRank { got: 3 } => {}
        other => panic!("unexpected {other:?}"),
    }
}

#[test]
fn rejects_rank4() {
    let t = Tensor::from_vec(ns(&[1.0; 8]), &[2, 2, 2, 1]);
    match validate_hidden_state(&t, SEQ, DIM).unwrap_err() {
        HybridError::HiddenStateRank { got: 4 } => {}
        other => panic!("unexpected {other:?}"),
    }
}

#[test]
fn rejects_wrong_sequence_length() {
    let t = Tensor::from_vec(ns(&[0.0; (SEQ + 1) * DIM]), &[SEQ + 1, DIM]);
    match validate_hidden_state(&t, SEQ, DIM).unwrap_err() {
        HybridError::HiddenStateSeqLen { expected: SEQ, got } if got == SEQ + 1 => {}
        other => panic!("unexpected {other:?}"),
    }
}

#[test]
fn rejects_wrong_hidden_dim_rank2() {
    let t = Tensor::from_vec(ns(&[0.0; SEQ * (DIM + 1)]), &[SEQ, DIM + 1]);
    match validate_hidden_state(&t, SEQ, DIM).unwrap_err() {
        HybridError::HiddenStateDim { expected: DIM, got } if got == DIM + 1 => {}
        other => panic!("unexpected {other:?}"),
    }
}

#[test]
fn rejects_wrong_hidden_dim_rank1() {
    let t = Tensor::from_vec(ns(&[0.0; DIM + 2]), &[DIM + 2]);
    match validate_hidden_state(&t, SEQ, DIM).unwrap_err() {
        HybridError::HiddenStateDim { expected: DIM, got } if got == DIM + 2 => {}
        other => panic!("unexpected {other:?}"),
    }
}

#[test]
fn rejects_empty_backing_data() {
    let t = loose_tensor(vec![], vec![SEQ, DIM]);
    match validate_hidden_state(&t, SEQ, DIM).unwrap_err() {
        HybridError::HiddenStateDataLen { expected, got: 0 } if expected == SEQ * DIM => {}
        other => panic!("unexpected {other:?}"),
    }
}

#[test]
fn rejects_inconsistent_storage() {
    let t = loose_tensor(vec![0.0; 5], vec![SEQ, DIM]);
    match validate_hidden_state(&t, SEQ, DIM).unwrap_err() {
        HybridError::HiddenStateDataLen { expected, got: 5 } if expected == SEQ * DIM => {}
        other => panic!("unexpected {other:?}"),
    }
}

#[test]
fn rejects_nan_in_hidden() {
    let mut t = rank2_finite();
    t.data_mut()[2] = num(f32::NAN);
    match validate_hidden_state(&t, SEQ, DIM).unwrap_err() {
        HybridError::NonFinite {
            stage: ForwardValueStage::HiddenState,
            index: 2,
        } => {}
        other => panic!("unexpected {other:?}"),
    }
}

#[test]
fn rejects_pos_inf_in_hidden() {
    let mut t = rank2_finite();
    t.data_mut()[0] = num(f32::INFINITY);
    match validate_hidden_state(&t, SEQ, DIM).unwrap_err() {
        HybridError::NonFinite {
            stage: ForwardValueStage::HiddenState,
            index: 0,
        } => {}
        other => panic!("unexpected {other:?}"),
    }
}

#[test]
fn rejects_neg_inf_in_hidden() {
    let mut t = rank2_finite();
    t.data_mut()[5] = num(f32::NEG_INFINITY);
    match validate_hidden_state(&t, SEQ, DIM).unwrap_err() {
        HybridError::NonFinite {
            stage: ForwardValueStage::HiddenState,
            index: 5,
        } => {}
        other => panic!("unexpected {other:?}"),
    }
}

#[test]
fn rejects_zero_snn_width() {
    match validate_snn_width(0).unwrap_err() {
        HybridError::ZeroSnnChannels => {}
        other => panic!("unexpected {other:?}"),
    }
    validate_snn_width(1).unwrap();
}

#[test]
fn validate_finite_names_stage() {
    match validate_finite(&ns(&[1.0, f32::NAN]), ForwardValueStage::Embedding).unwrap_err() {
        HybridError::NonFinite {
            stage: ForwardValueStage::Embedding,
            index: 1,
        } => {}
        other => panic!("unexpected {other:?}"),
    }
    match validate_finite(&ns(&[f32::INFINITY]), ForwardValueStage::Stimuli).unwrap_err() {
        HybridError::NonFinite {
            stage: ForwardValueStage::Stimuli,
            index: 0,
        } => {}
        other => panic!("unexpected {other:?}"),
    }
}

#[test]
fn rejects_zero_width_in_both_ranks() {
    match validate_hidden_state(&loose_tensor(vec![], vec![0]), SEQ, 0).unwrap_err() {
        HybridError::HiddenStateDim { expected: 1, got: 0 } => {}
        other => panic!("unexpected {other:?}"),
    }
    match validate_hidden_state(&loose_tensor(vec![], vec![SEQ, 0]), SEQ, 0).unwrap_err() {
        HybridError::HiddenStateDim { expected: 1, got: 0 } => {}
        other => panic!("unexpected {other:?}"),
    }
    match validate_hidden_state(&loose_tensor(vec![], vec![5]), SEQ, 0).unwrap_err() {
        HybridError::HiddenStateDim { expected: 0, got: 5 } => {}
        other => panic!("unexpected {other:?}"),
    }
}

#[test]
fn a_layout_too_large_to_count_is_a_length_error() {
    let huge = usize::MAX / 2;
    let t = loose_tensor(vec![0.0; 3], vec![4, huge]);
    match validate_hidden_state(&t, 4, huge).unwrap_err() {
        HybridError::HiddenStateDataLen { expected: usize::MAX, got: 3 } => {}
        other => panic!("unexpected {other:?}"),
    }
}

#[test]
fn test_tensor_accepts_rank0_scalar() {
    let t = Tensor::from_vec(ns(&[3.5]), &[]);
    assert_eq!(t.ndim(), 0);
    assert_eq!(t.numel(), 1);
    assert_eq!(t.data(), &ns(&[3.5])[..]);

    let z = Tensor::zeros(&[]);
    assert_eq!(z.ndim(), 0);
    assert_eq!(z.numel(), 1);
    assert_eq!(z.data(), &ns(&[0.0])[..]);
}

#[test]
fn zeros_fill_their_shape() {
    let z = Tensor::zeros(&[2, 3]);
    assert_eq!(z.shape(), &[2, 3]);
    assert_eq!(z.numel(), 6);
    assert!(z.data().iter().all(|x| x.bits == 0));
}
