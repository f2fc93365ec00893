//! Preflight checks of the ANN→SNN forward path.
//!
//! They look at the layout and the finiteness of the hidden state and at the
//! width of the spiking network, and neither step it nor count a step.

use crate::error;
use crate::error::{ForwardValueStage, HybridError};
use crate::scalar::Scalar;
use crate::tensor::Tensor;
use vstd::prelude::*;

verus! {

/// A check that fails with `expected`, or passes where that is `None`.
pub open spec fn checks(r: Result<(), HybridError>, expected: Option<error::ErrorView>) -> bool {
    match r {
        Ok(_) => expected is None,
        Err(e) => expected == Some(e@),
    }
}

/// No number is infinite or NaN.
pub open spec fn all_finite(values: Seq<Scalar>) -> bool {
    forall|i: int| 0 <= i < values.len() ==> (#[trigger] values[i]).finite()
}

/// The first number that is infinite or NaN stands at `i`.
pub open spec fn non_finite_at(values: Seq<Scalar>, i: int) -> bool {
    &&& 0 <= i < values.len()
    &&& !values[i].finite()
    &&& forall|k: int| 0 <= k < i ==> (#[trigger] values[k]).finite()
}

/// What is wrong with the numbers of a stage.
pub open spec fn finite_error(values: Seq<Scalar>, stage: ForwardValueStage) -> Option<
    error::ErrorView,
> {
    if all_finite(values) {
        None
    } else {
        Some(
            error::ErrorView::NonFinite {
                stage,
                index: (choose|i: int| non_finite_at(values, i)) as usize,
            },
        )
    }
}

/// What is wrong with a hidden state whose data should have `expected` numbers.
pub open spec fn storage_error(values: Seq<Scalar>, expected: nat) -> Option<error::ErrorView> {
    if values.len() != expected {
        Some(
            error::ErrorView::HiddenStateDataLen {
                expected: if expected <= usize::MAX {
                    expected as usize
                } else {
                    usize::MAX
                },
                got: values.len() as usize,
            },
        )
    } else {
        finite_error(values, ForwardValueStage::HiddenState)
    }
}

/// What is wrong with a hidden state of the given width; a width of zero is
/// wrong in any case.
pub open spec fn width_error(dim: usize, got: usize) -> Option<error::ErrorView> {
    if got != dim {
        Some(error::ErrorView::HiddenStateDim { expected: dim, got })
    } else if dim == 0 {
        Some(error::ErrorView::HiddenStateDim { expected: 1, got: 0 })
    } else {
        None
    }
}

/// What is wrong with a hidden state for `seq_len` tokens of a transformer of
/// width `dim`.
pub open spec fn hidden_state_error(
    values: Seq<Scalar>,
    extents: Seq<usize>,
    seq_len: usize,
    dim: usize,
) -> Option<error::ErrorView> {
    if extents.len() == 1 {
        if width_error(dim, extents[0]) is Some {
            width_error(dim, extents[0])
        } else {
            storage_error(values, dim as nat)
        }
    } else if extents.len() == 2 {
        if extents[0] != seq_len {
            Some(error::ErrorView::HiddenStateSeqLen { expected: seq_len, got: extents[0] })
        } else if width_error(dim, extents[1]) is Some {
            width_error(dim, extents[1])
        } else {
            storage_error(values, (seq_len * dim) as nat)
        }
    } else {
        Some(error::ErrorView::HiddenStateRank { got: extents.len() as usize })
    }
}

/// Numbers that are not all finite have a first that is not.
pub proof fn lemma_non_finite_at(values: Seq<Scalar>, i: int)
    requires
        non_finite_at(values, i),
    ensures
        !all_finite(values),
        (choose|k: int| non_finite_at(values, k)) == i,
{
    let c = choose|k: int| non_finite_at(values, k);
    assert(non_finite_at(values, c));
    if c < i {
        assert(values[c].finite());
    } else if i < c {
        assert(values[i].finite());
    }
}

/// Rejects a spiking network without input channels.
pub fn validate_snn_width(snn_width: usize) -> (r: Result<(), HybridError>)
    ensures
        checks(
            r,
            if snn_width == 0 {
                Some(error::ErrorView::ZeroSnnChannels)
            } else {
                None
            },
        ),
{
    if snn_width == 0 {
        return Err(HybridError::ZeroSnnChannels);
    }
    Ok(())
}

/// Validates rank, axes, storage length and finiteness of a hidden state.
pub fn validate_hidden_state(hidden: &Tensor, seq_len: usize, dim: usize) -> (r: Result<
    (),
    HybridError,
>)
    ensures
        checks(r, hidden_state_error(hidden.values(), hidden.extents(), seq_len, dim)),
{
    let rank: usize = hidden.ndim();
    if rank == 1 {
        validate_rank1(hidden, dim)
    } else if rank == 2 {
        validate_rank2(hidden, seq_len, dim)
    } else {
        Err(HybridError::HiddenStateRank { got: rank })
    }
}

/// Rejects the first NaN or infinity in `values`.
pub fn validate_finite(values: &[Scalar], stage: ForwardValueStage) -> (r: Result<(), HybridError>)
    ensures
        checks(r, finite_error(values@, stage)),
{
    let mut index: usize = 0;
    while index < values.len()
        invariant
            index <= values@.len(),
            forall|k: int| 0 <= k < index ==> (#[trigger] values@[k]).finite(),
        decreases values@.len() - index,
    {
        if !values[index].is_finite() {
            proof {
                lemma_non_finite_at(values@, index as int);
            }
            return Err(HybridError::NonFinite { stage, index });
        }
        index = index + 1;
    }
    Ok(())
}

/// Validates a width.
fn validate_width(dim: usize, got: usize) -> (r: Result<(), HybridError>)
    ensures
        checks(r, width_error(dim, got)),
{
    if got != dim {
        return Err(HybridError::HiddenStateDim { expected: dim, got });
    }
    if dim == 0 {
        return Err(HybridError::HiddenStateDim { expected: 1, got: 0 });
    }
    Ok(())
}

/// Validates a pooled hidden state, `[dim]`.
pub fn validate_rank1(hidden: &Tensor, dim: usize) -> (r: Result<(), HybridError>)
    requires
        hidden.extents().len() == 1,
    ensures
        checks(r, hidden_state_error(hidden.values(), hidden.extents(), 0, dim)),
{
    match validate_width(dim, hidden.shape()[0]) {
        Err(e) => Err(e),
        Ok(()) => validate_storage_and_finiteness(hidden, dim),
    }
}

/// Validates a per-token hidden state, `[seq, dim]`.
pub fn validate_rank2(hidden: &Tensor, seq_len: usize, dim: usize) -> (r: Result<(), HybridError>)
    requires
        hidden.extents().len() == 2,
    ensures
        checks(r, hidden_state_error(hidden.values(), hidden.extents(), seq_len, dim)),
{
    let shape = hidden.shape();
    let got_seq: usize = shape[0];
    let got_dim: usize = shape[1];
    if got_seq != seq_len {
        return Err(HybridError::HiddenStateSeqLen { expected: seq_len, got: got_seq });
    }
    match validate_width(dim, got_dim) {
        Err(e) => {
            return Err(e);
        },
        Ok(()) => {},
    }
    match seq_len.checked_mul(dim) {
        None => Err(
            HybridError::HiddenStateDataLen { expected: usize::MAX, got: hidden.data().len() },
        ),
        Some(expected) => validate_storage_and_finiteness(hidden, expected),
    }
}

/// Validates the length and the finiteness of the backing data.
pub fn validate_storage_and_finiteness(hidden: &Tensor, expected_len: usize) -> (r: Result<
    (),
    HybridError,
>)
    ensures
        checks(r, storage_error(hidden.values(), expected_len as nat)),
{
    let got: usize = hidden.data().len();
    if got != expected_len {
        return Err(HybridError::HiddenStateDataLen { expected: expected_len, got });
    }
    validate_finite(hidden.data(), ForwardValueStage::HiddenState)
}

/// An accepted hidden state has rank 1 or 2, the transformer's width, one row
/// per token where it has rows, as many numbers as its shape holds, and none
/// of them infinite or NaN.
pub proof fn law_accepted_hidden_state(
    values: Seq<Scalar>,
    extents: Seq<usize>,
    seq_len: usize,
    dim: usize,
)
    ensures
        hidden_state_error(values, extents, seq_len, dim) is None <==> {
            &&& dim > 0
            &&& all_finite(values)
            &&& {
                ||| extents == seq![dim] && values.len() == dim
                ||| extents == seq![seq_len, dim] && values.len() == seq_len * dim
            }
        },
{
    if extents.len() == 1 {
        if extents[0] == dim {
            assert(extents =~= seq![dim]);
        }
    } else if extents.len() == 2 {
        if extents[0] == seq_len && extents[1] == dim {
            assert(extents =~= seq![seq_len, dim]);
        }
    }
}

/// The first number that is infinite or NaN is reported with its stage and its
/// index.
pub proof fn law_first_non_finite(values: Seq<Scalar>, stage: ForwardValueStage, i: int)
    requires
        0 <= i < values.len(),
        !values[i].finite(),
        forall|k: int| 0 <= k < i ==> (#[trigger] values[k]).finite(),
    ensures
        finite_error(values, stage) == Some(
            error::ErrorView::NonFinite { stage, index: i as usize },
        ),
{
    lemma_non_finite_at(values, i);
}

/// Numbers without an infinity or NaN among them have nothing wrong.
pub proof fn law_finite_passes(values: Seq<Scalar>, stage: ForwardValueStage)
    requires
        forall|i: int| 0 <= i < values.len() ==> (#[trigger] values[i]).finite(),
    ensures
        finite_error(values, stage) is None,
{
}

/// The checks of a hidden state come in order: rank, rows, width, a width of
/// zero, length of the data, and finiteness; the first that fails is reported.
pub proof fn law_hidden_state_errors(
    values: Seq<Scalar>,
    extents: Seq<usize>,
    seq_len: usize,
    dim: usize,
)
    requires
        values.len() <= usize::MAX,
        extents.len() <= usize::MAX,
    ensures
        extents.len() != 1 && extents.len() != 2 ==> hidden_state_error(
            values,
            extents,
            seq_len,
            dim,
        ) == Some(error::ErrorView::HiddenStateRank { got: extents.len() as usize }),
        extents.len() == 2 && extents[0] != seq_len ==> hidden_state_error(
            values,
            extents,
            seq_len,
            dim,
        ) == Some(error::ErrorView::HiddenStateSeqLen { expected: seq_len, got: extents[0] }),
        (extents.len() == 1 || extents.len() == 2 && extents[0] == seq_len) && extents.last() != dim
            ==> hidden_state_error(values, extents, seq_len, dim) == Some(
            error::ErrorView::HiddenStateDim { expected: dim, got: extents.last() },
        ),
        (extents == seq![0usize] || extents == seq![seq_len, 0usize]) && dim == 0
            ==> hidden_state_error(values, extents, seq_len, dim) == Some(
            error::ErrorView::HiddenStateDim { expected: 1, got: 0 },
        ),
        extents == seq![dim] && dim > 0 && values.len() != dim ==> hidden_state_error(
            values,
            extents,
            seq_len,
            dim,
        ) == Some(
            error::ErrorView::HiddenStateDataLen { expected: dim, got: values.len() as usize },
        ),
        extents == seq![seq_len, dim] && dim > 0 && values.len() != seq_len * dim
            ==> hidden_state_error(values, extents, seq_len, dim) == Some(
            error::ErrorView::HiddenStateDataLen {
                expected: if seq_len * dim <= usize::MAX {
                    (seq_len * dim) as usize
                } else {
                    usize::MAX
                },
                got: values.len() as usize,
            },
        ),
        forall|i: int|
            #![trigger values[i]]
            0 <= i < values.len() && !values[i].finite() && (forall|k: int|
                0 <= k < i ==> (#[trigger] values[k]).finite()) && dim > 0 && ((extents == seq![dim]
                && values.len() == dim) || (extents == seq![seq_len, dim] && values.len() == seq_len
                * dim)) ==> hidden_state_error(values, extents, seq_len, dim) == Some(
                error::ErrorView::NonFinite {
                    stage: ForwardValueStage::HiddenState,
                    index: i as usize,
                },
            ),
{
    assert forall|i: int|
        #![trigger values[i]]
        0 <= i < values.len() && !values[i].finite() && (forall|k: int|
            0 <= k < i ==> (#[trigger] values[k]).finite()) implies finite_error(
        values,
        ForwardValueStage::HiddenState,
    ) == Some(
        error::ErrorView::NonFinite { stage: ForwardValueStage::HiddenState, index: i as usize },
    ) by {
        law_first_non_finite(values, ForwardValueStage::HiddenState, i);
    }
    assert(seq_len * dim >= 0) by (nonlinear_arith);
}

/// A check passes exactly where nothing is wrong, and fails with what is.
pub proof fn law_checks(r: Result<(), HybridError>, expected: Option<error::ErrorView>)
    requires
        checks(r, expected),
    ensures
        r is Ok <==> expected is None,
        r is Err ==> expected == Some(r->Err_0@),
{
}

} // verus!
