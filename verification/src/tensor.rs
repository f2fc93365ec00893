//! A lightweight owned tensor: numbers and the extents of their axes.

use crate::scalar;
use crate::scalar::Scalar;
use vstd::prelude::*;

verus! {

/// An owned tensor.
///
/// [`Tensor::from_vec`] and [`Tensor::zeros`] build one whose data fills its
/// shape; [`Tensor::from_parts`] takes data and shape as they come, from a
/// source that promises nothing of the two.
#[derive(Debug, Clone)]
pub struct Tensor {
    data: Vec<Scalar>,
    shape: Vec<usize>,
}

/// The number of elements that a shape holds.
pub open spec fn volume(shape: Seq<usize>) -> nat
    decreases shape.len(),
{
    if shape.len() == 0 {
        1
    } else {
        volume(shape.drop_last()) * shape.last() as nat
    }
}

/// Every axis has an extent above zero.
pub open spec fn positive_extents(shape: Seq<usize>) -> bool {
    forall|i: int| 0 <= i < shape.len() ==> #[trigger] shape[i] > 0
}

/// A leading part of a shape holds no more than the whole.
proof fn lemma_volume_prefix(shape: Seq<usize>, n: int)
    requires
        positive_extents(shape),
        0 <= n <= shape.len(),
    ensures
        1 <= volume(shape.take(n)) <= volume(shape),
    decreases shape.len(),
{
    if n == shape.len() {
        assert(shape.take(n) =~= shape);
        if n > 0 {
            lemma_volume_prefix(shape.drop_last(), n - 1);
            assert(shape.drop_last().take(n - 1) =~= shape.drop_last());
            let below = volume(shape.drop_last());
            let last = shape.last() as nat;
            assert(last > 0);
            assert(1 <= below * last) by (nonlinear_arith)
                requires
                    below >= 1,
                    last >= 1,
            ;
        }
    } else {
        lemma_volume_prefix(shape.drop_last(), n);
        assert(shape.drop_last().take(n) =~= shape.take(n));
        let below = volume(shape.drop_last());
        let last = shape.last() as nat;
        assert(last > 0);
        assert(below <= below * last) by (nonlinear_arith)
            requires
                below >= 1,
                last >= 1,
        ;
    }
}

impl Tensor {
    /// The numbers, in row-major order.
    pub closed spec fn values(&self) -> Seq<Scalar> {
        self.data@
    }

    /// The extent of each axis.
    pub closed spec fn extents(&self) -> Seq<usize> {
        self.shape@
    }

    /// The data fills the shape, and no axis is empty.
    pub open spec fn well_formed(&self) -> bool {
        positive_extents(self.extents()) && volume(self.extents()) == self.values().len()
    }

    /// A tensor of `data` in the given shape.
    pub fn from_vec(data: Vec<Scalar>, shape: &[usize]) -> (r: Tensor)
        requires
            positive_extents(shape@),
            volume(shape@) == data@.len(),
        ensures
            r.values() == data@,
            r.extents() == shape@,
            r.well_formed(),
    {
        Tensor { data, shape: vstd::slice::slice_to_vec(shape) }
    }

    /// A tensor of zeros in the given shape.
    pub fn zeros(shape: &[usize]) -> (r: Tensor)
        requires
            positive_extents(shape@),
            volume(shape@) <= usize::MAX,
        ensures
            r.values() == Seq::new(volume(shape@), |i: int| scalar::scalar(0)),
            r.extents() == shape@,
            r.well_formed(),
    {
        let mut n: usize = 1;
        let mut i: usize = 0;
        while i < shape.len()
            invariant
                i <= shape@.len(),
                positive_extents(shape@),
                volume(shape@) <= usize::MAX,
                n == volume(shape@.take(i as int)),
            decreases shape@.len() - i,
        {
            proof {
                lemma_volume_prefix(shape@, i + 1);
                assert(shape@.take(i + 1).drop_last() =~= shape@.take(i as int));
            }
            n = n * shape[i];
            i = i + 1;
        }
        assert(shape@.take(shape@.len() as int) =~= shape@);
        let data = vec![Scalar { bits: 0 }; n];
        assert(data@ =~= Seq::new(volume(shape@), |i: int| scalar::scalar(0)));
        Tensor::from_vec(data, shape)
    }

    /// A tensor of `data` and `shape` as they come.
    pub fn from_parts(data: Vec<Scalar>, shape: Vec<usize>) -> (r: Tensor)
        ensures
            r.values() == data@,
            r.extents() == shape@,
    {
        Tensor { data, shape }
    }

    /// The number of axes.
    pub fn ndim(&self) -> (r: usize)
        ensures
            r == self.extents().len(),
    {
        self.shape.len()
    }

    /// The number of elements.
    pub fn numel(&self) -> (r: usize)
        ensures
            r == self.values().len(),
    {
        self.data.len()
    }

    /// The extent of each axis.
    pub fn shape(&self) -> (r: &[usize])
        ensures
            r@ == self.extents(),
    {
        self.shape.as_slice()
    }

    /// The numbers, in row-major order.
    pub fn data(&self) -> (r: &[Scalar])
        ensures
            r@ == self.values(),
    {
        self.data.as_slice()
    }

    /// The numbers, for writing.
    pub fn data_mut(&mut self) -> (r: &mut [Scalar])
        ensures
            r@ == old(self).values(),
            final(self).values() == final(r)@,
            final(self).extents() == old(self).extents(),
    {
        self.data.as_mut_slice()
    }
}

/// The volume of a shape is the product of its extents: one without any, and
/// with one more axis that many times as large.
pub proof fn law_volume(shape: Seq<usize>, extent: usize)
    ensures
        volume(Seq::empty()) == 1,
        volume(shape.push(extent)) == volume(shape) * extent,
        volume(shape) == shape.fold_left(1nat, |product: nat, n: usize| product * (n as nat)),
    decreases shape.len(),
{
    assert(shape.push(extent).drop_last() =~= shape);
    if shape.len() > 0 {
        law_volume(shape.drop_last(), extent);
    }
}

} // verus!
