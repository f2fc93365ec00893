//! A router with uniform weights that selects the first experts.

use crate::arithmetic;
use crate::arithmetic::Arithmetic;
use crate::error;
use crate::error::HybridError;
use crate::reverse;
use crate::routing;
use crate::scalar::Scalar;
use crate::traits::{ExpertRouteOutput, ExpertRouter};
use std::marker::PhantomData;
use vstd::prelude::*;

verus! {

/// A router that gives every expert the same weight.
#[derive(Debug)]
pub struct StubExpertRouter<M: Arithmetic> {
    num_experts: usize,
    top_k: usize,
    arithmetic: PhantomData<M>,
}

impl<M: Arithmetic> StubExpertRouter<M> {
    /// Number of experts.
    pub closed spec fn experts(&self) -> usize {
        self.num_experts
    }

    /// Number of experts selected.
    pub closed spec fn selection_size(&self) -> usize {
        self.top_k
    }

    /// At least one expert is selected, and no more than there are.
    pub open spec fn well_formed(&self) -> bool {
        1 <= self.selection_size() <= self.experts()
    }

    /// What is wrong with the sizes of a router.
    pub open spec fn size_error(num_experts: usize, top_k: usize) -> Option<error::ErrorView> {
        if num_experts == 0 {
            Some(error::ErrorView::InvalidConfig("StubExpertRouter: num_experts must be >= 1"@))
        } else if top_k == 0 {
            Some(error::ErrorView::InvalidConfig("StubExpertRouter: top_k must be >= 1"@))
        } else {
            None
        }
    }

    /// A router for `num_experts`, of which it selects `top_k`, or all.
    pub fn new(num_experts: usize, top_k: usize) -> (r: Result<Self, HybridError>)
        ensures
            match r {
                Ok(router) => {
                    &&& Self::size_error(num_experts, top_k) is None
                    &&& router.well_formed()
                    &&& router.experts() == num_experts
                    &&& router.selection_size() == routing::smaller(top_k, num_experts)
                },
                Err(e) => Self::size_error(num_experts, top_k) == Some(e@),
            },
    {
        if num_experts == 0 {
            return Err(
                HybridError::InvalidConfig(
                    String::from_str("StubExpertRouter: num_experts must be >= 1"),
                ),
            );
        }
        if top_k == 0 {
            return Err(
                HybridError::InvalidConfig(
                    String::from_str("StubExpertRouter: top_k must be >= 1"),
                ),
            );
        }
        let top_k: usize = if top_k < num_experts {
            top_k
        } else {
            num_experts
        };
        Ok(StubExpertRouter { num_experts, top_k, arithmetic: PhantomData })
    }
}

impl<M: Arithmetic> Clone for StubExpertRouter<M> {
    fn clone(&self) -> (r: Self)
        ensures
            r.experts() == self.experts(),
            r.selection_size() == self.selection_size(),
    {
        StubExpertRouter { num_experts: self.num_experts, top_k: self.top_k, arithmetic: PhantomData }
    }
}

impl<M: Arithmetic> ExpertRouter for StubExpertRouter<M> {
    fn num_experts(&self) -> (r: usize)
        ensures
            r == self.experts(),
    {
        self.num_experts
    }

    fn top_k(&self) -> (r: usize)
        ensures
            r == self.selection_size(),
    {
        self.top_k
    }

    /// Uniform weights, the first experts, and the logarithm of the number of
    /// experts as entropy.
    fn route(&mut self, embedding: &[Scalar]) -> (r: Result<
        ExpertRouteOutput,
        HybridError,
    >)
        ensures
            *final(self) == *old(self),
            match r {
                Ok(route) => {
                    &&& embedding@.len() > 0
                    &&& routing::uniform::<M>(old(self).experts() as nat, route.expert_weights@)
                    &&& route.selected_experts@ == Seq::new(
                        old(self).selection_size() as nat,
                        |i: int| i as usize,
                    )
                    &&& route.routing_entropy matches Some(h) && routing::highest_entropy::<M>(
                        old(self).experts(),
                        h,
                    )
                },
                Err(e) => {
                    &&& embedding@.len() == 0
                    &&& e@ == (error::ErrorView::InputLengthMismatch { expected: 1, got: 0 })
                },
            },
    {
        if embedding.len() == 0 {
            return Err(HybridError::InputLengthMismatch { expected: 1, got: 0 });
        }
        let expert_weights = routing::uniform_weights::<M>(self.num_experts);
        let mut selected_experts: Vec<usize> = Vec::new();
        let mut i: usize = 0;
        let k: usize = self.top_k;
        while i < k
            invariant
                i <= k,
                selected_experts@ =~= Seq::new(i as nat, |j: int| j as usize),
            decreases k - i,
        {
            selected_experts.push(i);
            i = i + 1;
        }
        let c = M::count(self.num_experts);
        let entropy = M::ln(c);
        assert(arithmetic::counts::<M>(self.num_experts, c));
        Ok(ExpertRouteOutput { expert_weights, selected_experts, routing_entropy: Some(entropy) })
    }
}

/// What the router returns passes the host's checks of weights and selection: on
/// a host that keeps numbers that are not negative so, there is one finite
/// weight that is not negative per expert, and the selection is in order.
pub proof fn law_stub_route_passes<M: Arithmetic>(
    router: &StubExpertRouter<M>,
    weights: Seq<Scalar>,
    selected: Seq<usize>,
)
    requires
        arithmetic::keeps_nonnegative::<M>(),
        router.well_formed(),
        routing::uniform::<M>(router.experts() as nat, weights),
        selected == Seq::new(router.selection_size() as nat, |i: int| i as usize),
    ensures
        weights.len() == router.experts(),
        reverse::all_weights(weights),
        reverse::weights_error(router.experts(), router.selection_size(), weights) is None,
        reverse::selection_error(selected, router.experts(), router.selection_size()) is None,
{
    routing::law_uniform_weights::<M>(router.experts() as nat, weights);
    reverse::law_selection_passes(selected, router.experts(), router.selection_size());
}

/// A router is built exactly where there is an expert and one is to be selected.
pub proof fn law_stub_sizes<M: Arithmetic>(num_experts: usize, top_k: usize)
    ensures
        StubExpertRouter::<M>::size_error(num_experts, top_k) is None <==> 0 < num_experts && 0
            < top_k,
        num_experts == 0 ==> StubExpertRouter::<M>::size_error(num_experts, top_k) == Some(
            error::ErrorView::InvalidConfig("StubExpertRouter: num_experts must be >= 1"@),
        ),
        0 < num_experts && top_k == 0 ==> StubExpertRouter::<M>::size_error(num_experts, top_k)
            == Some(error::ErrorView::InvalidConfig("StubExpertRouter: top_k must be >= 1"@)),
{
}

} // verus!
