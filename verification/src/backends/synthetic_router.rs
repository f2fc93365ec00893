//! A router driven by [`crate::routing::route_synthetic`].

use crate::arithmetic;
use crate::arithmetic::Arithmetic;
use crate::error;
use crate::error::HybridError;
use crate::reverse;
use crate::routing;
use crate::routing::MAX_REASONABLE_EXPERTS;
use crate::scalar::Scalar;
use crate::text;
use crate::traits::{ExpertRouteOutput, ExpertRouter};
use std::marker::PhantomData;
use vstd::prelude::*;

verus! {

/// A router that scores experts by chunks of the embedding.
#[derive(Debug)]
pub struct SyntheticExpertRouter<M: Arithmetic> {
    num_experts: usize,
    top_k: usize,
    arithmetic: PhantomData<M>,
}

impl<M: Arithmetic> SyntheticExpertRouter<M> {
    /// Number of experts.
    pub closed spec fn experts(&self) -> usize {
        self.num_experts
    }

    /// Number of experts selected.
    pub closed spec fn selection_size(&self) -> usize {
        self.top_k
    }

    /// At least one expert is selected, and no more than there are.
    pub open spec fn well_formed(&self) -> bool {
        1 <= self.selection_size() <= self.experts()
    }

    /// What is wrong with the sizes of a router.
    pub open spec fn size_error(num_experts: usize, top_k: usize) -> Option<error::ErrorView> {
        if num_experts == 0 {
            Some(
                error::ErrorView::InvalidConfig("SyntheticExpertRouter: num_experts must be >= 1"@),
            )
        } else if num_experts > MAX_REASONABLE_EXPERTS {
            Some(
                error::ErrorView::InvalidConfig(
                    "SyntheticExpertRouter: num_experts ("@ + text::decimal(num_experts as nat)
                        + ") exceeds max "@ + text::decimal(MAX_REASONABLE_EXPERTS as nat),
                ),
            )
        } else if top_k == 0 {
            Some(error::ErrorView::InvalidConfig("SyntheticExpertRouter: top_k must be >= 1"@))
        } else {
            None
        }
    }

    /// A router for `num_experts`, of which it selects `top_k`, or all.
    pub fn new(num_experts: usize, top_k: usize) -> (r: Result<Self, HybridError>)
        ensures
            match r {
                Ok(router) => {
                    &&& Self::size_error(num_experts, top_k) is None
                    &&& router.well_formed()
                    &&& router.experts() == num_experts
                    &&& router.selection_size() == routing::smaller(top_k, num_experts)
                },
                Err(e) => Self::size_error(num_experts, top_k) == Some(e@),
            },
    {
        if num_experts == 0 {
            return Err(
                HybridError::InvalidConfig(
                    String::from_str("SyntheticExpertRouter: num_experts must be >= 1"),
                ),
            );
        }
        if num_experts > MAX_REASONABLE_EXPERTS {
            let mut message = text::with_number(
                "SyntheticExpertRouter: num_experts (",
                num_experts,
                ") exceeds max ",
            );
            text::push_decimal(&mut message, MAX_REASONABLE_EXPERTS);
            return Err(HybridError::InvalidConfig(message));
        }
        if top_k == 0 {
            return Err(
                HybridError::InvalidConfig(
                    String::from_str("SyntheticExpertRouter: top_k must be >= 1"),
                ),
            );
        }
        let top_k: usize = if top_k < num_experts {
            top_k
        } else {
            num_experts
        };
        Ok(SyntheticExpertRouter { num_experts, top_k, arithmetic: PhantomData })
    }
}

impl<M: Arithmetic> Clone for SyntheticExpertRouter<M> {
    fn clone(&self) -> (r: Self)
        ensures
            r.experts() == self.experts(),
            r.selection_size() == self.selection_size(),
    {
        SyntheticExpertRouter { num_experts: self.num_experts, top_k: self.top_k, arithmetic: PhantomData }
    }
}

impl<M: Arithmetic> ExpertRouter for SyntheticExpertRouter<M> {
    fn num_experts(&self) -> (r: usize)
        ensures
            r == self.experts(),
    {
        self.num_experts
    }

    fn top_k(&self) -> (r: usize)
        ensures
            r == self.selection_size(),
    {
        self.top_k
    }

    /// The synthetic route of the embedding.
    fn route(&mut self, embedding: &[Scalar]) -> (r: Result<
        ExpertRouteOutput,
        HybridError,
    >)
        ensures
            *final(self) == *old(self),
            match r {
                Ok(route) => {
                    &&& routing::synthetic_error(
                        embedding@.len(),
                        old(self).experts(),
                        old(self).selection_size(),
                    ) is None
                    &&& route.routing_entropy matches Some(h) && routing::synthetic_route::<M>(
                        embedding@,
                        old(self).experts(),
                        old(self).selection_size(),
                        route.expert_weights@,
                        route.selected_experts@,
                        h,
                    )
                },
                Err(e) => routing::synthetic_error(
                    embedding@.len(),
                    old(self).experts(),
                    old(self).selection_size(),
                ) == Some(e@),
            },
    {
        match routing::route_synthetic::<M>(embedding, self.num_experts, self.top_k) {
            Err(e) => Err(e),
            Ok(route) => Ok(
                ExpertRouteOutput {
                    expert_weights: route.0,
                    selected_experts: route.1,
                    routing_entropy: Some(route.2),
                },
            ),
        }
    }
}

/// What the router returns passes the host's checks of weights and selection: on
/// a deterministic host on which weights are in order, there is one finite
/// weight that is not negative per expert. That the selection passes needs
/// nothing of the host.
pub proof fn law_synthetic_route_passes<M: Arithmetic>(
    router: &SyntheticExpertRouter<M>,
    embedding: Seq<Scalar>,
    weights: Seq<Scalar>,
    selected: Seq<usize>,
    entropy: Scalar,
)
    requires
        router.well_formed(),
        routing::synthetic_error(embedding.len(), router.experts(), router.selection_size()) is None,
        routing::synthetic_route::<M>(
            embedding,
            router.experts(),
            router.selection_size(),
            weights,
            selected,
            entropy,
        ),
    ensures
        weights.len() == router.experts(),
        reverse::selection_error(selected, router.experts(), router.selection_size()) is None,
        arithmetic::deterministic::<M>() && arithmetic::keeps_nonnegative::<M>()
            && routing::weighing::<M>() && routing::narrowing::<M>() ==> reverse::all_weights(
            weights,
        ) && reverse::weights_error(router.experts(), router.selection_size(), weights) is None,
{
    routing::law_synthetic_route_is_well_formed::<M>(
        embedding,
        router.experts(),
        router.selection_size(),
        weights,
        selected,
        entropy,
    );
    reverse::law_selection_passes(selected, router.experts(), router.selection_size());
    if arithmetic::deterministic::<M>() && arithmetic::keeps_nonnegative::<M>()
        && routing::weighing::<M>() && routing::narrowing::<M>() {
        let scores = choose|scores: Seq<Scalar>| #[trigger]
            routing::gate_scores::<M>(router.experts(), embedding, scores)
                && routing::softmaxes::<M>(scores, weights);
        routing::law_softmax_weights::<M>(scores, weights);
    }
}

/// A router is built exactly where there is an expert, no more than a million of
/// them, and one is to be selected.
pub proof fn law_synthetic_sizes<M: Arithmetic>(num_experts: usize, top_k: usize)
    ensures
        SyntheticExpertRouter::<M>::size_error(num_experts, top_k) is None <==> 0 < num_experts
            <= 1_000_000 && 0 < top_k,
        num_experts == 0 ==> SyntheticExpertRouter::<M>::size_error(num_experts, top_k) == Some(
            error::ErrorView::InvalidConfig("SyntheticExpertRouter: num_experts must be >= 1"@),
        ),
        num_experts > 1_000_000 ==> SyntheticExpertRouter::<M>::size_error(num_experts, top_k)
            == Some(
            error::ErrorView::InvalidConfig(
                "SyntheticExpertRouter: num_experts ("@ + text::decimal(num_experts as nat)
                    + ") exceeds max "@ + text::decimal(1_000_000),
            ),
        ),
        0 < num_experts <= 1_000_000 && top_k == 0 ==> SyntheticExpertRouter::<M>::size_error(
            num_experts,
            top_k,
        ) == Some(error::ErrorView::InvalidConfig("SyntheticExpertRouter: top_k must be >= 1"@)),
{
}

} // verus!
