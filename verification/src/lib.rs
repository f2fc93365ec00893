//! A hybrid of a transformer and a spiking network, both supplied by the host.
//!
//! [`HybridNetwork`] pipes hidden states of a [`Transformer`] into a
//! [`SpikingNetwork`]: they are validated, pooled, resized to the network's
//! input width and squashed. [`ReverseHybridPath`] goes the other way: spike
//! activity is projected to an embedding, which an [`ExpertRouter`] routes to
//! experts, and the route is checked before it is used.
//!
//! Numbers are held as IEEE 754 bit patterns ([`Scalar`], [`Wide`]). Everything
//! that a pattern decides is verified here; rounded arithmetic is the host's
//! ([`Arithmetic`]), and contracts say which operation was applied to which
//! operands.

pub mod arithmetic;
pub mod backends;
pub mod error;
pub mod hybrid;
pub mod projector;
pub mod reverse;
pub mod routing;
pub mod scalar;
pub mod tensor;
pub mod text;
pub mod traits;
pub mod types;
pub mod validate;

pub use arithmetic::Arithmetic;
pub use backends::stub_router::StubExpertRouter;
pub use backends::synthetic_router::SyntheticExpertRouter;
pub use error::{ForwardValueStage, HybridError};
pub use hybrid::{ForwardFailure, HybridNetwork};
pub use projector::{project_spike_activity, spike_activity_features};
pub use reverse::{ReverseHybridPath, WEIGHT_SUM_TOLERANCE};
pub use routing::{
    route_synthetic, routing_entropy, softmax, synthetic_gate_scores, top_k_indices,
    MAX_REASONABLE_EXPERTS,
};
pub use scalar::{Scalar, Wide};
pub use tensor::Tensor;
pub use traits::{
    ExpertRouteOutput, ExpertRouter, GgufLayout, GgufLoader, HybridStagePlanner, NeuroModulators,
    OperationKind, PlannedOperation, SpikeActivity, SpikingNetwork, Transformer,
};
pub use types::{
    Dtype, HybridConfig, HybridOutput, PrecisionTier, ProjectionMode, TensorManifestEntry,
    TensorRole, TransformerConfig,
};
