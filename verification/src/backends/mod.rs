//! Reference routers, for tests and as examples of the router contract.

pub mod stub_router;
pub mod synthetic_router;
