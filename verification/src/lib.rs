//! A fluent route-tree builder with a verified core.
//!
//! A caller describes a hierarchy of path segments, per-segment middleware
//! and per-segment endpoint bindings through a fluent, closure-based API,
//! then flattens the tree into an ordered list of endpoint descriptors that
//! a host HTTP framework can install one by one.  A reverse router maps
//! symbolic route names back to path templates and substitutes parameter
//! values into them.  The crate only prepares registration data: it serves
//! no request and performs no I/O.

pub mod error;
pub mod method;
pub mod path;
pub mod reverse_router;
pub mod routesegment;
mod util;

pub use crate::error::RouteError;
pub use crate::method::Method;
pub use crate::path::{Component, SegmentPath};
pub use crate::reverse_router::ReverseRouter;
pub use crate::routesegment::{root, EndpointDescriptor, RouteSegment};
