//! A verified request-routing core.
//!
//! Routes are registered as `(methods, path pattern, handler)` triples and
//! compiled into a trie of path segments.  A lookup walks the trie one
//! segment at a time, preferring static children over parameter children and
//! numeric parameter types over string ones, and returns the matched method
//! map together with the extracted path parameters.
//!
//! Handlers are opaque to the routing core: it stores and returns plain
//! `u64` handler identifiers, and the embedding program maps those to its
//! own callable values.

pub mod laws;
pub mod method;
pub mod model;
pub mod numbers;
pub mod params;
pub mod ptype;
pub mod request_id;
pub mod router;
pub mod segments;
pub mod tree;

pub use method::Method;
pub use params::{Parameter, RouteParameters};
pub use ptype::ParameterType;
pub use request_id::{RequestIdConfiguration, RequestIdContext};
pub use router::{Router, RouterResult};
pub use tree::{MethodMap, RouteError, RouteTree};
