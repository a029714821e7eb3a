//! The route table and its errors, also reachable at the top of the crate.
pub use crate::structure::route::{AngularRoutes, RouteError};
