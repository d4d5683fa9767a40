use vstd::prelude::*;

verus! {

use crate::method::Method;

/// An error raised while building a route tree or resolving a route name.
///
/// Construction errors are structural and deterministic: binding the same
/// verb twice at one node, setting a second catch-all endpoint, a parameter
/// marker with an empty name, or registering a route name twice.  Reverse
/// routing reports a lookup of an unregistered name and a template
/// parameter that the given values do not cover.
#[derive(Debug, PartialEq, Eq)]
pub enum RouteError {
    /// The verb is already bound to an endpoint at this node.
    DuplicateMethod(Method),
    /// The node already has a catch-all endpoint.
    DuplicateCatchAll,
    /// A path component is a parameter marker with an empty name.
    EmptyParameter,
    /// The route name is already registered, under the repeated name.
    DuplicateName(String),
    /// Reverse lookup of a name that was never registered.
    UnknownRoute(String),
    /// A template parameter is missing from the given values, under its name.
    MissingParameter(String),
}

impl RouteError {
    /// The error reports `n` as a duplicate route name.
    pub open spec fn is_duplicate_name(self, n: Seq<char>) -> bool {
        self matches RouteError::DuplicateName(m) && m@ == n
    }

    /// The error reports `n` as an unregistered route name.
    pub open spec fn is_unknown_route(self, n: Seq<char>) -> bool {
        self matches RouteError::UnknownRoute(m) && m@ == n
    }

    /// The error reports `n` as a missing template parameter.
    pub open spec fn is_missing_parameter(self, n: Seq<char>) -> bool {
        self matches RouteError::MissingParameter(m) && m@ == n
    }
}

} // verus!
