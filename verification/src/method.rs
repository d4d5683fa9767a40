use vstd::prelude::*;

verus! {

/// An HTTP verb that an endpoint can be bound to at a route node.
#[derive(Clone, Copy, Debug, PartialEq, Eq, Structural)]
pub enum Method {
    Get,
    Post,
    Put,
    Delete,
    Head,
    Options,
    Connect,
    Patch,
    Trace,
}

} // verus!
