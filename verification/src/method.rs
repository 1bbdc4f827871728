//! HTTP methods, modelled as a closed enumeration.
//!
//! The routing core only ever compares methods for equality and uses them as
//! keys of per-node method maps, so the nine standard request methods are
//! represented directly as plain enum variants.  The embedding program
//! converts between this type and whatever method representation its HTTP
//! layer uses.

use vstd::prelude::*;

verus! {

/// One of the standard HTTP request methods.
#[derive(Clone, Copy, Debug, PartialEq, Eq, Structural)]
pub enum Method {
    Get,
    Head,
    Post,
    Put,
    Delete,
    Connect,
    Options,
    Trace,
    Patch,
}

} // verus!
