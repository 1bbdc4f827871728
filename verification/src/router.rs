//! The routing policy around the trie: trailing-slash handling, OPTIONS
//! synthesis and method dispatch, mapping one request to a
//! [`RouterResult`].

use vstd::prelude::*;

use crate::method::Method;
use crate::model::{empty_node, spec_add_conflict, spec_add_route, spec_route_to, NodeModel};
use crate::params::RouteParameters;
use crate::segments::{spec_trim, spec_trim_start, trim_slashes, trim_start_slashes};
use crate::tree::{RouteError, RouteTree};

verus! {

/// The mathematical content of a [`Router`].
#[verifier::ext_equal]
pub ghost struct RouterModel {
    pub tree: NodeModel,
    pub redirect_trailing: bool,
    pub handle_options: bool,
}

/// The outcome of routing one request.
pub enum RouterResult {
    /// A route matched and the method is registered: its handler identifier
    /// and the extracted parameters.
    Found(u64, RouteParameters),
    /// No route matched the path.
    PathNotFound,
    /// A route matched but the method has no handler.
    MethodNotFound,
    /// An OPTIONS request was answered with the allowed methods.
    Options(Vec<Method>),
}

/// A route tree together with the boundary policy applied per request.
pub struct Router {
    tree: RouteTree,
    redirect_trailing: bool,
    handle_options: bool,
}

impl View for Router {
    type V = RouterModel;

    closed spec fn view(&self) -> RouterModel {
        RouterModel {
            tree: self.tree@,
            redirect_trailing: self.redirect_trailing,
            handle_options: self.handle_options,
        }
    }
}

impl Router {
    /// The underlying tree's invariant.
    pub closed spec fn well_formed(&self) -> bool {
        self.tree.well_formed()
    }

    /// A router over an empty tree: trailing slashes kept, OPTIONS handled.
    pub fn new() -> (r: Router)
        ensures
            r.well_formed(),
            r@.tree == empty_node(),
            r@.redirect_trailing == false,
            r@.handle_options == true,
    {
        Router { tree: RouteTree::new(), redirect_trailing: false, handle_options: true }
    }

    /// Choose whether a trailing `/` is trimmed before lookup.
    pub fn redirect_trailing_slash(self, opt: bool) -> (r: Router)
        ensures
            r.well_formed() == self.well_formed(),
            r@ == (RouterModel { redirect_trailing: opt, ..self@ }),
    {
        Router { redirect_trailing: opt, ..self }
    }

    /// Choose whether OPTIONS requests are answered with the allowed
    /// methods.
    pub fn handle_options(self, opt: bool) -> (r: Router)
        ensures
            r.well_formed() == self.well_formed(),
            r@ == (RouterModel { handle_options: opt, ..self@ }),
    {
        Router { handle_options: opt, ..self }
    }

    /// Register `handler` for each method of `methods` under the pattern
    /// `path`.
    pub fn add(&mut self, methods: &Vec<Method>, path: &str, handler: u64) -> (r: Result<
        (),
        RouteError,
    >)
        requires
            old(self).well_formed(),
        ensures
            final(self).well_formed(),
            final(self)@.redirect_trailing == old(self)@.redirect_trailing,
            final(self)@.handle_options == old(self)@.handle_options,
            match r {
                Ok(_) => !spec_add_conflict(old(self)@.tree, path@) && final(self)@.tree
                    == spec_add_route(old(self)@.tree, path@, methods@, handler),
                Err(e) => spec_add_conflict(old(self)@.tree, path@) && final(self)@.tree == old(
                    self,
                )@.tree && e == RouteError::AmbiguousParameterName,
            },
    {
        self.tree.add_route(methods, path, handler)
    }

    /// Route one request.  The path is trimmed according to the
    /// trailing-slash policy and looked up; an OPTIONS request is answered
    /// with the matched node's methods (plus OPTIONS itself) when that
    /// policy is on; otherwise the method map decides between a handler and
    /// `MethodNotFound`.
    pub fn route(&self, path: &str, method: Method) -> (r: RouterResult)
        requires
            self.well_formed(),
        ensures
            ({
                let t = if self@.redirect_trailing {
                    spec_trim(path@)
                } else {
                    spec_trim_start(path@)
                };
                match spec_route_to(self@.tree, t) {
                    None => r is PathNotFound,
                    Some(res) => {
                        if self@.handle_options && method == Method::Options {
                            &&& r is Options
                            &&& (r matches RouterResult::Options(ms) ==> {
                                &&& ms@.len() == res.0.dom().len() + 1
                                &&& ms@.last() == Method::Options
                                &&& ms@.drop_last().no_duplicates()
                                &&& (forall|q: Method|
                                    ms@.drop_last().contains(q) <==> res.0.contains_key(q))
                            })
                        } else if res.0.contains_key(method) {
                            r matches RouterResult::Found(h, p) && h == res.0[method] && p@
                                == res.1 && p.well_formed()
                        } else {
                            r is MethodNotFound
                        }
                    },
                }
            }),
    {
        let trimmed = if self.redirect_trailing {
            trim_slashes(path)
        } else {
            trim_start_slashes(path)
        };
        match self.tree.route_to(trimmed) {
            None => RouterResult::PathNotFound,
            Some((mmap, params)) => {
                if self.handle_options && method == Method::Options {
                    let mut ms = mmap.methods();
                    let ghost listed = ms@;
                    ms.push(Method::Options);
                    proof {
                        assert(ms@.drop_last() =~= listed);
                    }
                    RouterResult::Options(ms)
                } else {
                    match mmap.get(method) {
                        Some(h) => RouterResult::Found(h, params),
                        None => RouterResult::MethodNotFound,
                    }
                }
            },
        }
    }
}

} // verus!
