//! The executable route trie and its two operations, proved against the
//! model of [`crate::model`].
//!
//! Children are kept in small vectors, in registration order, and scanned
//! linearly: route sets are small, and a linear scan over a compact list is
//! cheap and proof-friendly.  The container invariant keeps static keys and
//! parameter types unique, so the scan order of static children cannot
//! change what a lookup-by-key returns (a fact
//! [`crate::laws::lemma_static_insert_commutes`] states in general), and
//! keeps a `String` parameter edge last, so numeric types are tried first.
//! A node's priority counter — how many registrations have passed through
//! the node — is maintained as registration bookkeeping; reordering sibling
//! scans by it would only be a cache heuristic, so it never influences
//! matching.

use vstd::prelude::*;

use crate::method::Method;
use crate::model::{
    bump, cap_values, empty_node, is_param_seg, named_add, node_conflict, node_insert, node_lookup,
    param_insert_pos, lemma_params_match_at, lemma_params_match_none, lemma_params_type_index_is,
    routes_add, spec_add_conflict, spec_add_route, spec_route_to, type_match, CaptureModel,
    EdgeModel, NodeModel,
};
use crate::numbers::{parse_i32, parse_u32};
use crate::params::{Parameter, ParamsModel, RouteParameters};
use crate::ptype::{spec_param_name, spec_param_type, ParameterType};
use crate::segments::{seg_views, split_slash, str_eq, trim_slashes};

verus! {

/// Per-node mapping from HTTP method to the registered handler identifier.
pub struct MethodMap {
    entries: Vec<(Method, u64)>,
}

/// The map an association list of methods denotes; later entries overwrite
/// earlier ones.
spec fn mm_map(entries: Seq<(Method, u64)>) -> Map<Method, u64>
    decreases entries.len(),
{
    if entries.len() == 0 {
        Map::empty()
    } else {
        mm_map(entries.drop_last()).insert(entries.last().0, entries.last().1)
    }
}

impl View for MethodMap {
    type V = Map<Method, u64>;

    closed spec fn view(&self) -> Map<Method, u64> {
        mm_map(self.entries@)
    }
}

/// A method in the association list is in the denoted map.
proof fn lemma_mm_contains(entries: Seq<(Method, u64)>, i: int)
    requires
        0 <= i < entries.len(),
    ensures
        mm_map(entries).contains_key(entries[i].0),
    decreases entries.len(),
{
    if i < entries.len() - 1 {
        lemma_mm_contains(entries.drop_last(), i);
    }
}

/// With distinct methods, the denoted map reads back each entry's handler.
proof fn lemma_mm_index(entries: Seq<(Method, u64)>, i: int)
    requires
        0 <= i < entries.len(),
        forall|a: int, b: int|
            0 <= a < b < entries.len() ==> (#[trigger] entries[a].0) != (#[trigger] entries[b].0),
    ensures
        mm_map(entries).contains_key(entries[i].0),
        mm_map(entries)[entries[i].0] == entries[i].1,
    decreases entries.len(),
{
    lemma_mm_contains(entries, i);
    if i < entries.len() - 1 {
        lemma_mm_index(entries.drop_last(), i);
    }
}

/// A method missing from the association list is not in the denoted map.
proof fn lemma_mm_absent(entries: Seq<(Method, u64)>, m: Method)
    requires
        forall|a: int| 0 <= a < entries.len() ==> (#[trigger] entries[a].0) != m,
    ensures
        !mm_map(entries).contains_key(m),
    decreases entries.len(),
{
    if entries.len() > 0 {
        lemma_mm_absent(entries.drop_last(), m);
    }
}

/// With distinct methods the denoted map has exactly one key per entry.
proof fn lemma_mm_dom_len(entries: Seq<(Method, u64)>)
    requires
        forall|a: int, b: int|
            0 <= a < b < entries.len() ==> (#[trigger] entries[a].0) != (#[trigger] entries[b].0),
    ensures
        mm_map(entries).dom().finite(),
        mm_map(entries).dom().len() == entries.len(),
    decreases entries.len(),
{
    if entries.len() > 0 {
        lemma_mm_dom_len(entries.drop_last());
        lemma_mm_absent(entries.drop_last(), entries.last().0);
    }
}

/// Replacing one entry of a distinct-method association list, keeping its
/// method, updates the denoted map at that method.
proof fn lemma_mm_update(entries: Seq<(Method, u64)>, updated: Seq<(Method, u64)>, i: int)
    requires
        0 <= i < entries.len(),
        updated.len() == entries.len(),
        updated[i].0 == entries[i].0,
        forall|k: int| 0 <= k < entries.len() && k != i ==> #[trigger] updated[k] == entries[k],
        forall|a: int, b: int|
            0 <= a < b < entries.len() ==> (#[trigger] entries[a].0) != (#[trigger] entries[b].0),
    ensures
        mm_map(updated) =~= mm_map(entries).insert(updated[i].0, updated[i].1),
    decreases entries.len(),
{
    let key = updated[i].0;
    let v = updated[i].1;
    if i == entries.len() - 1 {
        assert(updated.drop_last() =~= entries.drop_last());
    } else {
        lemma_mm_update(entries.drop_last(), updated.drop_last(), i);
        assert(updated.drop_last()[i] == updated[i]);
        assert(updated.last() == entries.last());
        assert(entries.last().0 != key);
        assert(mm_map(entries.drop_last()).insert(key, v).insert(
            entries.last().0,
            entries.last().1,
        ) =~= mm_map(entries.drop_last()).insert(entries.last().0, entries.last().1).insert(
            key,
            v,
        ));
    }
}

impl MethodMap {
    /// The stored methods are distinct.
    pub closed spec fn well_formed(&self) -> bool {
        forall|a: int, b: int|
            0 <= a < b < self.entries@.len() ==> (#[trigger] self.entries@[a].0) != (
            #[trigger] self.entries@[b].0)
    }

    /// An empty method map.
    pub fn new() -> (r: MethodMap)
        ensures
            r.well_formed(),
            r@ == Map::<Method, u64>::empty(),
    {
        MethodMap { entries: Vec::new() }
    }

    /// The handler registered for `method`, if any.
    pub fn get(&self, method: Method) -> (r: Option<u64>)
        requires
            self.well_formed(),
        ensures
            r == (if self@.contains_key(method) {
                Some(self@[method])
            } else {
                None::<u64>
            }),
    {
        let n = self.entries.len();
        let mut i: usize = 0;
        while i < n
            invariant
                i <= n,
                n == self.entries@.len(),
                self.well_formed(),
                forall|k: int| 0 <= k < i ==> (#[trigger] self.entries@[k].0) != method,
            decreases n - i,
        {
            if self.entries[i].0 == method {
                proof {
                    lemma_mm_index(self.entries@, i as int);
                }
                return Some(self.entries[i].1);
            }
            i += 1;
        }
        proof {
            lemma_mm_absent(self.entries@, method);
        }
        None
    }

    /// The registered methods, each exactly once.
    pub fn methods(&self) -> (r: Vec<Method>)
        requires
            self.well_formed(),
        ensures
            r@.no_duplicates(),
            forall|m: Method| r@.contains(m) <==> self@.contains_key(m),
            r@.len() == self@.dom().len(),
            self@.dom().finite(),
    {
        let n = self.entries.len();
        let mut out: Vec<Method> = Vec::new();
        let mut i: usize = 0;
        while i < n
            invariant
                i <= n,
                n == self.entries@.len(),
                self.well_formed(),
                out@.len() == i,
                forall|k: int| 0 <= k < i ==> #[trigger] out@[k] == self.entries@[k].0,
            decreases n - i,
        {
            out.push(self.entries[i].0);
            i += 1;
        }
        proof {
            lemma_mm_dom_len(self.entries@);
            assert forall|m: Method| out@.contains(m) implies self@.contains_key(m) by {
                let k = choose|k: int| 0 <= k < out@.len() && out@[k] == m;
                lemma_mm_contains(self.entries@, k);
            }
            assert forall|m: Method| self@.contains_key(m) implies out@.contains(m) by {
                if forall|k: int| 0 <= k < self.entries@.len() ==> (#[trigger] self.entries@[k].0)
                    != m {
                    lemma_mm_absent(self.entries@, m);
                }
                let k = choose|k: int|
                    0 <= k < self.entries@.len() && (#[trigger] self.entries@[k].0) == m;
                assert(out@[k] == m);
            }
            assert forall|a: int, b: int|
                0 <= a < b < out@.len() implies out@[a] != out@[b] by {
                assert(self.entries@[a].0 != self.entries@[b].0);
            }
        }
        out
    }

    /// Register `h` for every method of `methods`.
    fn set_methods(&mut self, methods: &Vec<Method>, h: u64)
        requires
            old(self).well_formed(),
        ensures
            final(self).well_formed(),
            final(self)@ == routes_add(old(self)@, methods@, h),
    {
        let n = methods.len();
        let mut i: usize = 0;
        proof {
            assert(methods@.subrange(0, 0) =~= Seq::<Method>::empty());
        }
        while i < n
            invariant
                i <= n,
                n == methods@.len(),
                self.well_formed(),
                self@ == routes_add(old(self)@, methods@.subrange(0, i as int), h),
            decreases n - i,
        {
            let ghost before = self@;
            self.set_one(methods[i], h);
            proof {
                let pre = methods@.subrange(0, i as int);
                let post = methods@.subrange(0, i as int + 1);
                assert(post.drop_last() =~= pre);
                assert(routes_add(old(self)@, post, h) == routes_add(old(self)@, pre, h).insert(
                    methods@[i as int],
                    h,
                ));
            }
            i += 1;
        }
        proof {
            assert(methods@.subrange(0, n as int) =~= methods@);
        }
    }

    /// Register `h` for one method, replacing an earlier registration.
    fn set_one(&mut self, method: Method, h: u64)
        requires
            old(self).well_formed(),
        ensures
            final(self).well_formed(),
            final(self)@ == old(self)@.insert(method, h),
    {
        let n = self.entries.len();
        let mut i: usize = 0;
        while i < n
            invariant
                i <= n,
                n == self.entries@.len(),
                self.well_formed(),
                self.entries@ == old(self).entries@,
                forall|k: int| 0 <= k < i ==> (#[trigger] self.entries@[k].0) != method,
            decreases n - i,
        {
            if self.entries[i].0 == method {
                let ghost prev = self.entries@;
                let _ = self.entries.remove(i);
                self.entries.insert(i, (method, h));
                proof {
                    assert(self.entries@[i as int] == (method, h));
                    assert forall|k: int|
                        0 <= k < prev.len() && k != i implies self.entries@[k] == prev[k] by {
                        if k < i {
                            assert(prev.remove(i as int)[k] == prev[k]);
                        } else {
                            assert(prev.remove(i as int)[k - 1] == prev[k]);
                        }
                    }
                    lemma_mm_update(prev, self.entries@, i as int);
                    assert forall|a: int, b: int|
                        0 <= a < b < self.entries@.len() implies (#[trigger] self.entries@[a].0)
                        != (#[trigger] self.entries@[b].0) by {
                        assert(prev[a].0 != prev[b].0);
                    }
                }
                return ;
            }
            i += 1;
        }
        let ghost prev = self.entries@;
        self.entries.push((method, h));
        proof {
            assert(self.entries@.drop_last() =~= prev);
            assert(self@ =~= mm_map(prev).insert(method, h));
            assert forall|a: int, b: int|
                0 <= a < b < self.entries@.len() implies (#[trigger] self.entries@[a].0) != (
            #[trigger] self.entries@[b].0) by {
                if b == self.entries@.len() - 1 {
                    assert(self.entries@[a].0 != method);
                }
            }
        }
    }
}

/// One trie node: its method map, its static children keyed by literal
/// segment, and its parameter children keyed by parameter type.
struct Node {
    priority: u64,
    routes: MethodMap,
    statics: Vec<(String, Node)>,
    params: Vec<(ParameterType, Option<String>, Node)>,
}

/// The view of an optional bound name.
spec fn opt_name_view(n: Option<String>) -> Option<Seq<char>> {
    match n {
        Some(s) => Some(s@),
        None => None,
    }
}

/// The model of one node.
spec fn node_view(n: Node) -> NodeModel
    decreases n,
{
    NodeModel {
        priority: n.priority,
        routes: n.routes@,
        statics: statics_view(n.statics@),
        params: params_view(n.params@),
    }
}

/// The map an association list of static children denotes.
spec fn statics_view(entries: Seq<(String, Node)>) -> Map<Seq<char>, NodeModel>
    decreases entries,
{
    if entries.len() == 0 {
        Map::empty()
    } else {
        let rest = entries.subrange(0, entries.len() - 1);
        statics_view(rest).insert(
            entries[entries.len() - 1].0@,
            node_view(entries[entries.len() - 1].1),
        )
    }
}

/// The edge models of a list of parameter children, in stored order.
spec fn params_view(entries: Seq<(ParameterType, Option<String>, Node)>) -> Seq<EdgeModel>
    decreases entries,
{
    if entries.len() == 0 {
        Seq::empty()
    } else {
        let rest = entries.subrange(0, entries.len() - 1);
        params_view(rest).push(
            EdgeModel {
                ptype: entries[entries.len() - 1].0,
                name: opt_name_view(entries[entries.len() - 1].1),
                node: node_view(entries[entries.len() - 1].2),
            },
        )
    }
}

/// The container invariant, at this node and below: static keys unique,
/// parameter types unique, a `String` parameter edge only last, and every
/// method map well-formed.
spec fn node_inv(n: Node) -> bool
    decreases n,
{
    &&& n.routes.well_formed()
    &&& forall|a: int, b: int|
        0 <= a < b < n.statics@.len() ==> (#[trigger] n.statics@[a].0@) != (
        #[trigger] n.statics@[b].0@)
    &&& forall|a: int, b: int|
        0 <= a < b < n.params@.len() ==> (#[trigger] n.params@[a].0) != (#[trigger] n.params@[b].0)
    &&& forall|a: int|
        0 <= a < n.params@.len() - 1 ==> (#[trigger] n.params@[a].0) != ParameterType::String
    &&& forall|a: int| 0 <= a < n.statics@.len() ==> node_inv(#[trigger] n.statics@[a].1)
    &&& forall|a: int| 0 <= a < n.params@.len() ==> node_inv(#[trigger] n.params@[a].2)
}

/// `params_view` maps entries pointwise.
proof fn lemma_params_view_index(entries: Seq<(ParameterType, Option<String>, Node)>, i: int)
    requires
        0 <= i < entries.len(),
    ensures
        params_view(entries).len() == entries.len(),
        params_view(entries)[i] == (EdgeModel {
            ptype: entries[i].0,
            name: opt_name_view(entries[i].1),
            node: node_view(entries[i].2),
        }),
    decreases entries.len(),
{
    lemma_params_view_len(entries);
    if i < entries.len() - 1 {
        lemma_params_view_index(entries.subrange(0, entries.len() - 1), i);
        assert(entries.subrange(0, entries.len() - 1)[i] == entries[i]);
    }
}

proof fn lemma_params_view_len(entries: Seq<(ParameterType, Option<String>, Node)>)
    ensures
        params_view(entries).len() == entries.len(),
    decreases entries.len(),
{
    if entries.len() > 0 {
        lemma_params_view_len(entries.subrange(0, entries.len() - 1));
    }
}

/// A key in the association list of static children is in the denoted map.
proof fn lemma_statics_view_contains(entries: Seq<(String, Node)>, i: int)
    requires
        0 <= i < entries.len(),
    ensures
        statics_view(entries).contains_key(entries[i].0@),
    decreases entries.len(),
{
    if i < entries.len() - 1 {
        lemma_statics_view_contains(entries.subrange(0, entries.len() - 1), i);
        assert(entries.subrange(0, entries.len() - 1)[i] == entries[i]);
    }
}

/// With distinct keys, the denoted map reads back each child's model.
proof fn lemma_statics_view_index(entries: Seq<(String, Node)>, i: int)
    requires
        0 <= i < entries.len(),
        forall|a: int, b: int|
            0 <= a < b < entries.len() ==> (#[trigger] entries[a].0@) != (#[trigger] entries[b].0@),
    ensures
        statics_view(entries).contains_key(entries[i].0@),
        statics_view(entries)[entries[i].0@] == node_view(entries[i].1),
    decreases entries.len(),
{
    lemma_statics_view_contains(entries, i);
    if i < entries.len() - 1 {
        lemma_statics_view_index(entries.subrange(0, entries.len() - 1), i);
        assert(entries.subrange(0, entries.len() - 1)[i] == entries[i]);
    }
}

/// A key missing from the association list is not in the denoted map.
proof fn lemma_statics_view_absent(entries: Seq<(String, Node)>, key: Seq<char>)
    requires
        forall|a: int| 0 <= a < entries.len() ==> (#[trigger] entries[a].0@) != key,
    ensures
        !statics_view(entries).contains_key(key),
    decreases entries.len(),
{
    if entries.len() > 0 {
        lemma_statics_view_absent(entries.subrange(0, entries.len() - 1), key);
    }
}

/// The denoted map's keys are exactly the listed keys.
proof fn lemma_statics_view_dom(entries: Seq<(String, Node)>, key: Seq<char>)
    ensures
        statics_view(entries).contains_key(key) <==> exists|i: int|
            0 <= i < entries.len() && (#[trigger] entries[i].0@) == key,
    decreases entries.len(),
{
    if entries.len() > 0 {
        let rest = entries.subrange(0, entries.len() - 1);
        lemma_statics_view_dom(rest, key);
        if statics_view(entries).contains_key(key) {
            if entries[entries.len() - 1].0@ != key {
                let i = choose|i: int| 0 <= i < rest.len() && (#[trigger] rest[i].0@) == key;
                assert(entries[i].0@ == key);
            }
        }
        if exists|i: int| 0 <= i < entries.len() && (#[trigger] entries[i].0@) == key {
            let i = choose|i: int| 0 <= i < entries.len() && (#[trigger] entries[i].0@) == key;
            if i < entries.len() - 1 {
                assert(rest[i].0@ == key);
            }
        }
    }
}

impl Node {
    /// A fresh node with no routes and no children.
    fn empty() -> (r: Node)
        ensures
            node_inv(r),
            node_view(r) == empty_node(),
    {
        let r = Node {
            priority: 0,
            routes: MethodMap::new(),
            statics: Vec::new(),
            params: Vec::new(),
        };
        proof {
            assert(node_view(r) =~= empty_node());
        }
        r
    }

    /// Whether registering the pattern segments `segs[i..]` here would hit
    /// the one registration-time error: an existing parameter edge of the
    /// same type under a different name.
    fn conflicts(&self, segs: &Vec<String>, i: usize) -> (r: bool)
        requires
            node_inv(*self),
            i <= segs@.len(),
        ensures
            r == node_conflict(node_view(*self), seg_views(segs@), i as int),
        decreases segs@.len() - i,
    {
        if i == segs.len() {
            return false;
        }
        let seg: &String = &segs[i];
        proof {
            assert(seg_views(segs@)[i as int] == seg@);
        }
        let is_param = seg.as_str().unicode_len() > 0 && seg.as_str().get_char(0) == ':';
        if is_param {
            let (bare, pt) = ParameterType::parse_name(seg.as_str());
            let np = self.params.len();
            let mut k: usize = 0;
            while k < np
                invariant
                    k <= np,
                    np == self.params@.len(),
                    node_inv(*self),
                    i < segs@.len() <= usize::MAX,
                    seg_views(segs@)[i as int] == seg@,
                    is_param_seg(seg@),
                    pt == spec_param_type(seg@),
                    bare@ == spec_param_name(seg@),
                    forall|q: int| 0 <= q < k ==> (#[trigger] self.params@[q].0) != pt,
                decreases np - k,
            {
                if self.params[k].0 == pt {
                    proof {
                        let pv = params_view(self.params@);
                        assert forall|q: int| 0 <= q < k implies (#[trigger] pv[q].ptype) != pt by {
                            lemma_params_view_index(self.params@, q);
                        }
                        lemma_params_view_index(self.params@, k as int);
                        lemma_params_type_index_is(pv, pt, k as int);
                    }
                    let named_conflict = match &self.params[k].1 {
                        Some(n) => !str_eq(n.as_str(), bare.as_str()),
                        None => false,
                    };
                    if named_conflict {
                        return true;
                    }
                    return self.params[k].2.conflicts(segs, i + 1);
                }
                k += 1;
            }
            proof {
                let pv = params_view(self.params@);
                lemma_params_view_len(self.params@);
                assert forall|q: int| 0 <= q < pv.len() implies (#[trigger] pv[q].ptype) != pt by {
                    lemma_params_view_index(self.params@, q);
                }
                lemma_params_type_index_is(pv, pt, pv.len() as int);
            }
            false
        } else {
            let n = self.statics.len();
            let mut j: usize = 0;
            while j < n
                invariant
                    j <= n,
                    n == self.statics@.len(),
                    node_inv(*self),
                    i < segs@.len() <= usize::MAX,
                    seg_views(segs@)[i as int] == seg@,
                    !is_param_seg(seg@),
                    forall|q: int| 0 <= q < j ==> (#[trigger] self.statics@[q].0@) != seg@,
                decreases n - j,
            {
                if str_eq(seg.as_str(), self.statics[j].0.as_str()) {
                    proof {
                        lemma_statics_view_index(self.statics@, j as int);
                    }
                    return self.statics[j].1.conflicts(segs, i + 1);
                }
                j += 1;
            }
            proof {
                lemma_statics_view_absent(self.statics@, seg@);
            }
            false
        }
    }

    /// Walk the remaining path segments `segs[i..]` from this node,
    /// appending each matched parameter to `params`.  Returns the method map
    /// of the matched node, or `None` when the walk fails; on failure the
    /// caller discards `params`.
    fn find<'a>(&'a self, segs: &Vec<String>, i: usize, params: &mut RouteParameters) -> (r:
        Option<&'a MethodMap>)
        requires
            node_inv(*self),
            old(params).well_formed(),
            i <= segs@.len(),
        ensures
            final(params).well_formed(),
            match node_lookup(node_view(*self), seg_views(segs@), i as int) {
                Some(res) => r is Some && r.unwrap()@ == res.0 && r.unwrap().well_formed()
                    && final(params)@.ordered == old(params)@.ordered + cap_values(res.1)
                    && final(params)@.named == named_add(old(params)@.named, res.1),
                None => r is None,
            },
        decreases segs@.len() - i,
    {
        if i == segs.len() {
            proof {
                assert(old(params)@.ordered + cap_values(Seq::<CaptureModel>::empty()) =~= old(
                    params,
                )@.ordered);
            }
            return Some(&self.routes);
        }
        let seg: &String = &segs[i];
        proof {
            assert(seg_views(segs@)[i as int] == seg@);
        }
        let n = self.statics.len();
        let mut j: usize = 0;
        while j < n
            invariant
                j <= n,
                n == self.statics@.len(),
                node_inv(*self),
                old(params).well_formed(),
                *params == *old(params),
                i < segs@.len() <= usize::MAX,
                seg_views(segs@)[i as int] == seg@,
                forall|q: int| 0 <= q < j ==> (#[trigger] self.statics@[q].0@) != seg@,
            decreases n - j,
        {
            if str_eq(seg.as_str(), self.statics[j].0.as_str()) {
                proof {
                    lemma_statics_view_index(self.statics@, j as int);
                }
                return self.statics[j].1.find(segs, i + 1, params);
            }
            j += 1;
        }
        proof {
            lemma_statics_view_absent(self.statics@, seg@);
        }
        let np = self.params.len();
        let mut k: usize = 0;
        while k < np
            invariant
                k <= np,
                np == self.params@.len(),
                node_inv(*self),
                old(params).well_formed(),
                *params == *old(params),
                i < segs@.len() <= usize::MAX,
                seg_views(segs@)[i as int] == seg@,
                !node_view(*self).statics.contains_key(seg@),
                forall|q: int|
                    0 <= q < k ==> type_match(#[trigger] self.params@[q].0, seg@) is None,
            decreases np - k,
        {
            let pt = self.params[k].0;
            let matched: Option<Parameter> = match pt {
                ParameterType::U32 => match parse_u32(seg.as_str()) {
                    Some(v) => Some(Parameter::U32(v)),
                    None => None,
                },
                ParameterType::I32 => match parse_i32(seg.as_str()) {
                    Some(v) => Some(Parameter::I32(v)),
                    None => None,
                },
                ParameterType::String => Some(Parameter::String(seg.clone())),
            };
            match matched {
                Some(value) => {
                    let ghost pv = params_view(self.params@);
                    let ghost cap = CaptureModel {
                        name: opt_name_view(self.params@[k as int].1),
                        value: value@,
                    };
                    proof {
                        lemma_params_view_len(self.params@);
                        assert forall|q: int|
                            0 <= q < k implies type_match(#[trigger] pv[q].ptype, seg@) is None by {
                            lemma_params_view_index(self.params@, q);
                        }
                        lemma_params_view_index(self.params@, k as int);
                        lemma_params_match_at(pv, seg@, k as int, value@);
                    }
                    match &self.params[k].1 {
                        Some(nm) => params.push_named(nm.as_str(), value),
                        None => params.push_unnamed(value),
                    }
                    let ghost mid = *params;
                    let r = self.params[k].2.find(segs, i + 1, params);
                    proof {
                        let sv = seg_views(segs@);
                        let child = node_view(self.params@[k as int].2);
                        match node_lookup(child, sv, i as int + 1) {
                            Some(deeper) => {
                                let caps = seq![cap] + deeper.1;
                                assert(node_lookup(node_view(*self), sv, i as int) == Some(
                                    (deeper.0, caps),
                                ));
                                assert(caps.drop_first() =~= deeper.1);
                                assert(cap_values(caps) =~= seq![cap.value] + cap_values(
                                    deeper.1,
                                ));
                                assert(final(params)@.ordered =~= old(params)@.ordered
                                    + cap_values(caps));
                                assert(named_add(old(params)@.named, caps) == named_add(
                                    mid@.named,
                                    deeper.1,
                                ));
                            },
                            None => {
                                assert(node_lookup(node_view(*self), sv, i as int) is None);
                            },
                        }
                    }
                    return r;
                },
                None => {
                    proof {
                        assert(type_match(self.params@[k as int].0, seg@) is None);
                    }
                },
            }
            k += 1;
        }
        proof {
            let pv = params_view(self.params@);
            lemma_params_view_len(self.params@);
            assert forall|q: int|
                0 <= q < pv.len() implies type_match(#[trigger] pv[q].ptype, seg@) is None by {
                lemma_params_view_index(self.params@, q);
            }
            lemma_params_match_none(pv, seg@);
        }
        None
    }

    /// Register `h` for `methods` under the pattern segments `segs[i..]`,
    /// creating children as needed.  The caller has ruled out the one
    /// registration-time error beforehand.
    fn insert_route(&mut self, segs: &Vec<String>, i: usize, methods: &Vec<Method>, h: u64)
        requires
            node_inv(*old(self)),
            i <= segs@.len(),
            !node_conflict(node_view(*old(self)), seg_views(segs@), i as int),
        ensures
            node_inv(*final(self)),
            node_view(*final(self)) == node_insert(
                node_view(*old(self)),
                seg_views(segs@),
                i as int,
                methods@,
                h,
            ),
        decreases segs@.len() - i, 1int,
    {
        let ghost m = node_view(*old(self));
        let ghost sv = seg_views(segs@);
        if i == segs.len() {
            if self.priority < u64::MAX {
                self.priority = self.priority + 1;
            }
            self.routes.set_methods(methods, h);
            proof {
                assert(node_view(*self) =~= node_insert(m, sv, i as int, methods@, h));
            }
            return ;
        }
        let seg: &String = &segs[i];
        proof {
            assert(sv[i as int] == seg@);
        }
        let is_param = seg.as_str().unicode_len() > 0 && seg.as_str().get_char(0) == ':';
        if self.priority < u64::MAX {
            self.priority = self.priority + 1;
        }
        let ghost m1 = node_view(*self);
        proof {
            assert(m1 =~= (NodeModel { priority: bump(m.priority), ..m }));
            assert(!node_conflict(m1, sv, i as int));
        }
        if is_param {
            self.insert_param_route(segs, i, methods, h);
            proof {
                assert(node_insert(m1, sv, i as int, methods@, h).params == node_insert(
                    m,
                    sv,
                    i as int,
                    methods@,
                    h,
                ).params);
                assert(node_view(*self) =~= node_insert(m, sv, i as int, methods@, h));
            }
        } else {
            self.insert_static_route(segs, i, methods, h);
            proof {
                assert(node_insert(m1, sv, i as int, methods@, h).statics == node_insert(
                    m,
                    sv,
                    i as int,
                    methods@,
                    h,
                ).statics);
                assert(node_view(*self) =~= node_insert(m, sv, i as int, methods@, h));
            }
        }
    }

    /// The parameter-segment branch of [`Node::insert_route`]: descend into
    /// (or create) the parameter edge of the segment's declared type.  Only
    /// this node's parameter edges change.
    #[verifier::rlimit(100)]
    fn insert_param_route(&mut self, segs: &Vec<String>, i: usize, methods: &Vec<Method>, h: u64)
        requires
            node_inv(*old(self)),
            i < segs@.len(),
            is_param_seg(seg_views(segs@)[i as int]),
            !node_conflict(node_view(*old(self)), seg_views(segs@), i as int),
        ensures
            node_inv(*final(self)),
            node_view(*final(self)) == (NodeModel {
                params: node_insert(
                    node_view(*old(self)),
                    seg_views(segs@),
                    i as int,
                    methods@,
                    h,
                ).params,
                ..node_view(*old(self))
            }),
        decreases segs@.len() - i, 0int,
    {
        let ghost m = node_view(*old(self));
        let ghost sv = seg_views(segs@);
        let _slen: usize = segs.len();
        let seg: &String = &segs[i];
        proof {
            assert(sv[i as int] == seg@);
        }
        let (bare, pt) = ParameterType::parse_name(seg.as_str());
        let np = self.params.len();
        let mut k: usize = 0;
        while k < np && self.params[k].0 != pt
            invariant
                k <= np,
                np == self.params@.len(),
                *self == *old(self),
                i < segs@.len() <= usize::MAX,
                sv == seg_views(segs@),
                sv[i as int] == seg@,
                is_param_seg(seg@),
                pt == spec_param_type(seg@),
                forall|q: int| 0 <= q < k ==> (#[trigger] self.params@[q].0) != pt,
            decreases np - k,
        {
            k += 1;
        }
        let found = k;
        proof {
            let pv = params_view(self.params@);
            lemma_params_view_len(self.params@);
            if found < np {
                assert forall|q: int| 0 <= q < found implies (#[trigger] pv[q].ptype) != pt by {
                    lemma_params_view_index(self.params@, q);
                }
                lemma_params_view_index(self.params@, found as int);
                lemma_params_type_index_is(pv, pt, found as int);
            } else {
                assert forall|q: int| 0 <= q < pv.len() implies (#[trigger] pv[q].ptype) != pt by {
                    lemma_params_view_index(self.params@, q);
                }
                lemma_params_type_index_is(pv, pt, pv.len() as int);
            }
        }
        if found < np {
            let ghost prev = self.params@;
            let mut entry = self.params.remove(found);
            if entry.1.is_none() {
                entry.1 = Some(bare);
            }
            proof {
                lemma_params_view_index(prev, found as int);
                assert(node_inv(entry.2));
                assert(!node_conflict(node_view(entry.2), sv, i as int + 1));
            }
            entry.2.insert_route(segs, i + 1, methods, h);
            self.params.insert(found, entry);
            proof {
                let pv = params_view(prev);
                let edge = pv[found as int];
                let edge2 = EdgeModel {
                    name: if edge.name is Some {
                        edge.name
                    } else {
                        Some(spec_param_name(seg@))
                    },
                    node: node_insert(edge.node, sv, i as int + 1, methods@, h),
                    ..edge
                };
                assert(self.params@[found as int] == entry);
                assert forall|q: int|
                    0 <= q < prev.len() && q != found implies #[trigger] self.params@[q]
                    == prev[q] by {
                    if q < found {
                        assert(prev.remove(found as int)[q] == prev[q]);
                    } else {
                        assert(prev.remove(found as int)[q - 1] == prev[q]);
                    }
                }
                lemma_params_view_len(prev);
                lemma_params_view_len(self.params@);
                assert forall|q: int|
                    0 <= q < self.params@.len() implies #[trigger] params_view(
                    self.params@,
                )[q] == pv.update(found as int, edge2)[q] by {
                    lemma_params_view_index(self.params@, q);
                    lemma_params_view_index(prev, q);
                }
                assert(params_view(self.params@) =~= pv.update(found as int, edge2));
                assert(node_view(*self) =~= (NodeModel {
                    params: node_insert(m, sv, i as int, methods@, h).params,
                    ..m
                }));
                assert forall|a: int, b: int|
                    0 <= a < b < self.params@.len() implies (#[trigger] self.params@[a].0) != (
                #[trigger] self.params@[b].0) by {
                    assert(self.params@[a].0 == prev[a].0);
                    assert(self.params@[b].0 == prev[b].0);
                }
                assert forall|a: int|
                    0 <= a < self.params@.len() - 1 implies (#[trigger] self.params@[a].0)
                    != ParameterType::String by {
                    assert(self.params@[a].0 == prev[a].0);
                }
                assert(node_inv(*self));
            }
        } else {
            let mut child = Node::empty();
            proof {
                assert(!node_conflict(empty_node(), sv, i as int + 1));
            }
            child.insert_route(segs, i + 1, methods, h);
            let ghost prev = self.params@;
            let pos = if self.params.len() > 0 && self.params[self.params.len() - 1].0
                == ParameterType::String {
                self.params.len() - 1
            } else {
                self.params.len()
            };
            proof {
                let pv = params_view(prev);
                lemma_params_view_len(prev);
                if prev.len() > 0 {
                    lemma_params_view_index(prev, prev.len() - 1);
                }
                assert(pos == param_insert_pos(pv));
            }
            self.params.insert(pos, (pt, Some(bare), child));
            proof {
                let pv = params_view(prev);
                let edge = EdgeModel {
                    ptype: pt,
                    name: Some(spec_param_name(seg@)),
                    node: node_insert(empty_node(), sv, i as int + 1, methods@, h),
                };
                lemma_params_view_len(prev);
                lemma_params_view_len(self.params@);
                assert forall|q: int|
                    0 <= q < self.params@.len() implies #[trigger] params_view(
                    self.params@,
                )[q] == pv.insert(pos as int, edge)[q] by {
                    lemma_params_view_index(self.params@, q);
                    if q < pos {
                        lemma_params_view_index(prev, q);
                    } else if q > pos {
                        lemma_params_view_index(prev, q - 1);
                    }
                }
                assert(params_view(self.params@) =~= pv.insert(pos as int, edge));
                assert(node_view(*self) =~= (NodeModel {
                    params: node_insert(m, sv, i as int, methods@, h).params,
                    ..m
                }));
                assert forall|a: int, b: int|
                    0 <= a < b < self.params@.len() implies (#[trigger] self.params@[a].0) != (
                #[trigger] self.params@[b].0) by {
                    if a < pos && b < pos {
                        assert(prev[a].0 != prev[b].0);
                    } else if a < pos && b > pos {
                        assert(self.params@[b].0 == prev[b - 1].0);
                    } else if a > pos && b > pos {
                        assert(prev[a - 1].0 != prev[b - 1].0);
                    } else if a == pos && b > pos {
                        assert(self.params@[b].0 == prev[b - 1].0);
                    } else if a < pos && b == pos {
                        assert(self.params@[a].0 == prev[a].0);
                    }
                }
                assert forall|a: int|
                    0 <= a < self.params@.len() - 1 implies (#[trigger] self.params@[a].0)
                    != ParameterType::String by {
                    if a < pos {
                        assert(self.params@[a].0 == prev[a].0);
                    } else if a > pos {
                        assert(self.params@[a].0 == prev[a - 1].0);
                    }
                }
                assert forall|a: int|
                    0 <= a < self.params@.len() implies node_inv(#[trigger] self.params@[a].2) by {
                    if a < pos {
                        assert(self.params@[a].2 == prev[a].2);
                    } else if a > pos {
                        assert(self.params@[a].2 == prev[a - 1].2);
                    }
                }
                assert(node_inv(*self));
            }
        }
    }

    /// The static-segment branch of [`Node::insert_route`]: descend into
    /// (or create) the static child keyed by the literal segment.  Only
    /// this node's static children change.
    #[verifier::rlimit(100)]
    fn insert_static_route(&mut self, segs: &Vec<String>, i: usize, methods: &Vec<Method>, h: u64)
        requires
            node_inv(*old(self)),
            i < segs@.len(),
            !is_param_seg(seg_views(segs@)[i as int]),
            !node_conflict(node_view(*old(self)), seg_views(segs@), i as int),
        ensures
            node_inv(*final(self)),
            node_view(*final(self)) == (NodeModel {
                statics: node_insert(
                    node_view(*old(self)),
                    seg_views(segs@),
                    i as int,
                    methods@,
                    h,
                ).statics,
                ..node_view(*old(self))
            }),
        decreases segs@.len() - i, 0int,
    {
        let ghost m = node_view(*old(self));
        let ghost sv = seg_views(segs@);
        let _slen: usize = segs.len();
        let seg: &String = &segs[i];
        proof {
            assert(sv[i as int] == seg@);
        }
        let n = self.statics.len();
        let mut j: usize = 0;
        while j < n && !str_eq(seg.as_str(), self.statics[j].0.as_str())
            invariant
                j <= n,
                n == self.statics@.len(),
                *self == *old(self),
                i < segs@.len() <= usize::MAX,
                sv == seg_views(segs@),
                sv[i as int] == seg@,
                !is_param_seg(seg@),
                forall|q: int| 0 <= q < j ==> (#[trigger] self.statics@[q].0@) != seg@,
            decreases n - j,
        {
            j += 1;
        }
        let sfound = j;
        if sfound < n {
            let ghost prev = self.statics@;
            proof {
                lemma_statics_view_index(prev, sfound as int);
            }
            let mut entry = self.statics.remove(sfound);
            proof {
                assert(node_inv(entry.1));
                assert(!node_conflict(node_view(entry.1), sv, i as int + 1));
            }
            entry.1.insert_route(segs, i + 1, methods, h);
            self.statics.insert(sfound, entry);
            proof {
                let target = statics_view(prev).insert(
                    seg@,
                    node_insert(statics_view(prev)[seg@], sv, i as int + 1, methods@, h),
                );
                assert(self.statics@[sfound as int] == entry);
                assert forall|q: int|
                    0 <= q < prev.len() && q != sfound implies #[trigger] self.statics@[q]
                    == prev[q] by {
                    if q < sfound {
                        assert(prev.remove(sfound as int)[q] == prev[q]);
                    } else {
                        assert(prev.remove(sfound as int)[q - 1] == prev[q]);
                    }
                }
                assert forall|a: int, b: int|
                    0 <= a < b < self.statics@.len() implies (#[trigger] self.statics@[a].0@) != (
                #[trigger] self.statics@[b].0@) by {
                    assert(self.statics@[a].0@ == prev[a].0@);
                    assert(self.statics@[b].0@ == prev[b].0@);
                }
                assert forall|key: Seq<char>|
                    #[trigger] statics_view(self.statics@).contains_key(key) == target.contains_key(
                        key,
                    ) && (statics_view(self.statics@).contains_key(key) ==> statics_view(
                        self.statics@,
                    )[key] == target[key]) by {
                    lemma_statics_view_dom(self.statics@, key);
                    lemma_statics_view_dom(prev, key);
                    if statics_view(self.statics@).contains_key(key) {
                        let q = choose|q: int|
                            0 <= q < self.statics@.len() && (#[trigger] self.statics@[q].0@)
                                == key;
                        lemma_statics_view_index(self.statics@, q);
                        if q == sfound {
                            assert(statics_view(self.statics@)[key] == target[key]);
                        } else {
                            assert(prev[q].0@ == key);
                            lemma_statics_view_index(prev, q);
                            assert(key != seg@);
                        }
                    } else {
                        if target.contains_key(key) {
                            if key == seg@ {
                                assert(self.statics@[sfound as int].0@ == key);
                            } else {
                                let q = choose|q: int|
                                    0 <= q < prev.len() && (#[trigger] prev[q].0@) == key;
                                assert(self.statics@[q].0@ == key);
                            }
                            assert(false);
                        }
                    }
                }
                assert(statics_view(self.statics@) =~= target);
                assert(node_view(*self) =~= (NodeModel {
                    statics: node_insert(m, sv, i as int, methods@, h).statics,
                    ..m
                }));
                assert(node_inv(*self));
            }
        } else {
            proof {
                lemma_statics_view_absent(self.statics@, seg@);
            }
            let mut child = Node::empty();
            proof {
                assert(!node_conflict(empty_node(), sv, i as int + 1));
            }
            child.insert_route(segs, i + 1, methods, h);
            let key = seg.clone();
            let ghost prev = self.statics@;
            self.statics.push((key, child));
            proof {
                assert(self.statics@.subrange(0, self.statics@.len() - 1) =~= prev);
                assert(statics_view(self.statics@) =~= statics_view(prev).insert(
                    seg@,
                    node_insert(empty_node(), sv, i as int + 1, methods@, h),
                ));
                assert(node_view(*self) =~= (NodeModel {
                    statics: node_insert(m, sv, i as int, methods@, h).statics,
                    ..m
                }));
                assert forall|a: int, b: int|
                    0 <= a < b < self.statics@.len() implies (#[trigger] self.statics@[a].0@) != (
                #[trigger] self.statics@[b].0@) by {
                    if b == self.statics@.len() - 1 {
                        assert(self.statics@[a].0@ != seg@);
                    } else {
                        assert(self.statics@[a].0@ == prev[a].0@);
                        assert(self.statics@[b].0@ == prev[b].0@);
                    }
                }
                assert(node_inv(*self));
            }
        }
    }
}

/// The one registration-time error: a parameter at an existing tree
/// position, with the same type but a different, already-set name.
#[derive(Clone, Copy, Debug, PartialEq, Eq, Structural)]
pub enum RouteError {
    AmbiguousParameterName,
}

/// The route trie: a root node holding the whole registered route set.
pub struct RouteTree {
    root: Node,
}

impl View for RouteTree {
    type V = NodeModel;

    closed spec fn view(&self) -> NodeModel {
        node_view(self.root)
    }
}

impl RouteTree {
    /// The container invariant holds at every node.
    pub closed spec fn well_formed(&self) -> bool {
        node_inv(self.root)
    }

    /// An empty tree.
    pub fn new() -> (r: RouteTree)
        ensures
            r.well_formed(),
            r@ == empty_node(),
    {
        RouteTree { root: Node::empty() }
    }

    /// Register `handler` for each method of `methods` under the pattern
    /// `path`.  Fails, leaving the tree unchanged, exactly when the pattern
    /// names a parameter that an existing same-typed parameter node already
    /// holds under a different name.
    pub fn add_route(&mut self, methods: &Vec<Method>, path: &str, handler: u64) -> (r: Result<
        (),
        RouteError,
    >)
        requires
            old(self).well_formed(),
        ensures
            final(self).well_formed(),
            match r {
                Ok(_) => !spec_add_conflict(old(self)@, path@) && final(self)@ == spec_add_route(
                    old(self)@,
                    path@,
                    methods@,
                    handler,
                ),
                Err(e) => spec_add_conflict(old(self)@, path@) && final(self)@ == old(self)@ && e
                    == RouteError::AmbiguousParameterName,
            },
    {
        let trimmed = trim_slashes(path);
        if trimmed.unicode_len() == 0 {
            self.root.routes.set_methods(methods, handler);
            proof {
                assert(node_view(self.root) =~= spec_add_route(old(self)@, path@, methods@,
                    handler));
            }
            return Ok(());
        }
        let segs = split_slash(trimmed);
        if self.root.conflicts(&segs, 0) {
            return Err(RouteError::AmbiguousParameterName);
        }
        self.root.insert_route(&segs, 0, methods, handler);
        Ok(())
    }

    /// Look up `path`: the matched node's method map and the parameters
    /// extracted along the way, or `None` when no route matches.
    pub fn route_to<'a>(&'a self, path: &str) -> (r: Option<(&'a MethodMap, RouteParameters)>)
        requires
            self.well_formed(),
        ensures
            match spec_route_to(self@, path@) {
                Some(res) => match r {
                    Some(found) => found.0@ == res.0 && found.0.well_formed() && found.1@ == res.1
                        && found.1.well_formed(),
                    None => false,
                },
                None => r is None,
            },
    {
        let mut params = RouteParameters::new();
        if path.is_empty() {
            return Some((&self.root.routes, params));
        }
        let segs = split_slash(path);
        let found = self.root.find(&segs, 0, &mut params);
        match found {
            Some(mm) => {
                proof {
                    match node_lookup(self@, seg_views(segs@), 0) {
                        Some(res) => {
                            assert(ParamsModel::empty().ordered + cap_values(res.1) =~= cap_values(
                                res.1));
                        },
                        None => {},
                    }
                }
                Some((mm, params))
            },
            None => None,
        }
    }
}

} // verus!
