//! General properties of the routing model, stated and proved once for all
//! trees, patterns and requests.

use vstd::prelude::*;

use crate::method::Method;
use crate::model::{
    empty_node, is_param_seg, lemma_params_type_index, node_insert, node_lookup,
    param_insert_pos, params_match, params_type_index, params_wf, routes_add, type_match,
    CaptureModel, EdgeModel, NodeModel,
};
use crate::ptype::{spec_param_type, ParameterType};

verus! {

/// A static child always takes precedence over every parameter edge, and
/// the walk commits to it: the lookup equals the lookup inside that child,
/// so when the child's subtree has no match the whole lookup fails, with no
/// fallback to a parameter edge at this level.
pub proof fn lemma_static_child_commits(m: NodeModel, segs: Seq<Seq<char>>, i: int)
    requires
        0 <= i < segs.len(),
        m.statics.contains_key(segs[i]),
    ensures
        node_lookup(m, segs, i) == node_lookup(m.statics[segs[i]], segs, i + 1),
{
}

/// Registering a handler for a set of methods touches a method map only at
/// those methods: each of them now maps to the handler, and every other
/// method keeps exactly the registration it had.
pub proof fn lemma_routes_add_frame(routes: Map<Method, u64>, methods: Seq<Method>, h: u64, q:
    Method)
    ensures
        methods.contains(q) ==> routes_add(routes, methods, h).contains_key(q) && routes_add(
            routes,
            methods,
            h,
        )[q] == h,
        !methods.contains(q) ==> routes_add(routes, methods, h).contains_key(q)
            == routes.contains_key(q),
        !methods.contains(q) && routes.contains_key(q) ==> routes_add(routes, methods, h)[q]
            == routes[q],
    decreases methods.len(),
{
    if methods.len() > 0 {
        lemma_routes_add_frame(routes, methods.drop_last(), h, q);
        if methods.contains(q) && methods.last() != q {
            let w = choose|w: int| 0 <= w < methods.len() && methods[w] == q;
            assert(methods.drop_last()[w] == q);
            assert(methods.drop_last().contains(q));
        }
        if methods.drop_last().contains(q) {
            let w = choose|w: int|
                0 <= w < methods.drop_last().len() && methods.drop_last()[w] == q;
            assert(methods[w] == q);
            assert(methods.contains(q));
        }
    }
}

/// In a well-formed parameter list, a segment that parses as some numeric
/// edge's type is never claimed by the `String` edge: the match succeeds
/// and yields a numeric-typed edge.
pub proof fn lemma_numeric_tried_first(params: Seq<EdgeModel>, seg: Seq<char>, k: int)
    requires
        params_wf(params),
        0 <= k < params.len(),
        params[k].ptype != ParameterType::String,
        type_match(params[k].ptype, seg) is Some,
    ensures
        params_match(params, seg) is Some,
        params_match(params, seg).unwrap().0.ptype != ParameterType::String,
    decreases params.len(),
{
    if type_match(params[0].ptype, seg) is Some {
        if params.len() > 1 {
            assert(params[0].ptype != ParameterType::String);
        } else {
            assert(params[0] == params[k]);
        }
    } else {
        assert(k != 0);
        let rest = params.drop_first();
        assert forall|a: int, b: int|
            0 <= a < b < rest.len() implies (#[trigger] rest[a].ptype) != (
        #[trigger] rest[b].ptype) by {
            assert(rest[a] == params[a + 1]);
            assert(rest[b] == params[b + 1]);
        }
        assert forall|a: int|
            0 <= a < rest.len() - 1 implies (#[trigger] rest[a].ptype) != ParameterType::String by {
            assert(rest[a] == params[a + 1]);
        }
        assert(rest[k - 1] == params[k]);
        lemma_numeric_tried_first(rest, seg, k - 1);
    }
}

/// Registration keeps a node's parameter edges well-formed: updating an
/// existing edge keeps its type in place, and a new edge of a fresh type is
/// placed before a trailing `String` edge, never after it.
pub proof fn lemma_insert_preserves_params_wf(
    m: NodeModel,
    segs: Seq<Seq<char>>,
    i: int,
    methods: Seq<Method>,
    h: u64,
)
    requires
        params_wf(m.params),
    ensures
        params_wf(node_insert(m, segs, i, methods, h).params),
{
    let after = node_insert(m, segs, i, methods, h).params;
    if i < 0 || i >= segs.len() || !is_param_seg(segs[i]) {
    } else {
        let pt = spec_param_type(segs[i]);
        let j = params_type_index(m.params, pt);
        lemma_params_type_index(m.params, pt);
        if j < m.params.len() {
            assert forall|a: int, b: int|
                0 <= a < b < after.len() implies (#[trigger] after[a].ptype) != (
            #[trigger] after[b].ptype) by {
                assert(after[a].ptype == m.params[a].ptype);
                assert(after[b].ptype == m.params[b].ptype);
            }
            assert forall|a: int|
                0 <= a < after.len() - 1 implies (#[trigger] after[a].ptype)
                != ParameterType::String by {
                assert(after[a].ptype == m.params[a].ptype);
            }
        } else {
            let pos = param_insert_pos(m.params);
            assert forall|a: int, b: int|
                0 <= a < b < after.len() implies (#[trigger] after[a].ptype) != (
            #[trigger] after[b].ptype) by {
                if a < pos && b < pos {
                    assert(after[a].ptype == m.params[a].ptype);
                    assert(after[b].ptype == m.params[b].ptype);
                } else if a < pos && b == pos {
                    assert(after[a].ptype == m.params[a].ptype);
                } else if a < pos && b > pos {
                    assert(after[a].ptype == m.params[a].ptype);
                    assert(after[b].ptype == m.params[b - 1].ptype);
                } else if a == pos && b > pos {
                    assert(after[b].ptype == m.params[b - 1].ptype);
                } else {
                    assert(after[a].ptype == m.params[a - 1].ptype);
                    assert(after[b].ptype == m.params[b - 1].ptype);
                }
            }
            assert forall|a: int|
                0 <= a < after.len() - 1 implies (#[trigger] after[a].ptype)
                != ParameterType::String by {
                if a < pos {
                    assert(after[a].ptype == m.params[a].ptype);
                    if pos == m.params.len() - 1 {
                        assert(a < m.params.len() - 1);
                    }
                } else if a == pos {
                    if a < after.len() - 1 {
                        assert(pt != ParameterType::String);
                    }
                } else {
                    assert(after[a].ptype == m.params[a - 1].ptype);
                }
            }
        }
    }
}

/// Registering two routes whose patterns start with different static
/// segments is order-independent: the resulting trees are equal, so every
/// later lookup behaves the same.  This is what makes the insertion order
/// of distinct sibling static routes immaterial.
pub proof fn lemma_static_insert_commutes(
    m: NodeModel,
    segs1: Seq<Seq<char>>,
    segs2: Seq<Seq<char>>,
    methods1: Seq<Method>,
    methods2: Seq<Method>,
    h1: u64,
    h2: u64,
)
    requires
        segs1.len() > 0,
        segs2.len() > 0,
        !is_param_seg(segs1[0]),
        !is_param_seg(segs2[0]),
        segs1[0] != segs2[0],
    ensures
        node_insert(node_insert(m, segs1, 0, methods1, h1), segs2, 0, methods2, h2) == node_insert(
            node_insert(m, segs2, 0, methods2, h2),
            segs1,
            0,
            methods1,
            h1,
        ),
{
    let s1 = segs1[0];
    let s2 = segs2[0];
    let c1 = if m.statics.contains_key(s1) {
        m.statics[s1]
    } else {
        empty_node()
    };
    let c2 = if m.statics.contains_key(s2) {
        m.statics[s2]
    } else {
        empty_node()
    };
    let a1 = node_insert(c1, segs1, 1, methods1, h1);
    let b1 = node_insert(c2, segs2, 1, methods2, h2);
    let lhs = node_insert(node_insert(m, segs1, 0, methods1, h1), segs2, 0, methods2, h2);
    let rhs = node_insert(node_insert(m, segs2, 0, methods2, h2), segs1, 0, methods1, h1);
    assert(lhs.statics =~= m.statics.insert(s1, a1).insert(s2, b1));
    assert(rhs.statics =~= m.statics.insert(s2, b1).insert(s1, a1));
    assert(m.statics.insert(s1, a1).insert(s2, b1) =~= m.statics.insert(s2, b1).insert(s1, a1));
    assert(lhs =~= rhs);
}

/// Registering a fully static pattern makes its own path resolvable: the
/// lookup of exactly those segments succeeds, extracts no parameters, and
/// returns a method map holding the handler under each registered method.
pub proof fn lemma_registered_route_found(
    m: NodeModel,
    segs: Seq<Seq<char>>,
    i: int,
    methods: Seq<Method>,
    h: u64,
)
    requires
        0 <= i <= segs.len(),
        forall|j: int| i <= j < segs.len() ==> !is_param_seg(#[trigger] segs[j]),
    ensures
        node_lookup(node_insert(m, segs, i, methods, h), segs, i) is Some,
        node_lookup(node_insert(m, segs, i, methods, h), segs, i).unwrap().1
            == Seq::<CaptureModel>::empty(),
        forall|q: Method|
            #[trigger] methods.contains(q) ==> node_lookup(
                node_insert(m, segs, i, methods, h),
                segs,
                i,
            ).unwrap().0.contains_key(q) && node_lookup(
                node_insert(m, segs, i, methods, h),
                segs,
                i,
            ).unwrap().0[q] == h,
    decreases segs.len() - i,
{
    let inserted = node_insert(m, segs, i, methods, h);
    if i == segs.len() {
        assert forall|q: Method| #[trigger] methods.contains(q) implies inserted.routes.contains_key(
            q,
        ) && inserted.routes[q] == h by {
            lemma_routes_add_frame(m.routes, methods, h, q);
        }
    } else {
        let seg = segs[i];
        let child = if m.statics.contains_key(seg) {
            m.statics[seg]
        } else {
            empty_node()
        };
        lemma_registered_route_found(child, segs, i + 1, methods, h);
        assert(inserted.statics.contains_key(seg));
        assert(inserted.statics[seg] == node_insert(child, segs, i + 1, methods, h));
    }
}

} // verus!
