//! The mathematical model of the route trie and of its two operations.
//!
//! A node is modelled as a method map, a map from literal segment to static
//! child, and an ordered sequence of parameter edges.  Static children form a
//! map because their scan order is immaterial to lookup; parameter edges stay
//! a sequence because their order decides which type is tried first.
//! [`node_insert`] and [`node_lookup`] are the definitions of registration
//! and matching that the executable code is proved against.

use vstd::prelude::*;

use crate::method::Method;
use crate::numbers::{spec_parse_i32, spec_parse_u32};
use crate::params::{ParamsModel, ValueModel};
use crate::ptype::{spec_param_name, spec_param_type, ParameterType};
use crate::segments::{spec_split, spec_trim};

verus! {

/// One parameter edge of a node: the declared type, the bound name (if any),
/// and the subtree behind it.
#[verifier::ext_equal]
pub ghost struct EdgeModel {
    pub ptype: ParameterType,
    pub name: Option<Seq<char>>,
    pub node: NodeModel,
}

/// One trie node.
#[verifier::ext_equal]
pub ghost struct NodeModel {
    pub priority: u64,
    pub routes: Map<Method, u64>,
    pub statics: Map<Seq<char>, NodeModel>,
    pub params: Seq<EdgeModel>,
}

/// One extracted value together with the name of the edge that matched it.
#[verifier::ext_equal]
pub ghost struct CaptureModel {
    pub name: Option<Seq<char>>,
    pub value: ValueModel,
}

/// The node a fresh subtree starts from.
pub open spec fn empty_node() -> NodeModel {
    NodeModel {
        priority: 0,
        routes: Map::empty(),
        statics: Map::empty(),
        params: Seq::empty(),
    }
}

/// A pattern segment that declares a parameter starts with the `:` sigil.
pub open spec fn is_param_seg(seg: Seq<char>) -> bool {
    seg.len() > 0 && seg[0] == ':'
}

/// The priority counter grows by one per insertion, saturating at the top.
pub open spec fn bump(p: u64) -> u64 {
    if p < u64::MAX {
        (p + 1) as u64
    } else {
        p
    }
}

/// Register `h` for every method of `methods`, in order.
pub open spec fn routes_add(routes: Map<Method, u64>, methods: Seq<Method>, h: u64) -> Map<
    Method,
    u64,
>
    decreases methods.len(),
{
    if methods.len() == 0 {
        routes
    } else {
        routes_add(routes, methods.drop_last(), h).insert(methods.last(), h)
    }
}

/// What matching `seg` against a parameter of type `t` yields.
pub open spec fn type_match(t: ParameterType, seg: Seq<char>) -> Option<ValueModel> {
    match t {
        ParameterType::U32 => match spec_parse_u32(seg) {
            Some(v) => Some(ValueModel::U32(v)),
            None => None,
        },
        ParameterType::I32 => match spec_parse_i32(seg) {
            Some(v) => Some(ValueModel::I32(v)),
            None => None,
        },
        ParameterType::String => Some(ValueModel::Str(seg)),
    }
}

/// The first parameter edge whose type parses `seg`, with the parsed value.
pub open spec fn params_match(params: Seq<EdgeModel>, seg: Seq<char>) -> Option<
    (EdgeModel, ValueModel),
>
    decreases params.len(),
{
    if params.len() == 0 {
        None
    } else {
        match type_match(params[0].ptype, seg) {
            Some(v) => Some((params[0], v)),
            None => params_match(params.drop_first(), seg),
        }
    }
}

/// A scan that fails on every edge before `k` and succeeds at `k` is what
/// `params_match` returns.
pub proof fn lemma_params_match_at(params: Seq<EdgeModel>, seg: Seq<char>, k: int, v: ValueModel)
    requires
        0 <= k < params.len(),
        forall|q: int| 0 <= q < k ==> type_match(#[trigger] params[q].ptype, seg) is None,
        type_match(params[k].ptype, seg) == Some(v),
    ensures
        params_match(params, seg) == Some((params[k], v)),
    decreases k,
{
    if k > 0 {
        assert forall|q: int|
            0 <= q < k - 1 implies type_match(
            #[trigger] params.drop_first()[q].ptype,
            seg,
        ) is None by {
            assert(params.drop_first()[q] == params[q + 1]);
        }
        assert(params.drop_first()[k - 1] == params[k]);
        lemma_params_match_at(params.drop_first(), seg, k - 1, v);
    }
}

/// A scan that fails on every edge finds no parameter match.
pub proof fn lemma_params_match_none(params: Seq<EdgeModel>, seg: Seq<char>)
    requires
        forall|q: int| 0 <= q < params.len() ==> type_match(#[trigger] params[q].ptype, seg) is None,
    ensures
        params_match(params, seg) is None,
    decreases params.len(),
{
    if params.len() > 0 {
        assert forall|q: int|
            0 <= q < params.drop_first().len() implies type_match(
            #[trigger] params.drop_first()[q].ptype,
            seg,
        ) is None by {
            assert(params.drop_first()[q] == params[q + 1]);
        }
        lemma_params_match_none(params.drop_first(), seg);
    }
}

/// Index of the first edge declaring type `t`, or `params.len()` when no
/// edge does.
pub open spec fn params_type_index(params: Seq<EdgeModel>, t: ParameterType) -> int
    decreases params.len(),
{
    if params.len() == 0 {
        0
    } else if params[0].ptype == t {
        0
    } else {
        1 + params_type_index(params.drop_first(), t)
    }
}

/// `params_type_index` points at the first edge of its type, or at the end.
pub proof fn lemma_params_type_index(params: Seq<EdgeModel>, t: ParameterType)
    ensures
        0 <= params_type_index(params, t) <= params.len(),
        params_type_index(params, t) < params.len() ==> params[params_type_index(params, t)].ptype
            == t,
        forall|j: int| 0 <= j < params_type_index(params, t) ==> params[j].ptype != t,
    decreases params.len(),
{
    if params.len() == 0 {
    } else if params[0].ptype == t {
    } else {
        lemma_params_type_index(params.drop_first(), t);
        assert forall|j: int| 0 <= j < params_type_index(params, t) implies params[j].ptype
            != t by {
            if j > 0 {
                assert(params.drop_first()[j - 1] == params[j]);
            }
        }
    }
}

/// A position whose edge has type `t`, with no earlier edge of that type, is
/// exactly `params_type_index`.
pub proof fn lemma_params_type_index_is(params: Seq<EdgeModel>, t: ParameterType, i: int)
    requires
        0 <= i <= params.len(),
        i < params.len() ==> params[i].ptype == t,
        i == params.len() ==> forall|j: int| 0 <= j < params.len() ==> params[j].ptype != t,
        forall|j: int| 0 <= j < i ==> params[j].ptype != t,
    ensures
        params_type_index(params, t) == i,
{
    lemma_params_type_index(params, t);
    if i < params.len() {
        if params_type_index(params, t) < i {
            assert(params[params_type_index(params, t)].ptype == t);
        }
    }
}

/// Where a new parameter edge is placed: before a trailing `String` edge,
/// otherwise at the end, so that `String` is always tried last.
pub open spec fn param_insert_pos(params: Seq<EdgeModel>) -> int {
    if params.len() > 0 && params.last().ptype == ParameterType::String {
        params.len() - 1
    } else {
        params.len() as int
    }
}

/// The method map and ordered captures that matching `segs[i..]` against the
/// subtree `m` yields, or `None` when the walk fails.  At each level the
/// static children are consulted first; a static hit commits the walk to
/// that child with no later fallback to a parameter edge.
pub open spec fn node_lookup(m: NodeModel, segs: Seq<Seq<char>>, i: int) -> Option<
    (Map<Method, u64>, Seq<CaptureModel>),
>
    decreases segs.len() - i,
{
    if i < 0 || i >= segs.len() {
        Some((m.routes, Seq::empty()))
    } else {
        let seg = segs[i];
        if m.statics.contains_key(seg) {
            node_lookup(m.statics[seg], segs, i + 1)
        } else {
            match params_match(m.params, seg) {
                None => None,
                Some((edge, v)) => match node_lookup(edge.node, segs, i + 1) {
                    None => None,
                    Some(deeper) => Some(
                        (
                            deeper.0,
                            seq![CaptureModel { name: edge.name, value: v }] + deeper.1,
                        ),
                    ),
                },
            }
        }
    }
}

/// The tree after registering `h` for `methods` under the pattern segments
/// `segs[i..]`, starting at node `m`.  Every visited node's priority is
/// bumped; a parameter edge inherits the pattern's name when it has none
/// yet.
pub open spec fn node_insert(
    m: NodeModel,
    segs: Seq<Seq<char>>,
    i: int,
    methods: Seq<Method>,
    h: u64,
) -> NodeModel
    decreases segs.len() - i,
{
    let m1 = NodeModel { priority: bump(m.priority), ..m };
    if i < 0 || i >= segs.len() {
        NodeModel { routes: routes_add(m1.routes, methods, h), ..m1 }
    } else {
        let seg = segs[i];
        if is_param_seg(seg) {
            let nm = spec_param_name(seg);
            let pt = spec_param_type(seg);
            let j = params_type_index(m1.params, pt);
            if j < m1.params.len() {
                let edge = m1.params[j];
                let edge2 = EdgeModel {
                    name: if edge.name is Some {
                        edge.name
                    } else {
                        Some(nm)
                    },
                    node: node_insert(edge.node, segs, i + 1, methods, h),
                    ..edge
                };
                NodeModel { params: m1.params.update(j, edge2), ..m1 }
            } else {
                let edge = EdgeModel {
                    ptype: pt,
                    name: Some(nm),
                    node: node_insert(empty_node(), segs, i + 1, methods, h),
                };
                NodeModel { params: m1.params.insert(param_insert_pos(m1.params), edge), ..m1 }
            }
        } else {
            let child = if m1.statics.contains_key(seg) {
                m1.statics[seg]
            } else {
                empty_node()
            };
            NodeModel {
                statics: m1.statics.insert(seg, node_insert(child, segs, i + 1, methods, h)),
                ..m1
            }
        }
    }
}

/// True when registering the pattern segments `segs[i..]` at node `m` would
/// meet an existing parameter edge of the same type whose name differs from
/// the pattern's: the one registration-time error.
pub open spec fn node_conflict(m: NodeModel, segs: Seq<Seq<char>>, i: int) -> bool
    decreases segs.len() - i,
{
    if i < 0 || i >= segs.len() {
        false
    } else {
        let seg = segs[i];
        if is_param_seg(seg) {
            let pt = spec_param_type(seg);
            let j = params_type_index(m.params, pt);
            if j < m.params.len() {
                let edge = m.params[j];
                (edge.name is Some && edge.name != Some(spec_param_name(seg))) || node_conflict(
                    edge.node,
                    segs,
                    i + 1,
                )
            } else {
                false
            }
        } else {
            if m.statics.contains_key(seg) {
                node_conflict(m.statics[seg], segs, i + 1)
            } else {
                false
            }
        }
    }
}

/// The values of a capture sequence, in matching order.
pub open spec fn cap_values(caps: Seq<CaptureModel>) -> Seq<ValueModel> {
    caps.map_values(|c: CaptureModel| c.value)
}

/// Fold the named captures into a name-to-value map, in matching order, a
/// later capture overwriting an earlier one of the same name.
pub open spec fn named_add(
    m: Map<Seq<char>, ValueModel>,
    caps: Seq<CaptureModel>,
) -> Map<Seq<char>, ValueModel>
    decreases caps.len(),
{
    if caps.len() == 0 {
        m
    } else {
        let m1 = match caps[0].name {
            Some(nm) => m.insert(nm, caps[0].value),
            None => m,
        };
        named_add(m1, caps.drop_first())
    }
}

/// The route-parameters model a capture sequence denotes.
pub open spec fn params_of_caps(caps: Seq<CaptureModel>) -> ParamsModel {
    ParamsModel { ordered: cap_values(caps), named: named_add(Map::empty(), caps) }
}

/// What a whole-tree lookup of `path` yields: the root's method map for an
/// empty path, otherwise the walk over the path's segments.
pub open spec fn spec_route_to(m: NodeModel, path: Seq<char>) -> Option<
    (Map<Method, u64>, ParamsModel),
> {
    if path.len() == 0 {
        Some((m.routes, ParamsModel::empty()))
    } else {
        match node_lookup(m, spec_split(path), 0) {
            None => None,
            Some(r) => Some((r.0, params_of_caps(r.1))),
        }
    }
}

/// True when registering `path` at the tree rooted in `m` fails.
pub open spec fn spec_add_conflict(m: NodeModel, path: Seq<char>) -> bool {
    let t = spec_trim(path);
    t.len() > 0 && node_conflict(m, spec_split(t), 0)
}

/// The tree after registering `h` for `methods` under `path`: an all-slash
/// path addresses the root's method map directly, any other path is trimmed,
/// split and inserted.
pub open spec fn spec_add_route(
    m: NodeModel,
    path: Seq<char>,
    methods: Seq<Method>,
    h: u64,
) -> NodeModel {
    let t = spec_trim(path);
    if t.len() == 0 {
        NodeModel { routes: routes_add(m.routes, methods, h), ..m }
    } else {
        node_insert(m, spec_split(t), 0, methods, h)
    }
}

/// Well-formedness of one node's parameter edges: each type occurs at most
/// once, and a `String` edge can only stand last, so numeric types are tried
/// first.
pub open spec fn params_wf(params: Seq<EdgeModel>) -> bool {
    &&& forall|a: int, b: int|
        0 <= a < b < params.len() ==> (#[trigger] params[a].ptype) != (#[trigger] params[b].ptype)
    &&& forall|a: int|
        0 <= a < params.len() - 1 ==> (#[trigger] params[a].ptype) != ParameterType::String
}

} // verus!
