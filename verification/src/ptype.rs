//! The parameter type taxonomy: the closed set of types a path parameter can
//! declare, and the parsing of a `:name{type}` placeholder into its bare name
//! and its classified type.
//!
//! An unrecognized or absent type annotation deliberately falls back to
//! `String`: a typo in the annotation degrades to a string match instead of
//! failing registration.

use vstd::prelude::*;

use crate::segments::{first_index, lemma_first_index_is};

verus! {

/// The type a parameter segment is matched and parsed as.  The two numeric
/// types rank equally and both rank before `String` when a node's parameter
/// children are ordered for lookup.
#[derive(Clone, Copy, Debug, PartialEq, Eq, Structural)]
pub enum ParameterType {
    U32,
    I32,
    String,
}

/// The placeholder token with its leading `:` sigils removed.
pub open spec fn spec_strip_sigil(s: Seq<char>) -> Seq<char>
    decreases s.len(),
{
    if s.len() > 0 && s[0] == ':' {
        spec_strip_sigil(s.drop_first())
    } else {
        s
    }
}

/// The parameter type a `{...}` annotation names.
pub open spec fn spec_annotation_type(a: Seq<char>) -> ParameterType {
    if a == "u32"@ {
        ParameterType::U32
    } else if a == "i32"@ {
        ParameterType::I32
    } else {
        ParameterType::String
    }
}

/// The bare name of a placeholder token: what stands between the sigil and
/// the first `{`, or the whole stripped token when there is no `{`.
pub open spec fn spec_param_name(s: Seq<char>) -> Seq<char> {
    let t = spec_strip_sigil(s);
    let lb = first_index(t, '{');
    if lb < t.len() {
        t.subrange(0, lb)
    } else {
        t
    }
}

/// The declared type of a placeholder token: the annotation between the
/// first `{` and the first `}` when both are present and ordered, otherwise
/// `String`.
pub open spec fn spec_param_type(s: Seq<char>) -> ParameterType {
    let t = spec_strip_sigil(s);
    let lb = first_index(t, '{');
    let rb = first_index(t, '}');
    if lb < t.len() && rb < t.len() && lb + 1 <= rb {
        spec_annotation_type(t.subrange(lb + 1, rb))
    } else {
        ParameterType::String
    }
}

impl ParameterType {
    /// Split a placeholder token such as `:id{i32}` into its bare name and
    /// its classified parameter type.
    pub fn parse_name(name: &str) -> (r: (String, ParameterType))
        ensures
            r.0@ == spec_param_name(name@),
            r.1 == spec_param_type(name@),
    {
        let len = name.unicode_len();
        let mut i: usize = 0;
        proof {
            assert(name@.subrange(0, len as int) =~= name@);
        }
        while i < len && name.get_char(i) == ':'
            invariant
                i <= len,
                len == name@.len(),
                spec_strip_sigil(name@) == spec_strip_sigil(
                    name@.subrange(i as int, len as int),
                ),
            decreases len - i,
        {
            proof {
                let sub = name@.subrange(i as int, len as int);
                assert(sub.drop_first() =~= name@.subrange(i as int + 1, len as int));
            }
            i += 1;
        }
        let t = name.substring_char(i, len);
        proof {
            assert(spec_strip_sigil(t@) == t@);
            assert(spec_strip_sigil(name@) == t@);
        }
        let tlen = len - i;
        let lb = find_char(t, tlen, '{');
        let rb = find_char(t, tlen, '}');
        let bare = if lb < tlen {
            t.substring_char(0, lb).to_owned()
        } else {
            t.to_owned()
        };
        let ptype = if lb < tlen && rb < tlen && lb + 1 <= rb {
            let annot = t.substring_char(lb + 1, rb);
            if crate::segments::str_eq(annot, "u32") {
                ParameterType::U32
            } else if crate::segments::str_eq(annot, "i32") {
                ParameterType::I32
            } else {
                ParameterType::String
            }
        } else {
            ParameterType::String
        };
        (bare, ptype)
    }
}

/// Scan for the first occurrence of `c`, returning `len` when absent.
fn find_char(s: &str, len: usize, c: char) -> (r: usize)
    requires
        len == s@.len(),
    ensures
        r == first_index(s@, c),
{
    let mut j: usize = 0;
    while j < len && s.get_char(j) != c
        invariant
            j <= len,
            len == s@.len(),
            forall|k: int| 0 <= k < j ==> s@[k] != c,
        decreases len - j,
    {
        j += 1;
    }
    proof {
        lemma_first_index_is(s@, c, j as int);
    }
    j
}

} // verus!
