//! Extracted route parameters: the per-lookup output of a parameterized
//! match, kept both as an insertion-ordered sequence and as a name-to-value
//! mapping.

use vstd::prelude::*;

verus! {

/// One extracted parameter value, tagged with the type that parsed it.
#[derive(Clone, Debug)]
pub enum Parameter {
    String(String),
    U32(u32),
    I32(i32),
}

/// The mathematical value of a [`Parameter`].
pub ghost enum ValueModel {
    Str(Seq<char>),
    U32(u32),
    I32(i32),
}

impl View for Parameter {
    type V = ValueModel;

    open spec fn view(&self) -> ValueModel {
        match self {
            Parameter::String(s) => ValueModel::Str(s@),
            Parameter::U32(v) => ValueModel::U32(*v),
            Parameter::I32(v) => ValueModel::I32(*v),
        }
    }
}

/// The `i32` a value holds, if it is one.
pub open spec fn as_i32(v: ValueModel) -> Option<i32> {
    match v {
        ValueModel::I32(x) => Some(x),
        _ => None,
    }
}

/// The string a value holds, if it is one.
pub open spec fn as_str_val(v: ValueModel) -> Option<Seq<char>> {
    match v {
        ValueModel::Str(s) => Some(s),
        _ => None,
    }
}

/// The mathematical content of a [`RouteParameters`]: the values in the
/// order their segments were matched, and the name-to-value mapping for the
/// segments whose pattern bound a name.
#[verifier::ext_equal]
pub ghost struct ParamsModel {
    pub ordered: Seq<ValueModel>,
    pub named: Map<Seq<char>, ValueModel>,
}

impl ParamsModel {
    /// The model of freshly created, empty route parameters.
    pub open spec fn empty() -> ParamsModel {
        ParamsModel { ordered: Seq::empty(), named: Map::empty() }
    }
}

/// The parameters extracted by one route lookup.
pub struct RouteParameters {
    named: Vec<(String, Parameter)>,
    ordered: Vec<Parameter>,
}

/// The name-to-value map an association list denotes; later entries
/// overwrite earlier ones.
spec fn named_map(entries: Seq<(String, Parameter)>) -> Map<Seq<char>, ValueModel>
    decreases entries.len(),
{
    if entries.len() == 0 {
        Map::empty()
    } else {
        named_map(entries.drop_last()).insert(entries.last().0@, entries.last().1@)
    }
}

impl View for RouteParameters {
    type V = ParamsModel;

    closed spec fn view(&self) -> ParamsModel {
        ParamsModel {
            ordered: self.ordered@.map_values(|p: Parameter| p@),
            named: named_map(self.named@),
        }
    }
}

/// A name in the association list is in the denoted map.
proof fn lemma_named_map_contains(entries: Seq<(String, Parameter)>, i: int)
    requires
        0 <= i < entries.len(),
    ensures
        named_map(entries).contains_key(entries[i].0@),
    decreases entries.len(),
{
    if i < entries.len() - 1 {
        lemma_named_map_contains(entries.drop_last(), i);
    }
}

/// With distinct names, the denoted map reads back each entry's value.
proof fn lemma_named_map_index(entries: Seq<(String, Parameter)>, i: int)
    requires
        0 <= i < entries.len(),
        forall|a: int, b: int|
            0 <= a < b < entries.len() ==> (#[trigger] entries[a].0@) != (#[trigger] entries[b].0@),
    ensures
        named_map(entries).contains_key(entries[i].0@),
        named_map(entries)[entries[i].0@] == entries[i].1@,
    decreases entries.len(),
{
    lemma_named_map_contains(entries, i);
    if i < entries.len() - 1 {
        lemma_named_map_index(entries.drop_last(), i);
    }
}

/// A name missing from the association list is not in the denoted map.
proof fn lemma_named_map_absent(entries: Seq<(String, Parameter)>, name: Seq<char>)
    requires
        forall|a: int| 0 <= a < entries.len() ==> (#[trigger] entries[a].0@) != name,
    ensures
        !named_map(entries).contains_key(name),
    decreases entries.len(),
{
    if entries.len() > 0 {
        lemma_named_map_absent(entries.drop_last(), name);
    }
}

impl RouteParameters {
    /// The stored names are distinct, so the association list denotes its
    /// map faithfully.
    pub closed spec fn well_formed(&self) -> bool {
        forall|a: int, b: int|
            0 <= a < b < self.named@.len() ==> (#[trigger] self.named@[a].0@) != (
            #[trigger] self.named@[b].0@)
    }

    /// Fresh, empty route parameters.
    pub fn new() -> (r: RouteParameters)
        ensures
            r.well_formed(),
            r@ == ParamsModel::empty(),
    {
        let r = RouteParameters { named: Vec::new(), ordered: Vec::new() };
        proof {
            assert(r@.ordered =~= Seq::<ValueModel>::empty());
            assert(r@ =~= ParamsModel::empty());
        }
        r
    }

    /// Append a value without a name: it joins the ordered sequence only.
    pub fn push_unnamed(&mut self, value: Parameter)
        requires
            old(self).well_formed(),
        ensures
            final(self).well_formed(),
            final(self)@.ordered == old(self)@.ordered.push(value@),
            final(self)@.named == old(self)@.named,
    {
        let ghost prev = self.ordered@;
        self.ordered.push(value);
        proof {
            assert(self@.ordered =~= prev.map_values(|p: Parameter| p@).push(
                self.ordered@.last()@));
        }
    }

    /// Append a named value: it joins the ordered sequence and binds (or
    /// overwrites) its name in the mapping.
    pub fn push_named(&mut self, name: &str, value: Parameter)
        requires
            old(self).well_formed(),
        ensures
            final(self).well_formed(),
            final(self)@.ordered == old(self)@.ordered.push(value@),
            final(self)@.named == old(self)@.named.insert(name@, value@),
    {
        let duplicate = match &value {
            Parameter::String(s) => Parameter::String(s.clone()),
            Parameter::U32(v) => Parameter::U32(*v),
            Parameter::I32(v) => Parameter::I32(*v),
        };
        proof {
            assert(duplicate@ == value@);
        }
        let ghost prev_ordered = self.ordered@;
        self.ordered.push(value);
        proof {
            assert(self@.ordered =~= prev_ordered.map_values(|p: Parameter| p@).push(
                self.ordered@.last()@));
        }
        let ghost pushed_ordered = self.ordered@;
        let owned = name.to_owned();
        let mut i: usize = 0;
        let n = self.named.len();
        while i < n
            invariant
                i <= n,
                n == self.named@.len(),
                owned@ == name@,
                duplicate@ == value@,
                forall|k: int| 0 <= k < i ==> (#[trigger] self.named@[k].0@) != name@,
                old(self).well_formed(),
                self.named@ == old(self).named@,
                self.ordered@ == pushed_ordered,
                self@.ordered == old(self)@.ordered.push(value@),
            decreases n - i,
        {
            if crate::segments::str_eq(self.named[i].0.as_str(), name) {
                let ghost prev = self.named@;
                let _ = self.named.remove(i);
                self.named.insert(i, (owned, duplicate));
                proof {
                    assert(self.named@ == prev.remove(i as int).insert(i as int, (
                        owned,
                        duplicate,
                    )));
                    assert(self.named@[i as int] == (owned, duplicate));
                    assert(self.named@.len() == prev.len());
                    assert(self.named@[i as int].0@ == prev[i as int].0@);
                    assert(self.named@[i as int].1@ == value@);
                    assert forall|k: int|
                        0 <= k < prev.len() && k != i implies self.named@[k] == prev[k] by {
                        if k < i {
                            assert(prev.remove(i as int)[k] == prev[k]);
                        } else {
                            assert(prev.remove(i as int)[k - 1] == prev[k]);
                        }
                    }
                    lemma_named_update(prev, self.named@, i as int);
                    assert(named_map(self.named@) =~= named_map(prev).insert(name@, value@));
                    assert forall|a: int, b: int|
                        0 <= a < b < self.named@.len() implies (#[trigger] self.named@[a].0@) != (
                    #[trigger] self.named@[b].0@) by {
                        assert(prev[a].0@ != prev[b].0@);
                        assert(self.named@[a].0@ == prev[a].0@);
                        assert(self.named@[b].0@ == prev[b].0@);
                    }
                }
                return ;
            }
            i += 1;
        }
        let ghost prev = self.named@;
        self.named.push((owned, duplicate));
        proof {
            assert(self.named@.drop_last() =~= prev);
            assert(named_map(self.named@) =~= named_map(prev).insert(name@, value@));
            assert forall|a: int, b: int| 0 <= a < b < self.named@.len() implies (
            #[trigger] self.named@[a].0@) != (#[trigger] self.named@[b].0@) by {
                if b == self.named@.len() - 1 {
                    assert(self.named@[a].0@ != name@);
                }
            }
        }
    }

    /// The first extracted value, when it is a signed integer.
    pub fn first_i32(&self) -> (r: Option<i32>)
        ensures
            r == (if self@.ordered.len() > 0 {
                as_i32(self@.ordered[0])
            } else {
                None::<i32>
            }),
    {
        if self.ordered.len() == 0 {
            return None;
        }
        match &self.ordered[0] {
            Parameter::I32(v) => Some(*v),
            _ => None,
        }
    }

    /// The value bound to `name`, when it is a signed integer.
    pub fn get_i32(&self, name: &str) -> (r: Option<i32>)
        requires
            self.well_formed(),
        ensures
            r == (if self@.named.contains_key(name@) {
                as_i32(self@.named[name@])
            } else {
                None::<i32>
            }),
    {
        let n = self.named.len();
        let mut i: usize = 0;
        while i < n
            invariant
                i <= n,
                n == self.named@.len(),
                self.well_formed(),
                forall|k: int| 0 <= k < i ==> (#[trigger] self.named@[k].0@) != name@,
            decreases n - i,
        {
            if crate::segments::str_eq(self.named[i].0.as_str(), name) {
                proof {
                    lemma_named_map_index(self.named@, i as int);
                }
                match &self.named[i].1 {
                    Parameter::I32(v) => {
                        return Some(*v);
                    },
                    _ => {
                        return None;
                    },
                }
            }
            i += 1;
        }
        proof {
            lemma_named_map_absent(self.named@, name@);
        }
        None
    }

    /// The value bound to `name`, when it is a string.
    pub fn get_string(&self, name: &str) -> (r: Option<String>)
        requires
            self.well_formed(),
        ensures
            ({
                let expected = if self@.named.contains_key(name@) {
                    as_str_val(self@.named[name@])
                } else {
                    None::<Seq<char>>
                };
                match r {
                    Some(s) => expected == Some(s@),
                    None => expected is None,
                }
            }),
    {
        let n = self.named.len();
        let mut i: usize = 0;
        while i < n
            invariant
                i <= n,
                n == self.named@.len(),
                self.well_formed(),
                forall|k: int| 0 <= k < i ==> (#[trigger] self.named@[k].0@) != name@,
            decreases n - i,
        {
            if crate::segments::str_eq(self.named[i].0.as_str(), name) {
                proof {
                    lemma_named_map_index(self.named@, i as int);
                }
                match &self.named[i].1 {
                    Parameter::String(s) => {
                        return Some(s.clone());
                    },
                    _ => {
                        return None;
                    },
                }
            }
            i += 1;
        }
        proof {
            lemma_named_map_absent(self.named@, name@);
        }
        None
    }
}

/// Replacing one entry of a distinct-name association list, keeping its
/// name, updates the denoted map at that name.
proof fn lemma_named_update(
    entries: Seq<(String, Parameter)>,
    updated: Seq<(String, Parameter)>,
    i: int,
)
    requires
        0 <= i < entries.len(),
        updated.len() == entries.len(),
        updated[i].0@ == entries[i].0@,
        forall|k: int| 0 <= k < entries.len() && k != i ==> #[trigger] updated[k] == entries[k],
        forall|a: int, b: int|
            0 <= a < b < entries.len() ==> (#[trigger] entries[a].0@) != (#[trigger] entries[b].0@),
    ensures
        named_map(updated) =~= named_map(entries).insert(updated[i].0@, updated[i].1@),
    decreases entries.len(),
{
    let key = updated[i].0@;
    let v = updated[i].1@;
    if i == entries.len() - 1 {
        assert(updated.drop_last() =~= entries.drop_last());
        assert(named_map(updated) =~= named_map(entries.drop_last()).insert(key, v));
        assert(named_map(entries) == named_map(entries.drop_last()).insert(
            entries[i].0@,
            entries[i].1@,
        ));
        assert(named_map(entries).insert(key, v) =~= named_map(entries.drop_last()).insert(
            key,
            v,
        ));
    } else {
        lemma_named_update(entries.drop_last(), updated.drop_last(), i);
        assert(updated.last() == entries.last());
        assert(entries.last().0@ != key);
        assert(updated.drop_last()[i] == updated[i]);
        assert(named_map(updated) =~= named_map(entries.drop_last()).insert(key, v).insert(
            entries.last().0@,
            entries.last().1@,
        ));
        assert(named_map(entries).insert(key, v) =~= named_map(entries.drop_last()).insert(
            entries.last().0@,
            entries.last().1@,
        ).insert(key, v));
        assert(named_map(entries.drop_last()).insert(key, v).insert(
            entries.last().0@,
            entries.last().1@,
        ) =~= named_map(entries.drop_last()).insert(entries.last().0@, entries.last().1@).insert(
            key,
            v,
        ));
    }
}

} // verus!
