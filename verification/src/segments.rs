//! Path-segment handling: trimming `/` from the ends of a path and splitting
//! it into `/`-separated segments, together with the specification functions
//! that the routing contracts are written against.

use vstd::prelude::*;

verus! {

/// Index of the first occurrence of `c` in `s`, or `s.len()` when `s` does
/// not contain `c`.
pub open spec fn first_index(s: Seq<char>, c: char) -> int
    decreases s.len(),
{
    if s.len() == 0 {
        0
    } else if s[0] == c {
        0
    } else {
        1 + first_index(s.drop_first(), c)
    }
}

/// `first_index` points at the first occurrence of `c`, or at `s.len()`.
pub proof fn lemma_first_index(s: Seq<char>, c: char)
    ensures
        0 <= first_index(s, c) <= s.len(),
        first_index(s, c) < s.len() ==> s[first_index(s, c)] == c,
        forall|j: int| 0 <= j < first_index(s, c) ==> s[j] != c,
    decreases s.len(),
{
    if s.len() == 0 {
    } else if s[0] == c {
    } else {
        lemma_first_index(s.drop_first(), c);
        assert forall|j: int| 0 <= j < first_index(s, c) implies s[j] != c by {
            if j > 0 {
                assert(s.drop_first()[j - 1] == s[j]);
            }
        }
    }
}

/// A position with `c` at it and no `c` before it is exactly `first_index`.
pub proof fn lemma_first_index_is(s: Seq<char>, c: char, i: int)
    requires
        0 <= i <= s.len(),
        i < s.len() ==> s[i] == c,
        i == s.len() ==> forall|j: int| 0 <= j < s.len() ==> s[j] != c,
        forall|j: int| 0 <= j < i ==> s[j] != c,
    ensures
        first_index(s, c) == i,
{
    lemma_first_index(s, c);
    if i < s.len() {
        if first_index(s, c) < i {
            assert(s[first_index(s, c)] == c);
        }
    }
}

/// `s` with every leading `/` removed.
pub open spec fn spec_trim_start(s: Seq<char>) -> Seq<char>
    decreases s.len(),
{
    if s.len() > 0 && s[0] == '/' {
        spec_trim_start(s.drop_first())
    } else {
        s
    }
}

/// `s` with every trailing `/` removed.
pub open spec fn spec_trim_end(s: Seq<char>) -> Seq<char>
    decreases s.len(),
{
    if s.len() > 0 && s.last() == '/' {
        spec_trim_end(s.drop_last())
    } else {
        s
    }
}

/// `s` with every leading and trailing `/` removed.
pub open spec fn spec_trim(s: Seq<char>) -> Seq<char> {
    spec_trim_end(spec_trim_start(s))
}

/// The `/`-separated segments of `s`.  Splitting never yields an empty
/// sequence: a string without `/` is one segment, and each `/` separates two
/// (possibly empty) segments.
pub open spec fn spec_split(s: Seq<char>) -> Seq<Seq<char>>
    decreases s.len(),
{
    let i = first_index(s, '/');
    if 0 <= i < s.len() {
        seq![s.subrange(0, i)] + spec_split(s.subrange(i + 1, s.len() as int))
    } else {
        seq![s]
    }
}

/// The views of a sequence of owned segment strings.
pub open spec fn seg_views(v: Seq<String>) -> Seq<Seq<char>> {
    v.map_values(|s: String| s@)
}

/// Character-by-character string equality, with its exact meaning.
pub fn str_eq(a: &str, b: &str) -> (r: bool)
    ensures
        r == (a@ == b@),
{
    let alen = a.unicode_len();
    let blen = b.unicode_len();
    if alen != blen {
        proof {
            assert(a@ != b@);
        }
        return false;
    }
    let mut i: usize = 0;
    while i < alen
        invariant
            i <= alen,
            alen == a@.len(),
            alen == b@.len(),
            forall|j: int| 0 <= j < i ==> a@[j] == b@[j],
        decreases alen - i,
    {
        if a.get_char(i) != b.get_char(i) {
            return false;
        }
        i += 1;
    }
    proof {
        assert(a@ =~= b@);
    }
    true
}

/// Remove the leading `/` characters of `s`.
pub fn trim_start_slashes<'a>(s: &'a str) -> (r: &'a str)
    ensures
        r@ == spec_trim_start(s@),
{
    let len = s.unicode_len();
    let mut i: usize = 0;
    proof {
        assert(s@.subrange(0, len as int) =~= s@);
    }
    while i < len && s.get_char(i) == '/'
        invariant
            i <= len,
            len == s@.len(),
            spec_trim_start(s@) == spec_trim_start(s@.subrange(i as int, len as int)),
        decreases len - i,
    {
        proof {
            let sub = s@.subrange(i as int, len as int);
            assert(sub.drop_first() =~= s@.subrange(i as int + 1, len as int));
        }
        i += 1;
    }
    proof {
        let sub = s@.subrange(i as int, len as int);
        assert(spec_trim_start(sub) == sub);
    }
    s.substring_char(i, len)
}

/// Remove the leading and trailing `/` characters of `s`.
pub fn trim_slashes<'a>(s: &'a str) -> (r: &'a str)
    ensures
        r@ == spec_trim(s@),
{
    let len = s.unicode_len();
    let mut i: usize = 0;
    proof {
        assert(s@.subrange(0, len as int) =~= s@);
    }
    while i < len && s.get_char(i) == '/'
        invariant
            i <= len,
            len == s@.len(),
            spec_trim_start(s@) == spec_trim_start(s@.subrange(i as int, len as int)),
        decreases len - i,
    {
        proof {
            let sub = s@.subrange(i as int, len as int);
            assert(sub.drop_first() =~= s@.subrange(i as int + 1, len as int));
        }
        i += 1;
    }
    proof {
        let sub = s@.subrange(i as int, len as int);
        assert(spec_trim_start(sub) == sub);
        assert(spec_trim_start(s@) == s@.subrange(i as int, len as int));
    }
    let mut j: usize = len;
    while j > i && s.get_char(j - 1) == '/'
        invariant
            i <= j <= len,
            len == s@.len(),
            spec_trim_start(s@) == s@.subrange(i as int, len as int),
            spec_trim_end(s@.subrange(i as int, len as int)) == spec_trim_end(
                s@.subrange(i as int, j as int),
            ),
        decreases j,
    {
        proof {
            let sub = s@.subrange(i as int, j as int);
            assert(sub.last() == s@[j - 1]);
            assert(sub.drop_last() =~= s@.subrange(i as int, j as int - 1));
        }
        j -= 1;
    }
    proof {
        let sub = s@.subrange(i as int, j as int);
        if sub.len() > 0 {
            assert(sub.last() == s@[j - 1]);
        }
        assert(spec_trim_end(sub) == sub);
    }
    s.substring_char(i, j)
}

/// Split `s` at every `/` into owned segment strings.
pub fn split_slash(s: &str) -> (r: Vec<String>)
    ensures
        seg_views(r@) == spec_split(s@),
{
    let len = s.unicode_len();
    let mut out: Vec<String> = Vec::new();
    let mut pos: usize = 0;
    proof {
        assert(s@.subrange(0, len as int) =~= s@);
        assert(seg_views(out@) =~= Seq::<Seq<char>>::empty());
    }
    loop
        invariant
            pos <= len,
            len == s@.len(),
            spec_split(s@) == seg_views(out@) + spec_split(s@.subrange(pos as int, len as int)),
        decreases len - pos + 1,
    {
        let mut j: usize = pos;
        while j < len && s.get_char(j) != '/'
            invariant
                pos <= j <= len,
                len == s@.len(),
                forall|k: int| pos <= k < j ==> s@[k] != '/',
            decreases len - j,
        {
            j += 1;
        }
        let seg = s.substring_char(pos, j).to_owned();
        let ghost rest = s@.subrange(pos as int, len as int);
        proof {
            assert forall|k: int| 0 <= k < j - pos implies rest[k] != '/' by {
                assert(rest[k] == s@[pos + k]);
            }
            if j < len {
                assert(rest[j - pos] == s@[j as int]);
            }
            lemma_first_index_is(rest, '/', j - pos);
            assert(rest.subrange(0, j - pos) =~= s@.subrange(pos as int, j as int));
        }
        out.push(seg);
        proof {
            assert(seg_views(out@) =~= seg_views(out@.drop_last()) + seq![s@.subrange(
                pos as int, j as int)]);
        }
        if j < len {
            proof {
                assert(rest.subrange(j - pos + 1, rest.len() as int) =~= s@.subrange(
                    j as int + 1, len as int));
                assert(spec_split(rest) == seq![s@.subrange(pos as int, j as int)] + spec_split(
                    s@.subrange(j as int + 1, len as int)));
            }
            pos = j + 1;
        } else {
            proof {
                assert(spec_split(rest) == seq![rest]);
                assert(rest =~= s@.subrange(pos as int, j as int));
            }
            return out;
        }
    }
}

} // verus!
