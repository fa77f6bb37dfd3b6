//! Character-level helpers on which the matching rules are built.
//!
//! Names and patterns are compared character by character. The specifications
//! speak of `Seq<char>`, the view of a string; the executable helpers work on
//! `Vec<char>`, obtained once per string by [`chars_of`].

use vstd::prelude::*;

verus! {

/// What is left of `s` once its leading `c`s are dropped.
pub open spec fn trim_start(s: Seq<char>, c: char) -> Seq<char>
    decreases s.len(),
{
    if s.len() > 0 && s.first() == c {
        trim_start(s.drop_first(), c)
    } else {
        s
    }
}

/// Dropping a run of `c`s that starts at `from` and stops at `to` is the same
/// as trimming the leading `c`s of what starts at `from`.
pub proof fn lemma_trim_start_skips_run(s: Seq<char>, c: char, from: int, to: int)
    requires
        0 <= from <= to <= s.len(),
        forall|k: int| from <= k < to ==> s[k] == c,
        to < s.len() ==> s[to] != c,
    ensures
        trim_start(s.skip(from), c) == s.skip(to),
    decreases to - from,
{
    if from < to {
        assert(s.skip(from).first() == c);
        assert(s.skip(from).drop_first() =~= s.skip(from + 1));
        lemma_trim_start_skips_run(s, c, from + 1, to);
    } else if to < s.len() {
        assert(s.skip(from).first() != c);
    } else {
        assert(s.skip(from).len() == 0);
    }
}

/// The characters of `s`, in order.
pub fn chars_of(s: &str) -> (chars: Vec<char>)
    ensures
        chars@ == s@,
{
    let mut chars: Vec<char> = Vec::new();
    for c in it: s.chars()
        invariant
            chars@ == s@.take(it.index() as int),
            it.seq() == s@,
    {
        proof {
            assert(s@.take(it.index() + 1) =~= s@.take(it.index() as int).push(c));
        }
        chars.push(c);
    }
    proof {
        assert(s@.take(s@.len() as int) =~= s@);
    }
    chars
}

/// Whether `a` and `b` hold the same characters.
pub(crate) fn same_chars(a: &Vec<char>, b: &Vec<char>) -> (same: bool)
    ensures
        same == (a@ == b@),
{
    if a.len() != b.len() {
        return false;
    }
    let mut i: usize = 0;
    while i < a.len()
        invariant
            i <= a.len(),
            a.len() == b.len(),
            forall|k: int| 0 <= k < i ==> a@[k] == b@[k],
        decreases a.len() - i,
    {
        if a[i] != b[i] {
            return false;
        }
        i += 1;
    }
    proof {
        assert(a@ =~= b@);
    }
    true
}

/// Where `c` first occurs in `s`.
pub(crate) fn position_of_first(s: &Vec<char>, c: char) -> (found: Option<usize>)
    ensures
        found matches Some(i) ==> i < s.len() && s@.index_of_first(c) == Some(i as int),
        found is None ==> s@.index_of_first(c) is None,
{
    let mut i: usize = 0;
    while i < s.len()
        invariant
            i <= s.len(),
            forall|k: int| 0 <= k < i ==> s@[k] != c,
        decreases s.len() - i,
    {
        if s[i] == c {
            proof {
                s@.index_of_first_ensures(c);
            }
            return Some(i);
        }
        i += 1;
    }
    proof {
        s@.index_of_first_ensures(c);
    }
    None
}

/// Where `c` last occurs in `s`.
pub(crate) fn position_of_last(s: &Vec<char>, c: char) -> (found: Option<usize>)
    ensures
        found matches Some(i) ==> i < s.len() && s@.index_of_last(c) == Some(i as int),
        found is None ==> s@.index_of_last(c) is None,
{
    let mut i: usize = s.len();
    while i > 0
        invariant
            i <= s.len(),
            forall|k: int| i <= k < s.len() ==> s@[k] != c,
        decreases i,
    {
        i -= 1;
        if s[i] == c {
            proof {
                s@.index_of_last_ensures(c);
            }
            return Some(i);
        }
    }
    proof {
        s@.index_of_last_ensures(c);
    }
    None
}

/// The end of the run of `c`s that starts at `from`.
pub(crate) fn end_of_run(s: &Vec<char>, c: char, from: usize) -> (to: usize)
    requires
        from <= s.len(),
    ensures
        from <= to <= s.len(),
        s@.skip(to as int) == trim_start(s@.skip(from as int), c),
{
    let mut to: usize = from;
    while to < s.len() && s[to] == c
        invariant
            from <= to <= s.len(),
            forall|k: int| from <= k < to ==> s@[k] == c,
        decreases s.len() - to,
    {
        to += 1;
    }
    proof {
        lemma_trim_start_skips_run(s@, c, from as int, to as int);
    }
    to
}

/// Whether `name` ends with what `pattern` holds from `from` on.
pub(crate) fn ends_with_tail(name: &Vec<char>, pattern: &Vec<char>, from: usize) -> (ends: bool)
    requires
        from <= pattern.len(),
    ensures
        ends == pattern@.skip(from as int).is_suffix_of(name@),
{
    let tail: usize = pattern.len() - from;
    if tail > name.len() {
        return false;
    }
    let start: usize = name.len() - tail;
    let ghost suffix = pattern@.skip(from as int);
    let ghost end = name@.subrange(start as int, name@.len() as int);
    let mut k: usize = 0;
    while k < tail
        invariant
            k <= tail,
            tail == pattern.len() - from,
            start == name.len() - tail,
            suffix == pattern@.skip(from as int),
            end == name@.subrange(start as int, name@.len() as int),
            forall|j: int| 0 <= j < k ==> suffix[j] == end[j],
        decreases tail - k,
    {
        if name[start + k] != pattern[from + k] {
            proof {
                assert(suffix[k as int] != end[k as int]);
            }
            return false;
        }
        k += 1;
    }
    proof {
        assert(suffix =~= end);
    }
    true
}

} // verus!
