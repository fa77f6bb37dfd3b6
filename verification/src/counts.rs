//! Line counts by language.

use vstd::prelude::*;

verus! {

/// The lines counted for `language`; none where it was never counted.
pub open spec fn lines_of(counts: Map<Seq<char>, nat>, language: Seq<char>) -> nat {
    if counts.contains_key(language) {
        counts[language]
    } else {
        0
    }
}

/// `counts` once `lines` more lines are counted for `language`.
pub open spec fn credited(counts: Map<Seq<char>, nat>, language: Seq<char>, lines: nat) -> Map<
    Seq<char>,
    nat,
> {
    counts.insert(language, lines_of(counts, language) + lines)
}

/// The sum of two counts: every language of either, with the lines of both.
pub open spec fn merged(a: Map<Seq<char>, nat>, b: Map<Seq<char>, nat>) -> Map<Seq<char>, nat> {
    Map::new(
        |language: Seq<char>| a.contains_key(language) || b.contains_key(language),
        |language: Seq<char>| lines_of(a, language) + lines_of(b, language),
    )
}

/// Whether every count of `counts` can be held in 64 bits.
pub open spec fn fits(counts: Map<Seq<char>, nat>) -> bool {
    forall|language: Seq<char>| #[trigger] lines_of(counts, language) <= u64::MAX
}

/// Merging does not depend on the order of its two sides.
pub proof fn lemma_merged_commutes(a: Map<Seq<char>, nat>, b: Map<Seq<char>, nat>)
    ensures
        merged(a, b) == merged(b, a),
{
    assert(merged(a, b) =~= merged(b, a));
}

/// Merging three counts gives the same whichever two are merged first.
pub proof fn lemma_merged_associates(
    a: Map<Seq<char>, nat>,
    b: Map<Seq<char>, nat>,
    c: Map<Seq<char>, nat>,
)
    ensures
        merged(merged(a, b), c) == merged(a, merged(b, c)),
{
    assert(merged(merged(a, b), c) =~= merged(a, merged(b, c)));
}

/// Merging with empty counts changes nothing.
pub proof fn lemma_merged_empty(a: Map<Seq<char>, nat>)
    ensures
        merged(a, Map::empty()) == a,
        merged(Map::empty(), a) == a,
{
    assert(merged(a, Map::empty()) =~= a);
    assert(merged(Map::empty(), a) =~= a);
}

/// Merging is additive: a language is in the sum when it is in either side,
/// and its lines there are those of both sides together.
pub proof fn lemma_merged_adds(a: Map<Seq<char>, nat>, b: Map<Seq<char>, nat>, language: Seq<char>)
    ensures
        merged(a, b).contains_key(language) <==> a.contains_key(language) || b.contains_key(
            language,
        ),
        lines_of(merged(a, b), language) == lines_of(a, language) + lines_of(b, language),
{
}

/// A count grew past what 64 bits can hold.
#[derive(Clone, Copy, Debug, PartialEq, Eq)]
pub struct CountOverflow;

/// The lines counted for one language.
#[derive(Clone, Debug)]
pub struct Tally {
    pub language: String,
    pub lines: u64,
}

/// Line counts by language. A language is listed once it was counted, even
/// with no line to its name.
#[derive(Debug)]
pub struct LanguageCounts {
    pub(crate) entries: Vec<Tally>,
}

/// Whether no language is named twice in `entries`.
spec fn distinct_languages(entries: Seq<Tally>) -> bool {
    forall|i: int, j: int|
        0 <= i < j < entries.len() ==> (#[trigger] entries[i]).language@ != (
        #[trigger] entries[j]).language@
}

/// Whether `entries` names `language` at `i`.
spec fn names_at(entries: Seq<Tally>, language: Seq<char>, i: int) -> bool {
    0 <= i < entries.len() && entries[i].language@ == language
}

/// The counts that `entries` lists, the first entry of a language deciding.
spec fn counts_of(entries: Seq<Tally>) -> Map<Seq<char>, nat> {
    Map::new(
        |language: Seq<char>| exists|i: int| names_at(entries, language, i),
        |language: Seq<char>| entries[choose|i: int| names_at(entries, language, i)].lines as nat,
    )
}

/// Where no language is named twice, the entry that names a language holds
/// its count.
proof fn lemma_counts_of_entry(entries: Seq<Tally>, i: int)
    requires
        distinct_languages(entries),
        0 <= i < entries.len(),
    ensures
        counts_of(entries).contains_key(entries[i].language@),
        counts_of(entries)[entries[i].language@] == entries[i].lines,
{
    let language = entries[i].language@;
    assert(names_at(entries, language, i));
    let chosen = choose|k: int| names_at(entries, language, k);
    assert(chosen == i);
}

/// Listing a language that was not listed before adds it to the counts.
proof fn lemma_counts_of_push(before: Seq<Tally>, added: Tally)
    requires
        distinct_languages(before),
        !counts_of(before).contains_key(added.language@),
    ensures
        distinct_languages(before.push(added)),
        counts_of(before.push(added)) == counts_of(before).insert(
            added.language@,
            added.lines as nat,
        ),
{
    let after = before.push(added);
    let last = before.len() as int;
    assert forall|i: int, j: int| 0 <= i < j < after.len() implies (#[trigger] after[i]).language@
        != (#[trigger] after[j]).language@ by {
        assert(after[i] == before[i]);
        if j == last {
            assert(names_at(before, after[i].language@, i));
        } else {
            assert(after[j] == before[j]);
        }
    }
    let expected = counts_of(before).insert(added.language@, added.lines as nat);
    assert(names_at(after, added.language@, last));
    assert forall|l: Seq<char>| #[trigger] counts_of(after).contains_key(l) implies (
    expected.contains_key(l) && counts_of(after)[l] == expected[l]) by {
        let k = choose|k: int| names_at(after, l, k);
        lemma_counts_of_entry(after, k);
        if k < last {
            assert(names_at(before, l, k));
            lemma_counts_of_entry(before, k);
        }
    }
    assert forall|l: Seq<char>| #[trigger] counts_of(before).contains_key(l) implies counts_of(
        after,
    ).contains_key(l) by {
        let k = choose|k: int| names_at(before, l, k);
        assert(names_at(after, l, k));
    }
    assert(counts_of(after) =~= expected);
}

/// Changing the lines of one entry changes the count of its language alone.
proof fn lemma_counts_of_update(before: Seq<Tally>, i: int, after: Seq<Tally>)
    requires
        distinct_languages(before),
        0 <= i < before.len(),
        after.len() == before.len(),
        forall|k: int| 0 <= k < before.len() ==> (#[trigger] after[k]).language == before[k].language,
        forall|k: int| 0 <= k < before.len() && k != i ==> (#[trigger] after[k]).lines == before[k].lines,
    ensures
        distinct_languages(after),
        counts_of(after) == counts_of(before).insert(before[i].language@, after[i].lines as nat),
{
    let expected = counts_of(before).insert(before[i].language@, after[i].lines as nat);
    assert forall|l: Seq<char>, k: int| names_at(after, l, k) <==> names_at(before, l, k) by {}
    assert(names_at(before, before[i].language@, i));
    assert forall|l: Seq<char>| #[trigger] counts_of(after).contains_key(l) implies counts_of(
        after,
    )[l] == expected[l] by {
        let k = choose|k: int| names_at(after, l, k);
        lemma_counts_of_entry(after, k);
        lemma_counts_of_entry(before, k);
    }
    assert(counts_of(after) =~= expected);
}

impl LanguageCounts {
    #[verifier::type_invariant]
    spec fn well_formed(&self) -> bool {
        distinct_languages(self.entries@)
    }

    /// The counts as a map from a language's name to its lines.
    pub closed spec fn view(&self) -> Map<Seq<char>, nat> {
        counts_of(self.entries@)
    }

    /// Every count that is held fits in 64 bits.
    pub proof fn lemma_fits(&self)
        ensures
            fits(self@),
    {
        assert forall|language: Seq<char>| #[trigger] lines_of(self@, language) <= u64::MAX by {}
    }

    /// Counts with no language in them.
    pub fn new() -> (counts: LanguageCounts)
        ensures
            counts@ == Map::<Seq<char>, nat>::empty(),
    {
        let counts = LanguageCounts { entries: Vec::new() };
        proof {
            assert(counts@ =~= Map::<Seq<char>, nat>::empty());
        }
        counts
    }

    /// Where `language` is listed.
    fn position(&self, language: &String) -> (found: Option<usize>)
        ensures
            found matches Some(i) ==> names_at(self.entries@, language@, i as int),
            found is None ==> !self@.contains_key(language@),
    {
        let mut i: usize = 0;
        while i < self.entries.len()
            invariant
                i <= self.entries.len(),
                forall|k: int| 0 <= k < i ==> !names_at(self.entries@, language@, k),
            decreases self.entries.len() - i,
        {
            if self.entries[i].language == *language {
                return Some(i);
            }
            i += 1;
        }
        None
    }

    /// The lines counted for `language`, if it was counted.
    pub fn get(&self, language: &str) -> (lines: Option<u64>)
        ensures
            lines matches Some(n) ==> self@.contains_key(language@) && self@[language@] == n,
            lines is None ==> !self@.contains_key(language@),
    {
        let name = language.to_owned();
        match self.position(&name) {
            Some(i) => {
                proof {
                    use_type_invariant(self);
                    lemma_counts_of_entry(self.entries@, i as int);
                }
                Some(self.entries[i].lines)
            },
            None => None,
        }
    }

    /// The languages that were counted, each once, with their lines.
    pub fn tallies(&self) -> (list: Vec<Tally>)
        ensures
            forall|i: int|
                0 <= i < list.len() ==> self@.contains_key((#[trigger] list[i]).language@)
                    && self@[list[i].language@] == list[i].lines,
            forall|language: Seq<char>| #[trigger]
                self@.contains_key(language) ==> exists|i: int|
                    0 <= i < list.len() && (#[trigger] list[i]).language@ == language,
            forall|i: int, j: int|
                0 <= i < j < list.len() ==> (#[trigger] list[i]).language@ != (
                #[trigger] list[j]).language@,
    {
        proof {
            use_type_invariant(self);
        }
        let mut list: Vec<Tally> = Vec::new();
        let mut k: usize = 0;
        while k < self.entries.len()
            invariant
                k <= self.entries.len(),
                list.len() == k,
                forall|i: int|
                    0 <= i < k ==> (#[trigger] list[i]).language@ == self.entries@[i].language@
                        && list[i].lines == self.entries@[i].lines,
            decreases self.entries.len() - k,
        {
            let entry = &self.entries[k];
            list.push(Tally { language: entry.language.clone(), lines: entry.lines });
            k += 1;
        }
        proof {
            assert forall|i: int| 0 <= i < list.len() implies self@.contains_key(
                (#[trigger] list[i]).language@,
            ) && self@[list[i].language@] == list[i].lines by {
                lemma_counts_of_entry(self.entries@, i);
            }
            assert forall|language: Seq<char>| #[trigger]
                self@.contains_key(language) implies exists|i: int|
                0 <= i < list.len() && (#[trigger] list[i]).language@ == language by {
                let i = choose|i: int| names_at(self.entries@, language, i);
                assert(list[i].language@ == language);
            }
        }
        list
    }

    /// Counts `lines` more lines for `language`, unless the count would no
    /// longer fit in 64 bits: then nothing changes.
    pub fn add(&mut self, language: &str, lines: u64) -> (outcome: Result<(), CountOverflow>)
        ensures
            outcome is Ok <==> lines_of(old(self)@, language@) + lines <= u64::MAX,
            outcome is Ok ==> final(self)@ == credited(old(self)@, language@, lines as nat),
            outcome is Err ==> final(self)@ == old(self)@,
    {
        proof {
            use_type_invariant(&*self);
        }
        let name = language.to_owned();
        let ghost before = self.entries@;
        match self.position(&name) {
            Some(i) => {
                proof {
                    lemma_counts_of_entry(before, i as int);
                }
                let held = self.entries[i].lines;
                if lines > u64::MAX - held {
                    return Err(CountOverflow);
                }
                let mut entries: Vec<Tally> = Vec::new();
                core::mem::swap(&mut self.entries, &mut entries);
                entries[i].lines = held + lines;
                proof {
                    lemma_counts_of_update(before, i as int, entries@);
                }
                self.entries = entries;
                Ok(())
            },
            None => {
                let added = Tally { language: name, lines };
                proof {
                    lemma_counts_of_push(before, added);
                }
                let mut entries: Vec<Tally> = Vec::new();
                core::mem::swap(&mut self.entries, &mut entries);
                entries.push(added);
                self.entries = entries;
                Ok(())
            },
        }
    }

    /// Adds the counts of `other` to these, language by language, unless a
    /// sum would no longer fit in 64 bits: then nothing changes.
    pub fn merge(&mut self, other: &LanguageCounts) -> (outcome: Result<(), CountOverflow>)
        ensures
            outcome is Ok <==> fits(merged(old(self)@, other@)),
            outcome is Ok ==> final(self)@ == merged(old(self)@, other@),
            outcome is Err ==> final(self)@ == old(self)@,
    {
        proof {
            use_type_invariant(&*self);
            use_type_invariant(other);
        }
        let ghost before = self@;
        let mut i: usize = 0;
        while i < other.entries.len()
            invariant
                i <= other.entries.len(),
                self@ == before,
                distinct_languages(other.entries@),
                forall|k: int|
                    0 <= k < i ==> lines_of(before, (#[trigger] other.entries@[k]).language@)
                        + other.entries@[k].lines <= u64::MAX,
            decreases other.entries.len() - i,
        {
            let entry = &other.entries[i];
            match self.get(entry.language.as_str()) {
                Some(held) => {
                    if entry.lines > u64::MAX - held {
                        proof {
                            lemma_counts_of_entry(other.entries@, i as int);
                            assert(lines_of(merged(before, other@), entry.language@) > u64::MAX);
                        }
                        return Err(CountOverflow);
                    }
                },
                None => {},
            }
            i += 1;
        }
        proof {
            self.lemma_fits();
            assert forall|language: Seq<char>| #[trigger]
                lines_of(merged(before, other@), language) <= u64::MAX by {
                if other@.contains_key(language) {
                    let k = choose|k: int| names_at(other.entries@, language, k);
                    lemma_counts_of_entry(other.entries@, k);
                } else {
                    assert(lines_of(before, language) <= u64::MAX);
                }
            }
            assert(other.entries@.take(0) =~= Seq::<Tally>::empty());
            assert(counts_of(Seq::<Tally>::empty()) =~= Map::<Seq<char>, nat>::empty());
            lemma_merged_empty(before);
        }
        let mut k: usize = 0;
        while k < other.entries.len()
            invariant
                k <= other.entries.len(),
                distinct_languages(other.entries@),
                other@ == counts_of(other.entries@),
                fits(merged(before, other@)),
                self@ == merged(before, counts_of(other.entries@.take(k as int))),
            decreases other.entries.len() - k,
        {
            let entry = &other.entries[k];
            let ghost seen = other.entries@.take(k as int);
            proof {
                assert(other.entries@.take(k + 1) =~= seen.push(*entry));
                assert(distinct_languages(seen)) by {
                    assert forall|i: int, j: int| 0 <= i < j < seen.len() implies (
                    #[trigger] seen[i]).language@ != (#[trigger] seen[j]).language@ by {
                        assert(seen[i] == other.entries@[i]);
                        assert(seen[j] == other.entries@[j]);
                    }
                }
                assert(!counts_of(seen).contains_key(entry.language@)) by {
                    if counts_of(seen).contains_key(entry.language@) {
                        let j = choose|j: int| names_at(seen, entry.language@, j);
                        assert(seen[j] == other.entries@[j]);
                    }
                }
                lemma_counts_of_push(seen, *entry);
                lemma_counts_of_entry(other.entries@, k as int);
                assert(lines_of(merged(before, other@), entry.language@) <= u64::MAX);
                assert(credited(self@, entry.language@, entry.lines as nat) =~= merged(
                    before,
                    counts_of(seen).insert(entry.language@, entry.lines as nat),
                ));
            }
            match self.add(entry.language.as_str(), entry.lines) {
                Ok(()) => {},
                Err(overflow) => {
                    return Err(overflow);
                },
            }
            k += 1;
        }
        proof {
            assert(other.entries@.take(other.entries@.len() as int) =~= other.entries@);
        }
        Ok(())
    }
}

} // verus!
