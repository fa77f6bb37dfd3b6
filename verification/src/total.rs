//! The grand total over the children of a target directory: each child that
//! is a directory is a repository, and the counts of all repositories are
//! added up.

use crate::counts::{
    fits, lemma_merged_associates, lemma_merged_commutes, lemma_merged_empty, lines_of, merged,
    CountOverflow, LanguageCounts,
};
use crate::rules::{RuleSet, RuleSetView};
use crate::scan::{repository_counts, start, Scanner, WalkEntry, WalkEntryView};
use vstd::prelude::*;

verus! {

/// A child of the target directory, with the walk of what it holds.
#[derive(Clone, Debug)]
pub struct Child {
    /// Whether the child is a directory.
    pub is_directory: bool,
    /// The walk that starts at the child.
    pub walk: Vec<WalkEntry>,
}

/// What a [`Child`] stands for in specifications.
pub struct ChildView {
    pub is_directory: bool,
    pub walk: Seq<WalkEntryView>,
}

impl View for Child {
    type V = ChildView;

    open spec fn view(&self) -> ChildView {
        ChildView { is_directory: self.is_directory, walk: self.walk.deep_view() }
    }
}

impl DeepView for Child {
    type V = ChildView;

    open spec fn deep_view(&self) -> ChildView {
        self@
    }
}

/// What one child adds to the grand total: the counts of its walk where it is
/// a directory, and nothing where it is not.
pub open spec fn child_counts(rules: RuleSetView, child: ChildView) -> Map<Seq<char>, nat> {
    if child.is_directory {
        repository_counts(rules, child.walk)
    } else {
        Map::empty()
    }
}

/// The grand total over `children`: what each of them adds, merged.
pub open spec fn grand_total(rules: RuleSetView, children: Seq<ChildView>) -> Map<Seq<char>, nat>
    decreases children.len(),
{
    if children.len() == 0 {
        Map::empty()
    } else {
        merged(grand_total(rules, children.drop_last()), child_counts(rules, children.last()))
    }
}

/// The grand total is additive: over two lists of children on end it is the
/// sum of the totals over each.
pub proof fn lemma_grand_total_adds(
    rules: RuleSetView,
    first: Seq<ChildView>,
    second: Seq<ChildView>,
)
    ensures
        grand_total(rules, first + second) == merged(
            grand_total(rules, first),
            grand_total(rules, second),
        ),
    decreases second.len(),
{
    if second.len() == 0 {
        assert(first + second =~= first);
        lemma_merged_empty(grand_total(rules, first));
    } else {
        assert((first + second).drop_last() =~= first + second.drop_last());
        assert((first + second).last() == second.last());
        lemma_grand_total_adds(rules, first, second.drop_last());
        lemma_merged_associates(
            grand_total(rules, first),
            grand_total(rules, second.drop_last()),
            child_counts(rules, second.last()),
        );
    }
}

/// The grand total does not depend on the order in which the children are
/// met.
pub proof fn lemma_grand_total_swaps(
    rules: RuleSetView,
    first: Seq<ChildView>,
    second: Seq<ChildView>,
)
    ensures
        grand_total(rules, first + second) == grand_total(rules, second + first),
{
    lemma_grand_total_adds(rules, first, second);
    lemma_grand_total_adds(rules, second, first);
    lemma_merged_commutes(grand_total(rules, first), grand_total(rules, second));
}

/// The grand total over one child is what that child adds.
pub proof fn lemma_grand_total_of_one(rules: RuleSetView, child: ChildView)
    ensures
        grand_total(rules, seq![child]) == child_counts(rules, child),
{
    let one = seq![child];
    assert(one.drop_last() =~= Seq::<ChildView>::empty());
    assert(grand_total(rules, one.drop_last()) == Map::<Seq<char>, nat>::empty());
    assert(one.last() == child);
    lemma_merged_empty(child_counts(rules, child));
}

/// A child that is not a directory adds nothing, whatever its walk holds: the
/// grand total is as if the child were not there.
pub proof fn lemma_non_directory_child_counts_nothing(
    rules: RuleSetView,
    before: Seq<ChildView>,
    child: ChildView,
    after: Seq<ChildView>,
)
    requires
        !child.is_directory,
    ensures
        grand_total(rules, before + seq![child] + after) == grand_total(rules, before + after),
{
    lemma_grand_total_adds(rules, before + seq![child], after);
    lemma_grand_total_adds(rules, before, seq![child]);
    lemma_grand_total_of_one(rules, child);
    lemma_merged_empty(grand_total(rules, before));
    lemma_grand_total_adds(rules, before, after);
}

/// The run over the children of a target directory, child by child.
pub struct Aggregator<'a> {
    rules: &'a RuleSet,
    total: LanguageCounts,
}

impl<'a> Aggregator<'a> {
    /// The rules that the run goes by.
    pub closed spec fn rules(&self) -> RuleSetView {
        self.rules@
    }

    /// The grand total so far.
    pub closed spec fn view(&self) -> Map<Seq<char>, nat> {
        self.total@
    }

    /// A run that has met no child yet.
    pub fn new(rules: &'a RuleSet) -> (aggregator: Aggregator<'a>)
        ensures
            aggregator.rules() == rules@,
            aggregator@ == Map::<Seq<char>, nat>::empty(),
    {
        Aggregator { rules, total: LanguageCounts::new() }
    }

    /// Meets a child of the target directory. A directory is a repository: a
    /// scanner is handed out for its walk. Anything else is passed over.
    pub fn enter(&self, is_directory: bool) -> (scanner: Option<Scanner<'a>>)
        ensures
            scanner is Some <==> is_directory,
            scanner matches Some(begun) ==> begun.rules() == self.rules() && begun@ == start(),
    {
        if is_directory {
            Some(Scanner::new(self.rules))
        } else {
            None
        }
    }

    /// Takes the scan of a repository and adds its counts to the grand total,
    /// unless a sum would no longer fit in 64 bits: then the total stays as
    /// it was.
    pub fn leave(&mut self, scanner: Scanner<'a>) -> (outcome: Result<(), CountOverflow>)
        ensures
            final(self).rules() == old(self).rules(),
            outcome is Ok <==> fits(merged(old(self)@, scanner@.counts)),
            outcome is Ok ==> final(self)@ == merged(old(self)@, scanner@.counts),
            outcome is Err ==> final(self)@ == old(self)@,
    {
        let counts = scanner.finish();
        self.total.merge(&counts)
    }

    /// Ends the run and hands out the grand total.
    pub fn finish(self) -> (total: LanguageCounts)
        ensures
            total@ == self@,
    {
        self.total
    }
}

/// Adds up the counts of the repositories among `children`, unless a count
/// would no longer fit in 64 bits.
pub fn run(children: &[Child], rules: &RuleSet) -> (outcome: Result<LanguageCounts, CountOverflow>)
    ensures
        outcome is Ok <==> fits(grand_total(rules@, children.deep_view())),
        outcome matches Ok(total) ==> total@ == grand_total(rules@, children.deep_view()),
{
    let ghost all = children.deep_view();
    let mut aggregator = Aggregator::new(rules);
    let mut k: usize = 0;
    proof {
        assert(all.take(0) =~= Seq::<ChildView>::empty());
    }
    while k < children.len()
        invariant
            k <= children.len(),
            all == children.deep_view(),
            aggregator.rules() == rules@,
            aggregator@ == grand_total(rules@, all.take(k as int)),
        decreases children.len() - k,
    {
        let child = &children[k];
        let ghost rest = all.skip(k + 1);
        proof {
            assert(all.take(k + 1).drop_last() =~= all.take(k as int));
            assert(all.take(k + 1).last() == child@);
            assert(all =~= all.take(k + 1) + rest);
            lemma_grand_total_adds(rules@, all.take(k + 1), rest);
        }
        match aggregator.enter(child.is_directory) {
            Some(mut scanner) => {
                match scanner.follow(child.walk.as_slice()) {
                    Ok(()) => {},
                    Err(overflow) => {
                        proof {
                            let added = child_counts(rules@, child@);
                            let over = choose|l: Seq<char>| lines_of(added, l) > u64::MAX;
                            assert(lines_of(grand_total(rules@, all), over) > u64::MAX);
                        }
                        return Err(overflow);
                    },
                }
                match aggregator.leave(scanner) {
                    Ok(()) => {},
                    Err(overflow) => {
                        proof {
                            let reached = grand_total(rules@, all.take(k + 1));
                            let over = choose|l: Seq<char>| lines_of(reached, l) > u64::MAX;
                            assert(lines_of(grand_total(rules@, all), over) > u64::MAX);
                        }
                        return Err(overflow);
                    },
                }
            },
            None => {
                proof {
                    lemma_merged_empty(aggregator@);
                }
            },
        }
        k += 1;
    }
    proof {
        assert(all.take(all.len() as int) =~= all);
        aggregator.total.lemma_fits();
    }
    Ok(aggregator.finish())
}

} // verus!
