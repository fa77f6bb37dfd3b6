//! Writing counts out as one line of JSON.

use crate::counts::LanguageCounts;
use crate::rules::RuleSetView;
use crate::total::{grand_total, ChildView};
use vstd::prelude::*;

verus! {

/// The text that `serde_json::to_string` gives for a map from language names
/// to line counts that is ordered by name, or nothing where it fails.
pub uninterp spec fn json_object(counts: Map<Seq<char>, nat>) -> Option<Seq<char>>;

/// Calls `serde_json::to_string` on the counts, handed over as a map ordered
/// by language name. The order of the members is then settled by the names,
/// so the text depends on nothing but which lines were counted for which
/// language; that it is the same text for the same counts is all that is
/// claimed of it.
#[verifier::external_body]
fn json_of(counts: &LanguageCounts) -> (text: Option<String>)
    ensures
        text matches Some(written) ==> json_object(counts@) == Some(written@),
        text is None ==> json_object(counts@) is None,
{
    let object: std::collections::BTreeMap<&str, u64> = counts.entries.iter().map(
        |tally| (tally.language.as_str(), tally.lines),
    ).collect();
    serde_json::to_string(&object).ok()
}

/// Lets `text` through if it is a single line, that is, holds no line feed.
pub fn single_line(text: String) -> (line: Option<String>)
    ensures
        line matches Some(kept) ==> kept@ == text@ && !text@.contains('\n'),
        line is None ==> text@.contains('\n'),
{
    for c in it: text.as_str().chars()
        invariant
            it.seq() == text@,
            forall|k: int| 0 <= k < it.index() ==> text@[k] != '\n',
    {
        if c == '\n' {
            return None;
        }
    }
    Some(text)
}

impl LanguageCounts {
    /// The counts as a JSON object on a single line, with a member for each
    /// language that was counted. Nothing is given where the object could not
    /// be written, or would not be a single line.
    pub fn to_json(&self) -> (line: Option<String>)
        ensures
            line matches Some(written) ==> json_object(self@) == Some(written@)
                && !written@.contains('\n'),
            line is None ==> (json_object(self@) matches Some(text) ==> text.contains('\n')),
    {
        match json_of(self) {
            Some(text) => single_line(text),
            None => None,
        }
    }
}

/// Two runs over the same children under the same rules tell the same: their
/// counts are equal, and so is what is written out of them.
pub proof fn lemma_run_is_repeatable(
    rules: RuleSetView,
    children: Seq<ChildView>,
    first: LanguageCounts,
    second: LanguageCounts,
)
    requires
        first@ == grand_total(rules, children),
        second@ == grand_total(rules, children),
    ensures
        first@ == second@,
        json_object(first@) == json_object(second@),
{
}

} // verus!
