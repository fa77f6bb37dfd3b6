//! The rule set: which directories and files are left out, and which file
//! extensions belong to which language.

use crate::text::{
    chars_of, end_of_run, ends_with_tail, position_of_first, position_of_last, same_chars,
    trim_start,
};
use vstd::prelude::*;

verus! {

/// A language and the file extensions that belong to it, each with its leading
/// dot.
#[derive(Clone, Debug)]
pub struct Language {
    pub name: String,
    pub extensions: Vec<String>,
}

/// What a [`Language`] stands for in specifications.
pub struct LanguageView {
    pub name: Seq<char>,
    pub extensions: Seq<Seq<char>>,
}

impl View for Language {
    type V = LanguageView;

    open spec fn view(&self) -> LanguageView {
        LanguageView { name: self.name@, extensions: self.extensions.deep_view() }
    }
}

impl DeepView for Language {
    type V = LanguageView;

    open spec fn deep_view(&self) -> LanguageView {
        self@
    }
}

/// The rules of one run. `languages` is ordered: where two languages claim the
/// same extension, the earlier one has it.
#[derive(Clone, Debug)]
pub struct RuleSet {
    pub ignore_dirs: Vec<String>,
    pub ignore_files: Vec<String>,
    pub languages: Vec<Language>,
}

/// What a [`RuleSet`] stands for in specifications.
pub struct RuleSetView {
    pub ignore_dirs: Seq<Seq<char>>,
    pub ignore_files: Seq<Seq<char>>,
    pub languages: Seq<LanguageView>,
}

impl View for RuleSet {
    type V = RuleSetView;

    open spec fn view(&self) -> RuleSetView {
        RuleSetView {
            ignore_dirs: self.ignore_dirs.deep_view(),
            ignore_files: self.ignore_files.deep_view(),
            languages: self.languages.deep_view(),
        }
    }
}

/// The suffix that a wildcard pattern asks for: what follows the first `*` of
/// the pattern, less any `*` that follows it directly.
pub open spec fn wildcard_suffix(pattern: Seq<char>) -> Seq<char> {
    match pattern.index_of_first('*') {
        Some(star) => trim_start(pattern.skip(star + 1), '*'),
        None => pattern,
    }
}

/// Whether a file-name `pattern` matches `name`. A pattern with a `*` in it
/// matches the names that end with its suffix; any other pattern matches its
/// own text only.
pub open spec fn pattern_matches(pattern: Seq<char>, name: Seq<char>) -> bool {
    if pattern.contains('*') {
        wildcard_suffix(pattern).is_suffix_of(name)
    } else {
        name == pattern
    }
}

/// A pattern made of one `*` and a suffix without `*` matches the names that
/// end with that suffix, and no others.
pub proof fn lemma_leading_star_matches_suffix(suffix: Seq<char>, name: Seq<char>)
    requires
        !suffix.contains('*'),
    ensures
        pattern_matches(seq!['*'] + suffix, name) == suffix.is_suffix_of(name),
{
    let pattern = seq!['*'] + suffix;
    assert(pattern[0] == '*');
    pattern.index_of_first_ensures('*');
    assert(pattern.index_of_first('*') == Some(0int));
    assert(pattern.skip(1) =~= suffix);
    if suffix.len() > 0 {
        assert(suffix[0] == suffix.first());
    }
}

/// A pattern without `*` matches its own text and nothing else.
pub proof fn lemma_plain_pattern_matches_itself(pattern: Seq<char>, name: Seq<char>)
    requires
        !pattern.contains('*'),
    ensures
        pattern_matches(pattern, name) == (name == pattern),
{
}

/// Whether one of `patterns` matches the file name `name`.
pub open spec fn ignores_file(patterns: Seq<Seq<char>>, name: Seq<char>) -> bool {
    exists|i: int| 0 <= i < patterns.len() && pattern_matches(#[trigger] patterns[i], name)
}

/// The extension of a file name: what it holds from its last dot on, the dot
/// included. A name without a dot has none.
pub open spec fn extension_of(name: Seq<char>) -> Option<Seq<char>> {
    match name.index_of_last('.') {
        Some(dot) => Some(name.skip(dot)),
        None => None,
    }
}

/// The language that `extension` belongs to: the first of `languages` that
/// lists it.
pub open spec fn language_for(extension: Seq<char>, languages: Seq<LanguageView>) -> Option<
    Seq<char>,
>
    decreases languages.len(),
{
    if languages.len() == 0 {
        None
    } else if languages.first().extensions.contains(extension) {
        Some(languages.first().name)
    } else {
        language_for(extension, languages.drop_first())
    }
}

/// The language under which a file named `name` is counted, if it is counted:
/// its name must not be ignored, and its extension must belong to a language.
pub open spec fn file_language(rules: RuleSetView, name: Seq<char>) -> Option<Seq<char>> {
    if ignores_file(rules.ignore_files, name) {
        None
    } else {
        match extension_of(name) {
            Some(extension) => language_for(extension, rules.languages),
            None => None,
        }
    }
}

/// Languages that list no sought extension can be passed over.
pub proof fn lemma_language_for_skip(extension: Seq<char>, languages: Seq<LanguageView>, n: int)
    requires
        0 <= n <= languages.len(),
        forall|k: int| 0 <= k < n ==> !(#[trigger] languages[k]).extensions.contains(extension),
    ensures
        language_for(extension, languages) == language_for(extension, languages.skip(n)),
    decreases n,
{
    if n == 0 {
        assert(languages.skip(0) =~= languages);
    } else {
        let rest = languages.drop_first();
        assert(!languages[0].extensions.contains(extension));
        assert forall|k: int| 0 <= k < n - 1 implies !(#[trigger] rest[k]).extensions.contains(
            extension,
        ) by {
            assert(rest[k] == languages[k + 1]);
        }
        lemma_language_for_skip(extension, rest, n - 1);
        assert(rest.skip(n - 1) =~= languages.skip(n));
    }
}

/// Resolution picks the first claim and no other: an extension resolves to a
/// name exactly when some language lists it, and then to the name of the
/// first such language; it resolves to nothing exactly when no language lists
/// it. So the answer is settled by the extension and the list alone.
pub proof fn lemma_language_for_first_claim(extension: Seq<char>, languages: Seq<LanguageView>)
    ensures
        language_for(extension, languages) matches Some(name) ==> exists|i: int|
            0 <= i < languages.len() && (#[trigger] languages[i]).extensions.contains(extension)
                && languages[i].name == name && forall|k: int|
                0 <= k < i ==> !(#[trigger] languages[k]).extensions.contains(extension),
        language_for(extension, languages) is None ==> forall|i: int|
            0 <= i < languages.len() ==> !(#[trigger] languages[i]).extensions.contains(extension),
    decreases languages.len(),
{
    if languages.len() == 0 {
    } else if languages.first().extensions.contains(extension) {
        assert(languages[0].extensions.contains(extension));
    } else {
        let rest = languages.drop_first();
        lemma_language_for_first_claim(extension, rest);
        match language_for(extension, rest) {
            Some(name) => {
                let i = choose|i: int|
                    0 <= i < rest.len() && (#[trigger] rest[i]).extensions.contains(extension)
                        && rest[i].name == name && forall|k: int|
                        0 <= k < i ==> !(#[trigger] rest[k]).extensions.contains(extension);
                assert(languages[i + 1] == rest[i]);
                assert forall|k: int| 0 <= k < i + 1 implies !(#[trigger] languages[k]).extensions.contains(
                    extension,
                ) by {
                    if k > 0 {
                        assert(languages[k] == rest[k - 1]);
                    }
                }
            },
            None => {
                assert forall|i: int| 0 <= i < languages.len() implies !(#[trigger] languages[i]).extensions.contains(
                    extension,
                ) by {
                    if i > 0 {
                        assert(languages[i] == rest[i - 1]);
                    }
                }
            },
        }
    }
}

/// Whether `list` holds the string `sought`.
fn holds_string(list: &[String], sought: &Vec<char>) -> (held: bool)
    ensures
        held == list.deep_view().contains(sought@),
{
    let mut i: usize = 0;
    while i < list.len()
        invariant
            i <= list.len(),
            forall|k: int| 0 <= k < i ==> (#[trigger] list.deep_view()[k]) != sought@,
        decreases list.len() - i,
    {
        let item = chars_of(list[i].as_str());
        if same_chars(&item, sought) {
            proof {
                assert(list.deep_view()[i as int] == sought@);
            }
            return true;
        }
        i += 1;
    }
    false
}

/// Whether a directory named `dir_name` is left out: its name is one of
/// `ignore_patterns`, letter for letter.
pub fn should_ignore_dir(dir_name: &str, ignore_patterns: &[String]) -> (ignored: bool)
    ensures
        ignored == ignore_patterns.deep_view().contains(dir_name@),
{
    let name = chars_of(dir_name);
    holds_string(ignore_patterns, &name)
}

/// Whether `pattern` matches `name`.
fn matches_pattern(pattern: &Vec<char>, name: &Vec<char>) -> (matched: bool)
    ensures
        matched == pattern_matches(pattern@, name@),
{
    match position_of_first(pattern, '*') {
        Some(star) => {
            proof {
                pattern@.index_of_first_ensures('*');
            }
            let from = end_of_run(pattern, '*', star + 1);
            ends_with_tail(name, pattern, from)
        },
        None => {
            proof {
                pattern@.index_of_first_ensures('*');
            }
            same_chars(name, pattern)
        },
    }
}

/// Whether a file named `file_name` is left out: one of `ignore_patterns`
/// matches its name.
pub fn should_ignore_file(file_name: &str, ignore_patterns: &[String]) -> (ignored: bool)
    ensures
        ignored == ignores_file(ignore_patterns.deep_view(), file_name@),
{
    let name = chars_of(file_name);
    let mut i: usize = 0;
    while i < ignore_patterns.len()
        invariant
            i <= ignore_patterns.len(),
            name@ == file_name@,
            forall|k: int|
                0 <= k < i ==> !pattern_matches(#[trigger] ignore_patterns.deep_view()[k], name@),
        decreases ignore_patterns.len() - i,
    {
        let pattern = chars_of(ignore_patterns[i].as_str());
        if matches_pattern(&pattern, &name) {
            proof {
                assert(pattern_matches(ignore_patterns.deep_view()[i as int], name@));
            }
            return true;
        }
        i += 1;
    }
    false
}

/// The extension of `file_name`.
pub fn file_extension<'a>(file_name: &'a str) -> (extension: Option<&'a str>)
    ensures
        extension matches Some(found) ==> extension_of(file_name@) == Some(found@),
        extension is None ==> extension_of(file_name@) is None,
{
    let name = chars_of(file_name);
    match position_of_last(&name, '.') {
        Some(dot) => Some(file_name.substring_char(dot, name.len())),
        None => None,
    }
}

/// The language that the extension `ext` belongs to: the first of `languages`
/// that lists it, if any does.
pub fn get_language_for_extension(ext: &str, languages: &[Language]) -> (language: Option<String>)
    ensures
        language matches Some(name) ==> language_for(ext@, languages.deep_view()) == Some(name@),
        language is None ==> language_for(ext@, languages.deep_view()) is None,
{
    let extension = chars_of(ext);
    let ghost views = languages.deep_view();
    let mut i: usize = 0;
    while i < languages.len()
        invariant
            i <= languages.len(),
            extension@ == ext@,
            views == languages.deep_view(),
            forall|k: int| 0 <= k < i ==> !(#[trigger] views[k]).extensions.contains(ext@),
        decreases languages.len() - i,
    {
        if holds_string(languages[i].extensions.as_slice(), &extension) {
            proof {
                lemma_language_for_skip(ext@, views, i as int);
                assert(views.skip(i as int).first() == views[i as int]);
                assert(views[i as int].extensions =~= languages[i as int].extensions.deep_view());
            }
            return Some(languages[i].name.clone());
        }
        proof {
            assert(views[i as int].extensions =~= languages[i as int].extensions.deep_view());
        }
        i += 1;
    }
    proof {
        lemma_language_for_skip(ext@, views, i as int);
        assert(views.skip(i as int).len() == 0);
    }
    None
}

impl RuleSet {
    /// Whether a directory named `name` is left out.
    pub fn ignores_dir(&self, name: &str) -> (ignored: bool)
        ensures
            ignored == self@.ignore_dirs.contains(name@),
    {
        should_ignore_dir(name, self.ignore_dirs.as_slice())
    }

    /// The language under which a file named `name` is counted, if it is
    /// counted.
    pub fn language_of(&self, name: &str) -> (language: Option<String>)
        ensures
            language matches Some(found) ==> file_language(self@, name@) == Some(found@),
            language is None ==> file_language(self@, name@) is None,
    {
        if should_ignore_file(name, self.ignore_files.as_slice()) {
            return None;
        }
        match file_extension(name) {
            Some(extension) => get_language_for_extension(extension, self.languages.as_slice()),
            None => None,
        }
    }
}

} // verus!
