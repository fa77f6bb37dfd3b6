//! Scanning one repository: which entries of a directory walk are gone into,
//! which files are read, and what their lines add up to.
//!
//! A walk reports the entries of a directory tree in depth-first order, each
//! entry before what lies beneath it, each with its depth below the root. The
//! [`Scanner`] is told of one entry at a time and answers what to do with it;
//! where it asks for a file to be read, it is then told what was read.

use crate::counts::{credited, fits, lines_of, CountOverflow, LanguageCounts};
use crate::lines::{count_lines_in_file, line_count, text_of};
use crate::rules::{file_language, RuleSet, RuleSetView};
use vstd::prelude::*;

verus! {

/// What a walk reports an entry to be.
#[derive(Clone, Copy, Debug, PartialEq, Eq, Structural)]
pub enum EntryKind {
    /// A directory.
    Directory,
    /// A regular file.
    File,
    /// Anything else, such as a symbolic link.
    Other,
    /// An entry that could not be examined.
    Inaccessible,
}

/// What is to be done with an entry.
#[derive(Clone, Copy, Debug, PartialEq, Eq, Structural)]
pub enum Action {
    /// Nothing: the walk goes on.
    Continue,
    /// The entry is a directory that is left out: the walk need not enter it.
    SkipDirectory,
    /// The entry is a file that counts: it is to be read, and what was read
    /// handed to [`Scanner::record`].
    ReadFile,
}

/// What a [`Scanner`] stands for in specifications.
pub struct ScanState {
    /// The depth of the directory that was left out last, while the walk has
    /// not come back up to that depth.
    pub pruned: Option<nat>,
    /// The language of the file that is being read.
    pub pending: Option<Seq<char>>,
    /// The lines counted so far.
    pub counts: Map<Seq<char>, nat>,
}

/// The state in which a scan begins.
pub open spec fn start() -> ScanState {
    ScanState { pruned: None, pending: None, counts: Map::empty() }
}

/// Whether an entry at `depth` lies beneath the directory that was left out
/// last.
pub open spec fn beneath(pruned: Option<nat>, depth: nat) -> bool {
    pruned matches Some(top) && depth > top
}

/// What is to be done with an entry, given the state in which it is met.
pub open spec fn action_for(
    rules: RuleSetView,
    state: ScanState,
    depth: nat,
    kind: EntryKind,
    name: Seq<char>,
) -> Action {
    if beneath(state.pruned, depth) {
        Action::Continue
    } else if kind == EntryKind::Directory && rules.ignore_dirs.contains(name) {
        Action::SkipDirectory
    } else if kind == EntryKind::File && file_language(rules, name) is Some {
        Action::ReadFile
    } else {
        Action::Continue
    }
}

/// The state after an entry was met. What lies beneath a directory that was
/// left out changes nothing. Any other entry ends the leaving out; a
/// directory whose name is ignored begins it anew, and a file that counts is
/// awaited under its language.
pub open spec fn entered(
    rules: RuleSetView,
    state: ScanState,
    depth: nat,
    kind: EntryKind,
    name: Seq<char>,
) -> ScanState {
    if beneath(state.pruned, depth) {
        ScanState { pending: None, ..state }
    } else {
        ScanState {
            pruned: if kind == EntryKind::Directory && rules.ignore_dirs.contains(name) {
                Some(depth)
            } else {
                None
            },
            pending: if kind == EntryKind::File {
                file_language(rules, name)
            } else {
                None
            },
            counts: state.counts,
        }
    }
}

/// The text of a file of which `content` was read: none where the file could
/// not be read, and none where what was read is no text.
pub open spec fn text_read(content: Option<Seq<u8>>) -> Option<Seq<char>> {
    match content {
        Some(bytes) => text_of(bytes),
        None => None,
    }
}

/// The state after the awaited file was read: its lines are counted under
/// its language if it could be read as text, and nothing is counted if not.
pub open spec fn recorded(state: ScanState, content: Option<Seq<u8>>) -> ScanState {
    ScanState {
        pruned: state.pruned,
        pending: None,
        counts: match (state.pending, text_read(content)) {
            (Some(language), Some(text)) => credited(state.counts, language, line_count(text)),
            _ => state.counts,
        },
    }
}

/// The scan of one repository, entry by entry.
pub struct Scanner<'a> {
    rules: &'a RuleSet,
    pruned: Option<usize>,
    pending: Option<String>,
    counts: LanguageCounts,
}

impl<'a> Scanner<'a> {
    /// The rules that the scan goes by.
    pub closed spec fn rules(&self) -> RuleSetView {
        self.rules@
    }

    /// The state of the scan.
    pub closed spec fn view(&self) -> ScanState {
        ScanState {
            pruned: match self.pruned {
                Some(depth) => Some(depth as nat),
                None => None,
            },
            pending: match self.pending {
                Some(language) => Some(language@),
                None => None,
            },
            counts: self.counts@,
        }
    }

    /// A scan that has met no entry yet.
    pub fn new(rules: &'a RuleSet) -> (scanner: Scanner<'a>)
        ensures
            scanner.rules() == rules@,
            scanner@ == start(),
    {
        Scanner { rules, pruned: None, pending: None, counts: LanguageCounts::new() }
    }

    /// Meets the entry named `name`, of kind `kind`, at `depth` below the root
    /// of the walk, and says what is to be done with it.
    pub fn visit(&mut self, depth: usize, kind: EntryKind, name: &str) -> (action: Action)
        ensures
            final(self).rules() == old(self).rules(),
            final(self)@ == entered(old(self).rules(), old(self)@, depth as nat, kind, name@),
            action == action_for(old(self).rules(), old(self)@, depth as nat, kind, name@),
    {
        self.pending = None;
        let below = match self.pruned {
            Some(top) => depth > top,
            None => false,
        };
        if below {
            return Action::Continue;
        }
        self.pruned = None;
        match kind {
            EntryKind::Directory => {
                if self.rules.ignores_dir(name) {
                    self.pruned = Some(depth);
                    Action::SkipDirectory
                } else {
                    Action::Continue
                }
            },
            EntryKind::File => {
                self.pending = self.rules.language_of(name);
                if self.pending.is_some() {
                    Action::ReadFile
                } else {
                    Action::Continue
                }
            },
            _ => Action::Continue,
        }
    }

    /// Takes what was read of the awaited file: its content, or nothing where
    /// it could not be read. The lines of a content that is text are counted,
    /// unless the count would no longer fit in 64 bits.
    pub fn record(&mut self, content: Option<&[u8]>) -> (outcome: Result<(), CountOverflow>)
        ensures
            final(self).rules() == old(self).rules(),
            outcome is Ok <==> fits(recorded(old(self)@, content_view(content)).counts),
            outcome is Ok ==> final(self)@ == recorded(old(self)@, content_view(content)),
            outcome is Err ==> final(self)@ == recorded(old(self)@, None),
    {
        let pending = self.pending.take();
        proof {
            self.counts.lemma_fits();
        }
        match (pending, content) {
            (Some(language), Some(bytes)) => {
                match count_lines_in_file(bytes) {
                    Ok(lines) => {
                        let ghost before = self.counts@;
                        let outcome = self.counts.add(language.as_str(), lines);
                        proof {
                            self.counts.lemma_fits();
                            if outcome is Err {
                                assert(lines_of(
                                    credited(before, language@, lines as nat),
                                    language@,
                                ) > u64::MAX);
                            }
                        }
                        outcome
                    },
                    Err(_) => Ok(()),
                }
            },
            _ => Ok(()),
        }
    }

    /// Ends the scan and hands out its counts.
    pub fn finish(self) -> (counts: LanguageCounts)
        ensures
            counts@ == self@.counts,
    {
        self.counts
    }
}

/// What `content` stands for in specifications.
pub open spec fn content_view(content: Option<&[u8]>) -> Option<Seq<u8>> {
    match content {
        Some(bytes) => Some(bytes@),
        None => None,
    }
}

/// One entry of a walk, with what was read of it where it is a file.
#[derive(Clone, Debug)]
pub struct WalkEntry {
    /// How far below the root of the walk the entry lies; the root is at 0.
    pub depth: usize,
    pub kind: EntryKind,
    /// The last component of the entry's path.
    pub name: String,
    /// The content of a file, where it could be read.
    pub content: Option<Vec<u8>>,
}

/// What a [`WalkEntry`] stands for in specifications.
pub struct WalkEntryView {
    pub depth: nat,
    pub kind: EntryKind,
    pub name: Seq<char>,
    pub content: Option<Seq<u8>>,
}

impl View for WalkEntry {
    type V = WalkEntryView;

    open spec fn view(&self) -> WalkEntryView {
        WalkEntryView {
            depth: self.depth as nat,
            kind: self.kind,
            name: self.name@,
            content: match self.content {
                Some(bytes) => Some(bytes@),
                None => None,
            },
        }
    }
}

impl DeepView for WalkEntry {
    type V = WalkEntryView;

    open spec fn deep_view(&self) -> WalkEntryView {
        self@
    }
}

/// The state after `entry` was met and, where it is a file that counts, read.
pub open spec fn step(rules: RuleSetView, state: ScanState, entry: WalkEntryView) -> ScanState {
    recorded(entered(rules, state, entry.depth, entry.kind, entry.name), entry.content)
}

/// The state after the entries of `walk` were gone through in order, from
/// `state` on.
pub open spec fn scan(rules: RuleSetView, state: ScanState, walk: Seq<WalkEntryView>) -> ScanState
    decreases walk.len(),
{
    if walk.len() == 0 {
        state
    } else {
        step(rules, scan(rules, state, walk.drop_last()), walk.last())
    }
}

/// The lines that the repository walked by `walk` holds, by language.
pub open spec fn repository_counts(rules: RuleSetView, walk: Seq<WalkEntryView>) -> Map<
    Seq<char>,
    nat,
> {
    scan(rules, start(), walk).counts
}

/// Going through two walks on end is going through the first, then through
/// the second from where the first left off.
pub proof fn lemma_scan_split(
    rules: RuleSetView,
    state: ScanState,
    first: Seq<WalkEntryView>,
    second: Seq<WalkEntryView>,
)
    ensures
        scan(rules, state, first + second) == scan(rules, scan(rules, state, first), second),
    decreases second.len(),
{
    if second.len() == 0 {
        assert(first + second =~= first);
    } else {
        assert((first + second).drop_last() =~= first + second.drop_last());
        assert((first + second).last() == second.last());
        lemma_scan_split(rules, state, first, second.drop_last());
    }
}

/// A scan never takes lines back: what was counted for a language stays
/// counted.
pub proof fn lemma_scan_grows(
    rules: RuleSetView,
    state: ScanState,
    walk: Seq<WalkEntryView>,
    language: Seq<char>,
)
    ensures
        lines_of(state.counts, language) <= lines_of(scan(rules, state, walk).counts, language),
        state.counts.contains_key(language) ==> scan(rules, state, walk).counts.contains_key(
            language,
        ),
    decreases walk.len(),
{
    if walk.len() > 0 {
        lemma_scan_grows(rules, state, walk.drop_last(), language);
    }
}

/// Between two entries no file is awaited.
pub proof fn lemma_scan_awaits_nothing(
    rules: RuleSetView,
    state: ScanState,
    walk: Seq<WalkEntryView>,
)
    requires
        state.pending is None,
    ensures
        scan(rules, state, walk).pending is None,
    decreases walk.len(),
{
    if walk.len() > 0 {
        lemma_scan_awaits_nothing(rules, state, walk.drop_last());
    }
}

/// Going through a walk is meeting its first entry, then going through the
/// rest.
pub proof fn lemma_scan_first(rules: RuleSetView, state: ScanState, walk: Seq<WalkEntryView>)
    requires
        walk.len() > 0,
    ensures
        scan(rules, state, walk) == scan(
            rules,
            step(rules, state, walk.first()),
            walk.drop_first(),
        ),
{
    let head = seq![walk.first()];
    assert(walk =~= head + walk.drop_first());
    lemma_scan_split(rules, state, head, walk.drop_first());
    assert(head.drop_last() =~= Seq::<WalkEntryView>::empty());
    assert(scan(rules, state, head.drop_last()) == state);
    assert(scan(rules, state, head) == step(rules, state, walk.first()));
}

/// While a directory is left out, entries deeper than it change nothing.
pub proof fn lemma_scan_beneath_pruned(
    rules: RuleSetView,
    state: ScanState,
    inside: Seq<WalkEntryView>,
)
    requires
        state.pending is None,
        state.pruned is Some,
        forall|k: int| 0 <= k < inside.len() ==> (#[trigger] inside[k]).depth > state.pruned->0,
    ensures
        scan(rules, state, inside) == state,
    decreases inside.len(),
{
    if inside.len() > 0 {
        let front = inside.drop_last();
        assert forall|k: int| 0 <= k < front.len() implies (#[trigger] front[k]).depth
            > state.pruned->0 by {
            assert(front[k] == inside[k]);
        }
        lemma_scan_beneath_pruned(rules, state, front);
        assert(inside.last() == inside[inside.len() - 1]);
    }
}

/// Nothing counts beneath a directory whose name is ignored: whatever the
/// walk reports from beneath it, at any depth, the counts are as if the
/// directory held nothing.
pub proof fn lemma_ignored_directory_counts_nothing(
    rules: RuleSetView,
    before: Seq<WalkEntryView>,
    directory: WalkEntryView,
    inside: Seq<WalkEntryView>,
    after: Seq<WalkEntryView>,
)
    requires
        directory.kind == EntryKind::Directory,
        rules.ignore_dirs.contains(directory.name),
        forall|k: int| 0 <= k < inside.len() ==> (#[trigger] inside[k]).depth > directory.depth,
    ensures
        repository_counts(rules, before + seq![directory] + inside + after) == repository_counts(
            rules,
            before + seq![directory] + after,
        ),
{
    let upto = before + seq![directory];
    let reached = scan(rules, start(), upto);
    assert(upto.drop_last() =~= before);
    assert(upto.last() == directory);
    lemma_scan_awaits_nothing(rules, start(), before);
    assert(reached.pruned is Some && reached.pruned->0 <= directory.depth);
    lemma_scan_beneath_pruned(rules, reached, inside);
    lemma_scan_split(rules, start(), upto, inside);
    lemma_scan_split(rules, start(), upto + inside, after);
    lemma_scan_split(rules, start(), upto, after);
}

/// The entry that `entry` would be, were it neither directory nor file.
pub open spec fn as_no_file(entry: WalkEntryView) -> WalkEntryView {
    WalkEntryView { kind: EntryKind::Other, ..entry }
}

/// A file that could not be read, or whose content is no text, counts for
/// nothing, and the scan goes on past it: it ends in the state in which it
/// would end had the entry been no file at all.
pub proof fn lemma_unreadable_file_counts_as_no_file(
    rules: RuleSetView,
    before: Seq<WalkEntryView>,
    file: WalkEntryView,
    after: Seq<WalkEntryView>,
)
    requires
        file.kind == EntryKind::File,
        text_read(file.content) is None,
    ensures
        scan(rules, start(), before + seq![file] + after) == scan(
            rules,
            start(),
            before + seq![as_no_file(file)] + after,
        ),
{
    let no_file = as_no_file(file);
    let reached = scan(rules, start(), before);
    assert((before + seq![file]).drop_last() =~= before);
    assert((before + seq![file]).last() == file);
    assert((before + seq![no_file]).drop_last() =~= before);
    assert((before + seq![no_file]).last() == no_file);
    assert(step(rules, reached, file) == step(rules, reached, no_file));
    lemma_scan_split(rules, start(), before + seq![file], after);
    lemma_scan_split(rules, start(), before + seq![no_file], after);
}

/// A file that could not be read, or whose content is no text, can be left
/// out of the walk: the counts are as if it were not there. The walk is taken
/// to report nothing from beneath a file, so that the entry after it lies no
/// deeper.
pub proof fn lemma_unreadable_file_counts_nothing(
    rules: RuleSetView,
    before: Seq<WalkEntryView>,
    file: WalkEntryView,
    after: Seq<WalkEntryView>,
)
    requires
        file.kind == EntryKind::File,
        text_read(file.content) is None,
        after.len() > 0 ==> after.first().depth <= file.depth,
    ensures
        repository_counts(rules, before + seq![file] + after) == repository_counts(
            rules,
            before + after,
        ),
{
    let upto = before + seq![file];
    let without = scan(rules, start(), before);
    let with = scan(rules, start(), upto);
    assert(upto.drop_last() =~= before);
    assert(upto.last() == file);
    lemma_scan_awaits_nothing(rules, start(), before);
    lemma_scan_split(rules, start(), upto, after);
    lemma_scan_split(rules, start(), before, after);
    if after.len() > 0 {
        lemma_scan_first(rules, with, after);
        lemma_scan_first(rules, without, after);
        assert(step(rules, with, after.first()) == step(rules, without, after.first()));
    }
}

impl<'a> Scanner<'a> {
    /// Goes through `walk` in order: meets each entry and, where a file is to
    /// be read, takes the content that the entry holds. Stops at the first
    /// count that would no longer fit in 64 bits.
    pub(crate) fn follow(&mut self, walk: &[WalkEntry]) -> (outcome: Result<(), CountOverflow>)
        ensures
            final(self).rules() == old(self).rules(),
            outcome is Ok <==> fits(
                scan(old(self).rules(), old(self)@, walk.deep_view()).counts,
            ),
            outcome is Ok ==> final(self)@ == scan(old(self).rules(), old(self)@, walk.deep_view()),
    {
        let ghost entries = walk.deep_view();
        let ghost rules = self.rules();
        let ghost begun = self@;
        let mut k: usize = 0;
        proof {
            assert(entries.take(0) =~= Seq::<WalkEntryView>::empty());
        }
        while k < walk.len()
            invariant
                k <= walk.len(),
                entries == walk.deep_view(),
                rules == old(self).rules(),
                begun == old(self)@,
                self.rules() == rules,
                self@ == scan(rules, begun, entries.take(k as int)),
            decreases walk.len() - k,
        {
            let entry = &walk[k];
            let ghost seen = entries.take(k as int);
            let ghost rest = entries.skip(k + 1);
            proof {
                assert(entries.take(k + 1).drop_last() =~= seen);
                assert(entries.take(k + 1).last() == entry@);
                assert(entries =~= entries.take(k + 1) + rest);
                lemma_scan_split(rules, begun, entries.take(k + 1), rest);
            }
            let action = self.visit(entry.depth, entry.kind, entry.name.as_str());
            match action {
                Action::ReadFile => {
                    let content = match &entry.content {
                        Some(bytes) => Some(bytes.as_slice()),
                        None => None,
                    };
                    match self.record(content) {
                        Ok(()) => {},
                        Err(overflow) => {
                            proof {
                                let reached = step(rules, scan(rules, begun, seen), entry@);
                                let over = choose|l: Seq<char>|
                                    lines_of(reached.counts, l) > u64::MAX;
                                lemma_scan_grows(rules, reached, rest, over);
                            }
                            return Err(overflow);
                        },
                    }
                },
                _ => {},
            }
            k += 1;
        }
        proof {
            assert(entries.take(entries.len() as int) =~= entries);
            self.counts.lemma_fits();
        }
        Ok(())
    }
}

/// Counts the lines of the repository walked by `walk`, by language, unless a
/// count would no longer fit in 64 bits.
pub fn count_loc_in_directory(walk: &[WalkEntry], rules: &RuleSet) -> (outcome: Result<
    LanguageCounts,
    CountOverflow,
>)
    ensures
        outcome is Ok <==> fits(repository_counts(rules@, walk.deep_view())),
        outcome matches Ok(counts) ==> counts@ == repository_counts(rules@, walk.deep_view()),
{
    let mut scanner = Scanner::new(rules);
    match scanner.follow(walk) {
        Ok(()) => Ok(scanner.finish()),
        Err(overflow) => Err(overflow),
    }
}

} // verus!
