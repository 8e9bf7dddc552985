//! The change journal: which source files a run has to transfer.
//!
//! The caller walks the directory trees and reports what it found below
//! each root. Which of the files are left out, and which are selected, is
//! decided here.

use crate::config::Config;
use crate::paths::{
    destination_of, is_separator, is_under, join_chars, joined, label_chars, label_of,
    labels_distinct, lemma_classified_by_first, lemma_joined_is_under, lemma_label_is_safe,
    lemma_trim_nothing, lemma_trim_one, lies_under, relative_to, trim_leading, trimmed_from,
};
use crate::state::Timestamp;
use crate::text::{chars_of, contains_text, string_of, texts};
use vstd::prelude::*;

verus! {

/// `globset::Glob`: a parsed pattern. Nothing is known of what is inside.
#[verifier::external_type_specification]
#[verifier::external_body]
pub struct ExGlob(globset::Glob);

/// `globset::GlobSet`: patterns compiled into one matcher. Nothing is known
/// of what is inside.
#[verifier::external_type_specification]
#[verifier::external_body]
pub struct ExGlobSet(globset::GlobSet);

/// `globset::Error`: why a pattern or a set was refused.
#[verifier::external_type_specification]
#[verifier::external_body]
pub struct ExGlobError(globset::Error);

/// Whether `globset::Glob::new` takes `pattern` for a glob. The answer is
/// the one of the platform that the crate is built for: where `\` separates
/// paths, globset does not read it as an escape.
pub uninterp spec fn glob_parses(pattern: Seq<char>) -> bool;

/// The pattern that a glob was made from (`globset::Glob::glob`).
pub uninterp spec fn glob_pattern(glob: globset::Glob) -> Seq<char>;

/// Whether `globset::GlobSet::new` builds a set from the globs that
/// `globset::Glob::new` makes of these patterns.
pub uninterp spec fn glob_set_builds(patterns: Seq<Seq<char>>) -> bool;

/// The patterns of the globs that a set was built from, in order.
pub uninterp spec fn glob_set_patterns(set: globset::GlobSet) -> Seq<Seq<char>>;

/// Whether a set built from the globs that `globset::Glob::new` makes of
/// these patterns matches `path` (`globset::GlobSet::is_match`). The answer
/// is the one of the platform that the crate is built for: where `\`
/// separates paths, globset reads it in `path` as `/`.
pub uninterp spec fn glob_set_matches(patterns: Seq<Seq<char>>, path: Seq<char>) -> bool;

/// The patterns of a list of globs.
pub open spec fn patterns_of(globs: Seq<globset::Glob>) -> Seq<Seq<char>> {
    globs.map_values(|g: globset::Glob| glob_pattern(g))
}

/// `globset::Glob::new`: parses `pattern` with the default options. Whether
/// it parses depends on the pattern alone; the glob it gives is one of that
/// pattern.
#[verifier::external_body]
fn compile_glob(pattern: &str) -> (out: Result<globset::Glob, globset::Error>)
    ensures
        out is Ok <==> glob_parses(pattern@),
        out matches Ok(glob) ==> glob_pattern(glob) == pattern@,
{
    globset::Glob::new(pattern)
}

/// `globset::GlobSet::new`: builds one matcher from `globs`, which are
/// globs that `compile_glob` gave; this crate makes no others. Whether the
/// matcher can be built depends on their patterns alone, and from no globs
/// it always can; the set it gives is one of those patterns.
#[verifier::external_body]
fn compile_set(globs: &Vec<globset::Glob>) -> (out: Result<globset::GlobSet, globset::Error>)
    ensures
        out is Ok <==> glob_set_builds(patterns_of(globs@)),
        globs@.len() == 0 ==> out is Ok,
        out matches Ok(set) ==> glob_set_patterns(set) == patterns_of(globs@),
{
    globset::GlobSet::new(globs)
}

/// `globset::GlobSet::is_match`: whether any glob of the set matches
/// `path`. The answer depends on the set's patterns and the path alone, and
/// a set of no globs matches nothing.
#[verifier::external_body]
fn set_matches(set: &globset::GlobSet, path: &str) -> (hit: bool)
    ensures
        hit == glob_set_matches(glob_set_patterns(*set), path@),
        glob_set_patterns(*set).len() == 0 ==> !hit,
{
    set.is_match(path)
}

/// The message of a `globset::Error`, as its `Display` writes it.
#[verifier::external_body]
fn describe(error: &globset::Error) -> String {
    format!("{}", error)
}

/// Why the exclude patterns cannot be used.
#[derive(Debug, PartialEq, Eq)]
pub enum JournalError {
    /// The pattern at `index` is no glob.
    InvalidPattern { index: usize, reason: String },
    /// Each pattern is a glob, and yet they cannot be compiled together.
    PatternSet { reason: String },
}

/// What the caller found at one path below a root.
#[derive(Debug)]
pub struct SourceEntry {
    pub path: String,
    /// Whether the entry is a regular file.
    pub is_file: bool,
    /// When the file was last modified, where that can be read.
    pub modified: Option<Timestamp>,
    /// The size of the file in bytes.
    pub size: u64,
    /// Whether the projected destination of the path exists.
    pub in_destination: bool,
}

/// What the caller found below one root.
#[derive(Debug)]
pub struct RootListing {
    pub root: String,
    pub entries: Vec<SourceEntry>,
}

/// An entry as contracts see it.
pub struct EntryView {
    pub path: Seq<char>,
    pub is_file: bool,
    pub modified: Option<Timestamp>,
    pub size: u64,
    pub in_destination: bool,
}

/// A listing as contracts see it.
pub struct ListingView {
    pub root: Seq<char>,
    pub entries: Seq<EntryView>,
}

impl View for SourceEntry {
    type V = EntryView;

    open spec fn view(&self) -> EntryView {
        EntryView {
            path: self.path@,
            is_file: self.is_file,
            modified: self.modified,
            size: self.size,
            in_destination: self.in_destination,
        }
    }
}

impl View for RootListing {
    type V = ListingView;

    open spec fn view(&self) -> ListingView {
        ListingView { root: self.root@, entries: self.entries@.map_values(|e: SourceEntry| e@) }
    }
}

/// The views of a list of listings.
pub open spec fn listing_views(listings: Seq<RootListing>) -> Seq<ListingView> {
    listings.map_values(|l: RootListing| l@)
}

/// Whether the first `k` characters of `path` name a directory on the way
/// from `root` to `path`, or `path` itself.
pub open spec fn is_level(root: Seq<char>, path: Seq<char>, k: int) -> bool {
    root.len() < k <= path.len() && (k == path.len() || is_separator(path[k]))
}

/// Whether one of `patterns` matches `path`. No patterns match nothing.
pub open spec fn matches_any(patterns: Seq<Seq<char>>, path: Seq<char>) -> bool {
    patterns.len() > 0 && glob_set_matches(patterns, path)
}

/// Whether `path`, found below `root`, is left out: one of the patterns
/// matches the root, the path, or a directory between the two.
pub open spec fn excluded_under(
    patterns: Seq<Seq<char>>,
    root: Seq<char>,
    path: Seq<char>,
) -> bool {
    matches_any(patterns, root) || exists|k: int|
        is_level(root, path, k) && matches_any(patterns, #[trigger] path.take(k))
}

/// Whether a file last modified at `modified` needs a transfer: it changed
/// after `since`, or its copy is to be looked for and is not there.
pub open spec fn needs_update(
    modified: Timestamp,
    since: Timestamp,
    check_destination: bool,
    in_destination: bool,
) -> bool {
    modified.later_than(since) || (check_destination && !in_destination)
}

/// Whether an entry found below `root` is selected.
pub open spec fn selects(
    entry: EntryView,
    root: Seq<char>,
    patterns: Seq<Seq<char>>,
    since: Timestamp,
    check_destination: bool,
) -> bool {
    &&& entry.is_file
    &&& !excluded_under(patterns, root, entry.path)
    &&& entry.modified matches Some(modified) && needs_update(
        modified,
        since,
        check_destination,
        entry.in_destination,
    )
}

/// The selected ones of the first `upto` entries of a listing, in order.
pub open spec fn selected_entries(
    listing: ListingView,
    patterns: Seq<Seq<char>>,
    since: Timestamp,
    check_destination: bool,
    upto: int,
) -> Seq<EntryView>
    decreases upto,
{
    if upto <= 0 {
        Seq::empty()
    } else {
        let before = selected_entries(listing, patterns, since, check_destination, upto - 1);
        if selects(listing.entries[upto - 1], listing.root, patterns, since, check_destination) {
            before.push(listing.entries[upto - 1])
        } else {
            before
        }
    }
}

/// The selected entries of the first `upto` listings, listing after
/// listing.
pub open spec fn changed_entries(
    listings: Seq<ListingView>,
    patterns: Seq<Seq<char>>,
    since: Timestamp,
    check_destination: bool,
    upto: int,
) -> Seq<EntryView>
    decreases upto,
{
    if upto <= 0 {
        Seq::empty()
    } else {
        changed_entries(listings, patterns, since, check_destination, upto - 1) + selected_entries(
            listings[upto - 1],
            patterns,
            since,
            check_destination,
            listings[upto - 1].entries.len() as int,
        )
    }
}

/// The paths of a list of entries.
pub open spec fn entry_paths(entries: Seq<EntryView>) -> Seq<Seq<char>> {
    entries.map_values(|e: EntryView| e.path)
}

/// `entries` with each path once: an entry stays where no entry before it
/// has its path.
pub open spec fn first_of_each(entries: Seq<EntryView>) -> Seq<EntryView>
    decreases entries.len(),
{
    if entries.len() == 0 {
        Seq::empty()
    } else {
        let before = first_of_each(entries.drop_last());
        if entry_paths(before).contains(entries.last().path) {
            before
        } else {
            before.push(entries.last())
        }
    }
}

/// The entries to transfer: the selected entries, each path once, at the
/// place where it is selected first.
pub open spec fn changed_once(
    listings: Seq<ListingView>,
    patterns: Seq<Seq<char>>,
    since: Timestamp,
    check_destination: bool,
) -> Seq<EntryView> {
    first_of_each(
        changed_entries(listings, patterns, since, check_destination, listings.len() as int),
    )
}

/// The files to transfer: the set of the paths of the selected entries, in
/// the order in which they are selected first.
pub open spec fn changed(
    listings: Seq<ListingView>,
    patterns: Seq<Seq<char>>,
    since: Timestamp,
    check_destination: bool,
) -> Seq<Seq<char>> {
    entry_paths(changed_once(listings, patterns, since, check_destination))
}

/// What `first_of_each` keeps: no path twice, and every path that was
/// there.
pub proof fn lemma_first_of_each(entries: Seq<EntryView>)
    ensures
        entry_paths(first_of_each(entries)).no_duplicates(),
        forall|p: Seq<char>|
            #[trigger] entry_paths(first_of_each(entries)).contains(p) <==> entry_paths(
                entries,
            ).contains(p),
        forall|n: int|
            0 <= n < first_of_each(entries).len() ==> entries.contains(
                #[trigger] first_of_each(entries)[n],
            ),
        first_of_each(entries).len() <= entries.len(),
    decreases entries.len(),
{
    let kept = first_of_each(entries);
    if entries.len() > 0 {
        let rest = entries.drop_last();
        let last = entries.last();
        let before = first_of_each(rest);
        lemma_first_of_each(rest);
        assert forall|p: Seq<char>| #[trigger]
            entry_paths(kept).contains(p) <==> entry_paths(entries).contains(p) by {
            if entry_paths(kept).contains(p) {
                let i = choose|i: int| 0 <= i < kept.len() && entry_paths(kept)[i] == p;
                if i < before.len() {
                    assert(entry_paths(before)[i] == p);
                    assert(entry_paths(before).contains(p));
                    assert(entry_paths(rest).contains(p));
                    let j = choose|j: int| 0 <= j < rest.len() && entry_paths(rest)[j] == p;
                    assert(entry_paths(entries)[j] == p);
                } else {
                    assert(entry_paths(entries)[entries.len() - 1] == p);
                }
            }
            if entry_paths(entries).contains(p) {
                let j = choose|j: int| 0 <= j < entries.len() && entry_paths(entries)[j] == p;
                if j < rest.len() {
                    assert(entry_paths(rest)[j] == p);
                    assert(entry_paths(before).contains(p));
                    let i = choose|i: int| 0 <= i < before.len() && entry_paths(before)[i] == p;
                    assert(entry_paths(kept)[i] == p);
                } else if entry_paths(before).contains(p) {
                    let i = choose|i: int| 0 <= i < before.len() && entry_paths(before)[i] == p;
                    assert(entry_paths(kept)[i] == p);
                } else {
                    assert(entry_paths(kept)[kept.len() - 1] == p);
                }
            }
        }
        assert forall|a: int, b: int| 0 <= a < kept.len() && 0 <= b < kept.len() && a
            != b implies entry_paths(kept)[a] != entry_paths(kept)[b] by {
            if a < before.len() {
                assert(entry_paths(before)[a] == entry_paths(kept)[a]);
            }
            if b < before.len() {
                assert(entry_paths(before)[b] == entry_paths(kept)[b]);
            }
        }
        assert forall|n: int| 0 <= n < kept.len() implies entries.contains(#[trigger] kept[n]) by {
            if n < before.len() {
                assert(rest.contains(before[n]));
                let j = choose|j: int| 0 <= j < rest.len() && rest[j] == before[n];
                assert(entries[j] == kept[n]);
            } else {
                assert(entries[entries.len() - 1] == kept[n]);
            }
        }
    }
}

/// No pattern, nothing left out.
pub proof fn lemma_no_patterns_exclude_nothing(root: Seq<char>, path: Seq<char>)
    ensures
        !excluded_under(Seq::empty(), root, path),
{
}

/// The index of the first pattern among the first `upto` that is no glob.
pub open spec fn first_invalid(patterns: Seq<Seq<char>>, upto: int) -> Option<int>
    decreases upto,
{
    if upto <= 0 {
        None
    } else {
        match first_invalid(patterns, upto - 1) {
            Some(i) => Some(i),
            None => if glob_parses(patterns[upto - 1]) {
                None
            } else {
                Some(upto - 1)
            },
        }
    }
}

/// Once a pattern that is no glob has been found, it stays the first.
pub proof fn lemma_first_invalid_stays(patterns: Seq<Seq<char>>, upto: int, end: int)
    requires
        upto <= end,
        first_invalid(patterns, upto) is Some,
    ensures
        first_invalid(patterns, end) == first_invalid(patterns, upto),
    decreases end - upto,
{
    if upto < end {
        lemma_first_invalid_stays(patterns, upto, end - 1);
    }
}

/// Whether the patterns can be used: each is a glob, and they compile
/// together.
pub open spec fn patterns_usable(patterns: Seq<Seq<char>>) -> bool {
    first_invalid(patterns, patterns.len() as int) is None && glob_set_builds(patterns)
}

/// The exclude patterns, compiled.
pub struct ExcludeSet {
    set: globset::GlobSet,
}

impl ExcludeSet {
    /// The patterns that the set was compiled from.
    pub closed spec fn patterns(&self) -> Seq<Seq<char>> {
        glob_set_patterns(self.set)
    }

    /// Compiles the exclude patterns.
    pub fn compile(patterns: &Vec<String>) -> (out: Result<ExcludeSet, JournalError>)
        ensures
            out is Ok <==> patterns_usable(texts(patterns@)),
            out matches Ok(set) ==> set.patterns() == texts(patterns@),
            out matches Err(JournalError::InvalidPattern { index, .. }) ==> first_invalid(
                texts(patterns@),
                patterns.len() as int,
            ) == Some(index as int),
            out matches Err(JournalError::PatternSet { .. }) ==> first_invalid(
                texts(patterns@),
                patterns.len() as int,
            ) is None,
            patterns.len() == 0 ==> out is Ok,
    {
        let ghost all = texts(patterns@);
        let mut globs: Vec<globset::Glob> = Vec::new();
        let mut i: usize = 0;
        while i < patterns.len()
            invariant
                i <= patterns.len(),
                all == texts(patterns@),
                first_invalid(all, i as int) is None,
                patterns_of(globs@) == all.take(i as int),
            decreases patterns.len() - i,
        {
            let ghost before = globs@;
            assert(all[i as int] == patterns@[i as int]@);
            match compile_glob(patterns[i].as_str()) {
                Ok(glob) => {
                    globs.push(glob);
                    assert(globs@ == before.push(glob));
                    assert(patterns_of(globs@) =~= patterns_of(before).push(glob_pattern(glob)));
                    assert(patterns_of(globs@) =~= all.take(i + 1));
                },
                Err(error) => {
                    proof {
                        lemma_first_invalid_stays(all, i + 1, patterns.len() as int);
                    }
                    return Err(JournalError::InvalidPattern { index: i, reason: describe(&error) });
                },
            }
            i += 1;
        }
        assert(all.take(patterns.len() as int) =~= all);
        match compile_set(&globs) {
            Ok(set) => Ok(ExcludeSet { set }),
            Err(error) => Err(JournalError::PatternSet { reason: describe(&error) }),
        }
    }

    /// Whether the patterns match `path` itself.
    pub fn is_match(&self, path: &str) -> (hit: bool)
        ensures
            hit == matches_any(self.patterns(), path@),
    {
        set_matches(&self.set, path)
    }

    /// Whether `path`, found below `root`, is left out.
    pub fn excludes(&self, root: &str, path: &str) -> (out: bool)
        ensures
            out == excluded_under(self.patterns(), root@, path@),
    {
        if self.is_match(root) {
            return true;
        }
        let root_len: usize = chars_of(root).len();
        let chars = chars_of(path);
        let mut prefix: Vec<char> = Vec::new();
        let mut k: usize = 0;
        while k < chars.len()
            invariant
                k <= chars.len(),
                chars@ == path@,
                root_len == root@.len(),
                prefix@ == chars@.take(k as int),
                forall|j: int|
                    is_level(root@, path@, j) && j <= k ==> !matches_any(
                        self.patterns(),
                        #[trigger] path@.take(j),
                    ),
            decreases chars.len() - k,
        {
            prefix.push(chars[k]);
            k += 1;
            assert(prefix@ =~= chars@.take(k as int));
            if k > root_len && (k == chars.len() || chars[k] == '/' || chars[k] == '\\') {
                if self.is_match(string_of(&prefix).as_str()) {
                    assert(is_level(root@, path@, k as int));
                    return true;
                }
            }
        }
        false
    }
}

/// Whether a file last modified at `modified` needs a transfer.
pub fn needs_transfer(
    modified: &Timestamp,
    since: &Timestamp,
    check_destination: bool,
    in_destination: bool,
) -> (needed: bool)
    ensures
        needed == needs_update(*modified, *since, check_destination, in_destination),
{
    modified.is_after(since) || (check_destination && !in_destination)
}

fn is_selected(
    entry: &SourceEntry,
    root: &str,
    excludes: &ExcludeSet,
    since: &Timestamp,
    check_destination: bool,
) -> (selected: bool)
    ensures
        selected == selects(entry@, root@, excludes.patterns(), *since, check_destination),
{
    if !entry.is_file {
        return false;
    }
    match entry.modified {
        Some(modified) => {
            if !needs_transfer(&modified, since, check_destination, entry.in_destination) {
                return false;
            }
            !excludes.excludes(root, entry.path.as_str())
        },
        None => false,
    }
}

/// The places of the selected entries: the index of the listing and that
/// of the entry in it, in order.
fn pick_changed(
    since: &Timestamp,
    listings: &Vec<RootListing>,
    excludes: &ExcludeSet,
    check_destination: bool,
) -> (out: Vec<(usize, usize)>)
    ensures
        out@.len() == changed_entries(
            listing_views(listings@),
            excludes.patterns(),
            *since,
            check_destination,
            listings.len() as int,
        ).len(),
        forall|n: int|
            0 <= n < out@.len() ==> {
                &&& (#[trigger] out@[n]).0 < listings.len()
                &&& out@[n].1 < listings@[out@[n].0 as int].entries.len()
                &&& listings@[out@[n].0 as int].entries@[out@[n].1 as int]@ == changed_entries(
                    listing_views(listings@),
                    excludes.patterns(),
                    *since,
                    check_destination,
                    listings.len() as int,
                )[n]
            },
{
    let ghost views = listing_views(listings@);
    let ghost patterns = excludes.patterns();
    let mut out: Vec<(usize, usize)> = Vec::new();
    let mut i: usize = 0;
    while i < listings.len()
        invariant
            i <= listings.len(),
            views == listing_views(listings@),
            patterns == excludes.patterns(),
            out@.len() == changed_entries(views, patterns, *since, check_destination, i as int).len(),
            forall|n: int|
                0 <= n < out@.len() ==> {
                    &&& (#[trigger] out@[n]).0 < listings.len()
                    &&& out@[n].1 < listings@[out@[n].0 as int].entries.len()
                    &&& listings@[out@[n].0 as int].entries@[out@[n].1 as int]@ == changed_entries(
                        views,
                        patterns,
                        *since,
                        check_destination,
                        i as int,
                    )[n]
                },
        decreases listings.len() - i,
    {
        let listing = &listings[i];
        let ghost before = changed_entries(views, patterns, *since, check_destination, i as int);
        let mut j: usize = 0;
        while j < listing.entries.len()
            invariant
                i < listings.len(),
                j <= listing.entries.len(),
                *listing == listings@[i as int],
                views == listing_views(listings@),
                patterns == excludes.patterns(),
                before == changed_entries(views, patterns, *since, check_destination, i as int),
                out@.len() == (before + selected_entries(
                    views[i as int],
                    patterns,
                    *since,
                    check_destination,
                    j as int,
                )).len(),
                forall|n: int|
                    0 <= n < out@.len() ==> {
                        &&& (#[trigger] out@[n]).0 < listings.len()
                        &&& out@[n].1 < listings@[out@[n].0 as int].entries.len()
                        &&& listings@[out@[n].0 as int].entries@[out@[n].1 as int]@ == (before
                            + selected_entries(
                            views[i as int],
                            patterns,
                            *since,
                            check_destination,
                            j as int,
                        ))[n]
                    },
            decreases listing.entries.len() - j,
        {
            assert(views[i as int].entries[j as int] == listing.entries@[j as int]@);
            if is_selected(
                &listing.entries[j],
                listing.root.as_str(),
                excludes,
                since,
                check_destination,
            ) {
                out.push((i, j));
            }
            j += 1;
        }
        assert(views[i as int].entries.len() == listing.entries.len());
        i += 1;
    }
    out
}

/// The sum of two byte counts, at most `u64::MAX`.
pub open spec fn saturating_sum(a: u64, b: u64) -> u64 {
    if a + b > u64::MAX {
        u64::MAX
    } else {
        (a + b) as u64
    }
}

/// The sizes of `entries` together, at most `u64::MAX`.
pub open spec fn total_size(entries: Seq<EntryView>) -> u64
    decreases entries.len(),
{
    if entries.len() == 0 {
        0
    } else {
        saturating_sum(total_size(entries.drop_last()), entries.last().size)
    }
}

/// What a scan found.
#[derive(Debug, PartialEq, Eq)]
pub struct ScanReport {
    /// The files to transfer.
    pub files: Vec<String>,
    /// Their sizes together, at most `u64::MAX`.
    pub total_bytes: u64,
}

/// The files to transfer and what they weigh, given the compiled exclude
/// patterns: the selected entries of the listings in order, each path once.
pub fn select_changed(
    since: &Timestamp,
    listings: &Vec<RootListing>,
    excludes: &ExcludeSet,
    check_destination: bool,
) -> (out: ScanReport)
    ensures
        texts(out.files@) == changed(
            listing_views(listings@),
            excludes.patterns(),
            *since,
            check_destination,
        ),
        texts(out.files@).no_duplicates(),
        out.total_bytes == total_size(
            changed_once(listing_views(listings@), excludes.patterns(), *since, check_destination),
        ),
{
    let picked = pick_changed(since, listings, excludes, check_destination);
    let ghost wanted = changed_entries(
        listing_views(listings@),
        excludes.patterns(),
        *since,
        check_destination,
        listings.len() as int,
    );
    let mut files: Vec<String> = Vec::new();
    let mut total: u64 = 0;
    let mut n: usize = 0;
    assert(wanted.take(0) =~= Seq::<EntryView>::empty());
    while n < picked.len()
        invariant
            n <= picked.len(),
            picked@.len() == wanted.len(),
            forall|m: int|
                0 <= m < picked@.len() ==> {
                    &&& (#[trigger] picked@[m]).0 < listings.len()
                    &&& picked@[m].1 < listings@[picked@[m].0 as int].entries.len()
                    &&& listings@[picked@[m].0 as int].entries@[picked@[m].1 as int]@ == wanted[m]
                },
            texts(files@) == entry_paths(first_of_each(wanted.take(n as int))),
            total == total_size(first_of_each(wanted.take(n as int))),
        decreases picked.len() - n,
    {
        let (i, j) = picked[n];
        let entry = &listings[i].entries[j];
        let ghost before = files@;
        let ghost kept = first_of_each(wanted.take(n as int));
        assert(wanted.take(n + 1).drop_last() =~= wanted.take(n as int));
        assert(wanted.take(n + 1).last() == entry@);
        if !contains_text(&files, &entry.path) {
            files.push(entry.path.clone());
            total = total.saturating_add(entry.size);
            assert(texts(files@) =~= texts(before).push(entry@.path));
            assert(entry_paths(kept.push(entry@)) =~= entry_paths(kept).push(entry@.path));
            assert(kept.push(entry@).drop_last() =~= kept);
        }
        n += 1;
    }
    assert(wanted.take(picked.len() as int) =~= wanted);
    proof {
        lemma_first_of_each(wanted);
    }
    ScanReport { files, total_bytes: total }
}

/// The files to transfer, of those found below the roots: each regular
/// file that is not left out and that changed after `since`, or, where
/// `check_destination` is set, whose copy is missing. A file that more than
/// one root reaches is listed once. The patterns have to be globs that
/// compile together.
pub fn changed_files(
    since: Timestamp,
    listings: &Vec<RootListing>,
    exclude_patterns: &Vec<String>,
    check_destination: bool,
) -> (out: Result<Vec<String>, JournalError>)
    ensures
        out is Ok <==> patterns_usable(texts(exclude_patterns@)),
        out matches Ok(files) ==> texts(files@) == changed(
            listing_views(listings@),
            texts(exclude_patterns@),
            since,
            check_destination,
        ) && texts(files@).no_duplicates(),
        out matches Err(JournalError::InvalidPattern { index, .. }) ==> first_invalid(
            texts(exclude_patterns@),
            exclude_patterns.len() as int,
        ) == Some(index as int),
        out matches Err(JournalError::PatternSet { .. }) ==> first_invalid(
            texts(exclude_patterns@),
            exclude_patterns.len() as int,
        ) is None,
        exclude_patterns.len() == 0 ==> out is Ok,
{
    match ExcludeSet::compile(exclude_patterns) {
        Ok(excludes) => Ok(select_changed(&since, listings, &excludes, check_destination).files),
        Err(error) => Err(error),
    }
}

/// The directory below `destination` that holds the copies of the files
/// of `root`.
pub open spec fn backup_root_of(destination: Seq<char>, root: Seq<char>) -> Seq<char> {
    joined(destination, label_of(root))
}

/// The source file that the copy at `backup_path` was made from: the path
/// below the last root whose copies lie where `backup_path` lies. Nothing
/// where no root has its copies there.
pub open spec fn source_of(
    destination: Seq<char>,
    roots: Seq<Seq<char>>,
    backup_path: Seq<char>,
) -> Option<Seq<char>>
    decreases roots.len(),
{
    if roots.len() == 0 {
        None
    } else if is_under(backup_path, backup_root_of(destination, roots.last())) {
        Some(
            joined(
                roots.last(),
                relative_to(backup_path, backup_root_of(destination, roots.last())),
            ),
        )
    } else {
        source_of(destination, roots.drop_last(), backup_path)
    }
}

/// A copy is accounted for by the last root whose copies lie where it
/// lies.
pub proof fn lemma_source_by_last(
    destination: Seq<char>,
    roots: Seq<Seq<char>>,
    backup_path: Seq<char>,
    i: int,
)
    requires
        0 <= i < roots.len(),
        is_under(backup_path, backup_root_of(destination, roots[i])),
        forall|j: int|
            i < j < roots.len() ==> !is_under(
                backup_path,
                backup_root_of(destination, #[trigger] roots[j]),
            ),
    ensures
        source_of(destination, roots, backup_path) == Some(
            joined(roots[i], relative_to(backup_path, backup_root_of(destination, roots[i]))),
        ),
    decreases roots.len() - i,
{
    if i < roots.len() - 1 {
        let rest = roots.drop_last();
        assert(!is_under(backup_path, backup_root_of(destination, roots[roots.len() - 1])));
        assert(rest[i] == roots[i]);
        assert forall|j: int| i < j < rest.len() implies !is_under(
            backup_path,
            backup_root_of(destination, #[trigger] rest[j]),
        ) by {
            assert(rest[j] == roots[j]);
        }
        lemma_source_by_last(destination, rest, backup_path, i);
    }
}

/// The copies of roots with different labels, neither of them empty, lie
/// apart: what lies below the copies of one root does not lie below those
/// of another.
pub proof fn lemma_labels_keep_apart(
    destination: Seq<char>,
    root: Seq<char>,
    other: Seq<char>,
    relative: Seq<char>,
)
    requires
        label_of(root).len() > 0,
        label_of(other).len() > 0,
        label_of(root) != label_of(other),
    ensures
        !is_under(
            joined(backup_root_of(destination, root), relative),
            backup_root_of(destination, other),
        ),
{
    let label = label_of(root);
    let theirs = label_of(other);
    lemma_label_is_safe(root);
    lemma_label_is_safe(other);
    lemma_trim_nothing(label);
    lemma_trim_nothing(theirs);
    let front = if destination.len() == 0 || is_separator(destination.last()) {
        destination
    } else {
        destination + seq!['/']
    };
    let mine = backup_root_of(destination, root);
    let there = backup_root_of(destination, other);
    assert(mine =~= front + label);
    assert(there =~= front + theirs);
    let path = joined(mine, relative);
    let tail = trim_leading(relative);
    assert(!is_separator(mine.last())) by {
        assert(mine.last() == label[label.len() - 1]);
    }
    assert(!is_separator(there.last())) by {
        assert(there.last() == theirs[theirs.len() - 1]);
    }
    if is_under(path, there) {
        assert(there =~= path.subrange(0, there.len() as int));
        assert forall|k: int| 0 <= k < theirs.len() && k < path.len() - front.len() implies theirs[k]
            == #[trigger] path[front.len() + k] by {
            assert(there[front.len() + k] == theirs[k]);
            assert(there[front.len() + k] == path.subrange(0, there.len() as int)[front.len() + k]);
        }
        assert forall|k: int| 0 <= k < label.len() implies label[k] == #[trigger] path[front.len()
            + k] by {
            assert(mine[front.len() + k] == label[k]);
        }
        if theirs.len() < label.len() {
            assert(path[there.len() as int] == label[theirs.len() as int]);
        } else if theirs.len() == label.len() {
            assert forall|k: int| 0 <= k < label.len() implies theirs[k] == label[k] by {
                assert(theirs[k] == path[front.len() + k]);
                assert(label[k] == path[front.len() + k]);
            }
            assert(theirs =~= label);
        } else {
            assert(tail.len() > 0);
            assert(path =~= mine + seq!['/'] + tail);
            assert(theirs[label.len() as int] == path[(front.len() + label.len()) as int]);
            assert(path[mine.len() as int] == '/');
        }
    }
}

/// The projection into the destination tree can be undone: the copy of a
/// file below a root is accounted for by that root, and leads back to the
/// file. This holds where the roots can be told apart by their labels, and
/// of a path written as the root, one separator, and a relative path.
pub proof fn lemma_projection_is_reversible(
    destination: Seq<char>,
    roots: Seq<Seq<char>>,
    i: int,
    relative: Seq<char>,
)
    requires
        0 <= i < roots.len(),
        roots[i].len() > 0,
        !is_separator(roots[i].last()),
        relative.len() > 0,
        !is_separator(relative[0]),
        labels_distinct(roots),
        forall|j: int|
            0 <= j < i ==> !is_under(roots[i] + seq!['/'] + relative, #[trigger] roots[j]),
    ensures
        source_of(
            destination,
            roots,
            destination_of(destination, roots, roots[i] + seq!['/'] + relative),
        ) == Some(roots[i] + seq!['/'] + relative),
{
    let root = roots[i];
    let path = root + seq!['/'] + relative;
    assert(is_under(path, root)) by {
        assert(root =~= path.subrange(0, root.len() as int));
        assert(path[root.len() as int] == '/');
    }
    lemma_classified_by_first(path, roots, i);
    assert(path.skip(root.len() as int) =~= seq!['/'] + relative);
    lemma_trim_one(relative);
    lemma_trim_nothing(relative);
    assert(relative_to(path, root) == relative);
    let mine = backup_root_of(destination, root);
    let copy = destination_of(destination, roots, path);
    assert(copy == joined(mine, relative));
    lemma_joined_is_under(mine, relative);
    assert forall|j: int| i < j < roots.len() implies !is_under(
        copy,
        backup_root_of(destination, #[trigger] roots[j]),
    ) by {
        lemma_labels_keep_apart(destination, root, roots[j], relative);
    }
    lemma_source_by_last(destination, roots, copy, i);
    lemma_label_is_safe(root);
    lemma_trim_nothing(label_of(root));
    assert(!is_separator(mine.last())) by {
        let label = label_of(root);
        if destination.len() == 0 || is_separator(destination.last()) {
            assert(mine =~= destination + label);
        } else {
            assert(mine =~= destination + seq!['/'] + label);
        }
        assert(mine.last() == label[label.len() - 1]);
    }
    assert(copy =~= mine + seq!['/'] + relative);
    assert(copy.skip(mine.len() as int) =~= seq!['/'] + relative);
    assert(relative_to(copy, mine) == relative);
    assert(joined(root, relative) =~= path);
}

/// The source file that the copy at `backup_path` was made from.
pub fn source_path(destination: &str, config: &Config, backup_path: &str) -> (out: Option<String>)
    ensures
        match out {
            Some(path) => source_of(destination@, config@.includes, backup_path@) == Some(path@),
            None => source_of(destination@, config@.includes, backup_path@) is None,
        },
{
    let roots = &config.paths.includes;
    let ghost all = texts(roots@);
    let base = chars_of(destination);
    let path = chars_of(backup_path);
    let mut i: usize = roots.len();
    assert(all.take(roots.len() as int) =~= all);
    while i > 0
        invariant
            i <= roots.len(),
            all == texts(roots@),
            all == config@.includes,
            base@ == destination@,
            path@ == backup_path@,
            source_of(destination@, all, backup_path@) == source_of(
                destination@,
                all.take(i as int),
                backup_path@,
            ),
        decreases i,
    {
        let root = chars_of(roots[i - 1].as_str());
        let backup_root = join_chars(&base, &label_chars(&root));
        assert(all.take(i as int).last() == root@);
        if lies_under(&path, &backup_root) {
            let relative = trimmed_from(&path, backup_root.len());
            return Some(string_of(&join_chars(&root, &relative)));
        }
        assert(all.take(i as int).drop_last() =~= all.take(i - 1));
        i -= 1;
    }
    assert(all.take(0).len() == 0);
    None
}

/// A copy in the destination, and whether its source still exists.
#[derive(Debug)]
pub struct BackupEntry {
    pub path: String,
    pub source_present: bool,
}

/// A copy as contracts see it.
pub struct BackupEntryView {
    pub path: Seq<char>,
    pub source_present: bool,
}

impl View for BackupEntry {
    type V = BackupEntryView;

    open spec fn view(&self) -> BackupEntryView {
        BackupEntryView { path: self.path@, source_present: self.source_present }
    }
}

/// The views of a list of copies.
pub open spec fn backup_views(entries: Seq<BackupEntry>) -> Seq<BackupEntryView> {
    entries.map_values(|e: BackupEntry| e@)
}

/// Those of the first `upto` copies that a root accounts for and whose
/// source is gone, in order.
pub open spec fn removed(
    destination: Seq<char>,
    roots: Seq<Seq<char>>,
    entries: Seq<BackupEntryView>,
    upto: int,
) -> Seq<Seq<char>>
    decreases upto,
{
    if upto <= 0 {
        Seq::empty()
    } else {
        let before = removed(destination, roots, entries, upto - 1);
        let entry = entries[upto - 1];
        if source_of(destination, roots, entry.path) is Some && !entry.source_present {
            before.push(entry.path)
        } else {
            before
        }
    }
}

/// The copies whose source files are gone: those that belong in the
/// history tree now.
pub fn find_removed_files(destination: &str, config: &Config, entries: &Vec<BackupEntry>) -> (out:
    Vec<String>)
    ensures
        texts(out@) == removed(
            destination@,
            config@.includes,
            backup_views(entries@),
            entries.len() as int,
        ),
{
    let ghost views = backup_views(entries@);
    let mut out: Vec<String> = Vec::new();
    let mut i: usize = 0;
    while i < entries.len()
        invariant
            i <= entries.len(),
            views == backup_views(entries@),
            texts(out@) == removed(destination@, config@.includes, views, i as int),
        decreases entries.len() - i,
    {
        let entry = &entries[i];
        assert(views[i as int] == entry@);
        let ghost before = out@;
        if !entry.source_present && source_path(
            destination,
            config,
            entry.path.as_str(),
        ).is_some() {
            out.push(entry.path.clone());
            assert(texts(out@) =~= texts(before).push(entry.path@));
        }
        i += 1;
    }
    out
}

/// No file at or below a directory that the patterns match is selected,
/// however deep it lies.
pub proof fn lemma_excluded_subtree_is_skipped(
    entry: EntryView,
    root: Seq<char>,
    patterns: Seq<Seq<char>>,
    since: Timestamp,
    check_destination: bool,
    k: int,
)
    requires
        is_level(root, entry.path, k),
        matches_any(patterns, entry.path.take(k)),
    ensures
        !selects(entry, root, patterns, since, check_destination),
{
}

/// A path that is left out wherever it was found is no file to transfer:
/// where each root that reaches it has a directory on the way to it that a
/// pattern matches, however deep the path lies, it is not selected.
pub proof fn lemma_excluded_never_listed(
    listings: Seq<ListingView>,
    patterns: Seq<Seq<char>>,
    since: Timestamp,
    check_destination: bool,
    path: Seq<char>,
)
    requires
        forall|i: int, j: int|
            0 <= i < listings.len() && 0 <= j < listings[i].entries.len() && (
            #[trigger] listings[i].entries[j]).path == path ==> excluded_under(
                patterns,
                listings[i].root,
                path,
            ),
    ensures
        !changed(listings, patterns, since, check_destination).contains(path),
{
    let once = changed_once(listings, patterns, since, check_destination);
    if entry_paths(once).contains(path) {
        let n = choose|n: int| 0 <= n < once.len() && entry_paths(once)[n] == path;
        lemma_changed_once_are_selected(listings, patterns, since, check_destination, n);
    }
}

/// Every file to transfer belongs to a regular file that was found below
/// a root, that no pattern leaves out there, and that needs a transfer.
pub proof fn lemma_changed_once_are_selected(
    listings: Seq<ListingView>,
    patterns: Seq<Seq<char>>,
    since: Timestamp,
    check_destination: bool,
    n: int,
)
    requires
        0 <= n < changed_once(listings, patterns, since, check_destination).len(),
    ensures
        exists|i: int, j: int|
            0 <= i < listings.len() && 0 <= j < listings[i].entries.len()
                && #[trigger] listings[i].entries[j] == changed_once(
                listings,
                patterns,
                since,
                check_destination,
            )[n] && selects(listings[i].entries[j], listings[i].root, patterns, since, check_destination),
{
    let all = changed_entries(listings, patterns, since, check_destination, listings.len() as int);
    lemma_first_of_each(all);
    let entry = changed_once(listings, patterns, since, check_destination)[n];
    assert(all.contains(entry));
    let m = choose|m: int| 0 <= m < all.len() && all[m] == entry;
    lemma_changed_are_selected(
        listings,
        patterns,
        since,
        check_destination,
        listings.len() as int,
        m,
    );
}

/// Every path that is selected belongs to a regular file that no pattern
/// leaves out and that needs a transfer.
pub proof fn lemma_changed_are_selected(
    listings: Seq<ListingView>,
    patterns: Seq<Seq<char>>,
    since: Timestamp,
    check_destination: bool,
    upto: int,
    n: int,
)
    requires
        0 <= upto <= listings.len(),
        0 <= n < changed_entries(listings, patterns, since, check_destination, upto).len(),
    ensures
        exists|i: int, j: int|
            0 <= i < upto && 0 <= j < listings[i].entries.len() && #[trigger] listings[i].entries[j]
                == changed_entries(listings, patterns, since, check_destination, upto)[n]
                && selects(listings[i].entries[j], listings[i].root, patterns, since, check_destination),
    decreases upto,
{
    let before = changed_entries(listings, patterns, since, check_destination, upto - 1);
    if n < before.len() {
        lemma_changed_are_selected(listings, patterns, since, check_destination, upto - 1, n);
    } else {
        let listing = listings[upto - 1];
        lemma_selected_are_selected(
            listing,
            patterns,
            since,
            check_destination,
            listing.entries.len() as int,
            n - before.len(),
        );
    }
}

/// Every entry that is selected from a listing stands in it and meets
/// `selects`.
pub proof fn lemma_selected_are_selected(
    listing: ListingView,
    patterns: Seq<Seq<char>>,
    since: Timestamp,
    check_destination: bool,
    upto: int,
    n: int,
)
    requires
        0 <= upto <= listing.entries.len(),
        0 <= n < selected_entries(listing, patterns, since, check_destination, upto).len(),
    ensures
        exists|j: int|
            0 <= j < upto && #[trigger] listing.entries[j] == selected_entries(
                listing,
                patterns,
                since,
                check_destination,
                upto,
            )[n] && selects(listing.entries[j], listing.root, patterns, since, check_destination),
    decreases upto,
{
    let before = selected_entries(listing, patterns, since, check_destination, upto - 1);
    if n < before.len() {
        lemma_selected_are_selected(listing, patterns, since, check_destination, upto - 1, n);
    } else {
        assert(listing.entries[upto - 1] == selected_entries(
            listing,
            patterns,
            since,
            check_destination,
            upto,
        )[n]);
    }
}

/// Whether nothing found in a listing needs a transfer: no file changed
/// after `since`, and, where copies are looked for, each is there.
pub open spec fn settled(listing: ListingView, since: Timestamp, check_destination: bool) -> bool {
    forall|j: int|
        0 <= j < listing.entries.len() ==> match (#[trigger] listing.entries[j]).modified {
            Some(modified) => !needs_update(
                modified,
                since,
                check_destination,
                listing.entries[j].in_destination,
            ),
            None => true,
        }
}

/// From a listing in which nothing needs a transfer nothing is selected.
pub proof fn lemma_settled_selects_nothing(
    listing: ListingView,
    patterns: Seq<Seq<char>>,
    since: Timestamp,
    check_destination: bool,
    upto: int,
)
    requires
        upto <= listing.entries.len(),
        settled(listing, since, check_destination),
    ensures
        selected_entries(listing, patterns, since, check_destination, upto).len() == 0,
    decreases upto,
{
    if upto > 0 {
        lemma_settled_selects_nothing(listing, patterns, since, check_destination, upto - 1);
        assert(!selects(
            listing.entries[upto - 1],
            listing.root,
            patterns,
            since,
            check_destination,
        ));
    }
}

/// Where no source file changed after `since` and every copy is in place,
/// there is nothing to transfer.
pub proof fn lemma_unchanged_selects_nothing(
    listings: Seq<ListingView>,
    patterns: Seq<Seq<char>>,
    since: Timestamp,
    check_destination: bool,
)
    requires
        forall|i: int|
            0 <= i < listings.len() ==> settled(#[trigger] listings[i], since, check_destination),
    ensures
        changed(listings, patterns, since, check_destination).len() == 0,
{
    lemma_unchanged_upto(listings, patterns, since, check_destination, listings.len() as int);
    lemma_first_of_each(
        changed_entries(listings, patterns, since, check_destination, listings.len() as int),
    );
}

/// The same, of the first `upto` listings.
pub proof fn lemma_unchanged_upto(
    listings: Seq<ListingView>,
    patterns: Seq<Seq<char>>,
    since: Timestamp,
    check_destination: bool,
    upto: int,
)
    requires
        upto <= listings.len(),
        forall|i: int|
            0 <= i < listings.len() ==> settled(#[trigger] listings[i], since, check_destination),
    ensures
        changed_entries(listings, patterns, since, check_destination, upto).len() == 0,
    decreases upto,
{
    if upto > 0 {
        lemma_unchanged_upto(listings, patterns, since, check_destination, upto - 1);
        lemma_settled_selects_nothing(
            listings[upto - 1],
            patterns,
            since,
            check_destination,
            listings[upto - 1].entries.len() as int,
        );
    }
}

} // verus!
