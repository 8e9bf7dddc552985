//! Retention: which superseded versions of a file are kept.
//!
//! A version is a file whose name holds a stamp, `_YYYY-MM-DDTHH-MM-SS`,
//! at its end or before its extension. The versions of one file share a
//! key: their path without the stamp. Of each key the newest are kept.

use crate::clock::{datetime_parses, parses_as_datetime, stamp_format};
use crate::paths::{
    extension_of, file_name_chars, file_name_of, has_extension, history_name, is_separator,
    joined, last_separator, lemma_last_index_append, lemma_last_index_bounds, lemma_trim_nothing,
    slice_chars, stem_of,
};
use crate::text::{chars_of, digit_of, digit_value, is_digit, string_of};
use crate::utils::normalized;
use vstd::prelude::*;

verus! {

/// Whether `c` may stand at place `i` of a stamp.
pub open spec fn stamp_char(i: int, c: char) -> bool {
    if i == 4 || i == 7 || i == 13 || i == 16 {
        c == '-'
    } else if i == 10 {
        c == 'T'
    } else {
        is_digit(c)
    }
}

/// Whether `s` has the shape of a stamp: `YYYY-MM-DDTHH-MM-SS` in ASCII
/// digits.
pub open spec fn is_stamp(s: Seq<char>) -> bool {
    &&& s.len() == 19
    &&& forall|i: int| 0 <= i < 19 ==> stamp_char(i, #[trigger] s[i])
}

/// Whether `s` can mark a version: it has the shape of a stamp, and the
/// calendar takes it for a date and a time of day.
pub open spec fn usable_stamp(s: Seq<char>) -> bool {
    is_stamp(s) && datetime_parses(s, stamp_format())
}

/// The number that two digits from place `i` on write.
pub open spec fn pair_at(s: Seq<char>, i: int) -> nat {
    digit_value(s[i]) * 10 + digit_value(s[i + 1])
}

/// The moment that a stamp names, as one number: its fourteen digits, the
/// year first. A later moment is a greater number.
pub open spec fn moment_of(stamp: Seq<char>) -> nat {
    (((((pair_at(stamp, 0) * 100 + pair_at(stamp, 2)) * 100 + pair_at(stamp, 5)) * 100 + pair_at(
        stamp,
        8,
    )) * 100 + pair_at(stamp, 11)) * 100 + pair_at(stamp, 14)) * 100 + pair_at(stamp, 17)
}

/// Whether `name` holds a stamp from place `at` on: an underscore, the
/// stamp, and then either nothing or a dot and at least one character.
pub open spec fn splits_at(name: Seq<char>, at: int) -> bool {
    &&& 0 <= at
    &&& at + 20 <= name.len()
    &&& name[at] == '_'
    &&& is_stamp(name.subrange(at + 1, at + 20))
    &&& (at + 20 == name.len() || (name[at + 20] == '.' && at + 21 < name.len()))
}

/// The last place up to `upto` at which `name` holds a stamp, or -1.
pub open spec fn last_split(name: Seq<char>, upto: int) -> int
    decreases upto + 1,
{
    if upto < 0 {
        -1
    } else if splits_at(name, upto) {
        upto
    } else {
        last_split(name, upto - 1)
    }
}

/// The place at which the name of a version holds its stamp: the last one
/// that can be read so, which leaves the longest name before it. A name
/// with a line feed in it is none of a version. -1 where there is none.
pub open spec fn split_of(name: Seq<char>) -> int {
    if name.contains('\n') {
        -1
    } else {
        last_split(name, name.len() - 20)
    }
}

/// A version as contracts see it.
pub struct VersionView {
    /// The path that the versions of one file share.
    pub key: Seq<char>,
    /// When the version was superseded.
    pub moment: nat,
}

/// A version of a file: what its path says of it.
#[derive(Debug, PartialEq, Eq)]
pub struct Version {
    pub key: String,
    pub moment: u64,
}

impl View for Version {
    type V = VersionView;

    open spec fn view(&self) -> VersionView {
        VersionView { key: self.key@, moment: self.moment as nat }
    }
}

/// The views of a list of what was read from paths.
pub open spec fn version_views(list: Seq<Option<Version>>) -> Seq<Option<VersionView>> {
    list.map_values(
        |v: Option<Version>|
            match v {
                Some(version) => Some(version@),
                None => None,
            },
    )
}

/// The stamp in the name of a path whose name holds one.
pub open spec fn stamp_of(path: Seq<char>) -> Seq<char> {
    let name = file_name_of(normalized(path));
    name.subrange(split_of(name) + 1, split_of(name) + 20)
}

/// What the name of `path` says, whatever the calendar says of its stamp:
/// the key and the moment, where the name holds a stamp. Separators are
/// normalised first, so that one place has one key.
pub open spec fn candidate_of(path: Seq<char>) -> Option<VersionView> {
    let whole = normalized(path);
    let name = file_name_of(whole);
    let at = split_of(name);
    if at >= 0 {
        Some(
            VersionView {
                key: whole.take(whole.len() - name.len()) + name.take(at) + name.skip(at + 20),
                moment: moment_of(stamp_of(path)),
            },
        )
    } else {
        None
    }
}

/// What `path` is a version of: what its name says, where its stamp is a
/// date and a time of day; nothing otherwise.
pub open spec fn version_of(path: Seq<char>) -> Option<VersionView> {
    if candidate_of(path) is Some && datetime_parses(stamp_of(path), stamp_format()) {
        candidate_of(path)
    } else {
        None
    }
}

/// Whether the version at `j` is kept before the one at `i`: both are
/// versions of one file, and `j` is the newer, or as new and earlier in
/// the list.
pub open spec fn outranks(versions: Seq<Option<VersionView>>, j: int, i: int) -> bool {
    &&& 0 <= j < versions.len()
    &&& 0 <= i < versions.len()
    &&& versions[j] is Some
    &&& versions[i] is Some
    &&& versions[j]->0.key == versions[i]->0.key
    &&& (versions[j]->0.moment > versions[i]->0.moment || (versions[j]->0.moment
        == versions[i]->0.moment && j < i))
}

/// How many of the first `upto` entries are kept before the one at `i`.
pub open spec fn rank_within(versions: Seq<Option<VersionView>>, i: int, upto: int) -> nat
    decreases upto,
{
    if upto <= 0 {
        0
    } else if outranks(versions, upto - 1, i) {
        rank_within(versions, i, upto - 1) + 1
    } else {
        rank_within(versions, i, upto - 1)
    }
}

/// How many versions of the same file are kept before the one at `i`.
pub open spec fn rank(versions: Seq<Option<VersionView>>, i: int) -> nat {
    rank_within(versions, i, versions.len() as int)
}

/// Whether the entry at `i` is pruned when `keep` versions of each file
/// are kept: it is a version, and `keep` others are kept before it.
pub open spec fn prunable(versions: Seq<Option<VersionView>>, keep: nat, i: int) -> bool {
    &&& 0 <= i < versions.len()
    &&& versions[i] is Some
    &&& rank(versions, i) >= keep
}

/// The places among the first `upto` that are pruned, in order.
pub open spec fn pruned_indices(versions: Seq<Option<VersionView>>, keep: nat, upto: int) -> Seq<
    usize,
>
    decreases upto,
{
    if upto <= 0 {
        Seq::empty()
    } else if prunable(versions, keep, upto - 1) {
        pruned_indices(versions, keep, upto - 1).push((upto - 1) as usize)
    } else {
        pruned_indices(versions, keep, upto - 1)
    }
}

/// What each of `paths` is a version of.
pub open spec fn versions_of(paths: Seq<Seq<char>>) -> Seq<Option<VersionView>> {
    paths.map_values(|p: Seq<char>| version_of(p))
}

/// Those of the first `upto` of `paths` that are pruned, in order.
pub open spec fn pruned_paths(paths: Seq<Seq<char>>, keep: nat, upto: int) -> Seq<Seq<char>>
    decreases upto,
{
    if upto <= 0 {
        Seq::empty()
    } else if prunable(versions_of(paths), keep, upto - 1) {
        pruned_paths(paths, keep, upto - 1).push(paths[upto - 1])
    } else {
        pruned_paths(paths, keep, upto - 1)
    }
}

/// A rank only grows as more entries are looked at.
pub proof fn lemma_rank_grows(versions: Seq<Option<VersionView>>, i: int, upto: int, end: int)
    requires
        upto <= end,
    ensures
        rank_within(versions, i, upto) <= rank_within(versions, i, end),
    decreases end - upto,
{
    if upto < end {
        lemma_rank_grows(versions, i, upto, end - 1);
    }
}

fn stamp_char_ok(i: usize, c: char) -> (ok: bool)
    ensures
        ok == stamp_char(i as int, c),
{
    if i == 4 || i == 7 || i == 13 || i == 16 {
        c == '-'
    } else if i == 10 {
        c == 'T'
    } else {
        '0' <= c && c <= '9'
    }
}

/// Whether `text` has the shape of a stamp.
pub fn is_stamp_text(text: &str) -> (shaped: bool)
    ensures
        shaped == is_stamp(text@),
{
    let chars = chars_of(text);
    if chars.len() != 19 {
        return false;
    }
    let mut i: usize = 0;
    while i < 19
        invariant
            i <= 19,
            chars.len() == 19,
            chars@ == text@,
            forall|k: int| 0 <= k < i ==> stamp_char(k, #[trigger] chars@[k]),
        decreases 19 - i,
    {
        if !stamp_char_ok(i, chars[i]) {
            return false;
        }
        i += 1;
    }
    true
}

/// Whether `text` can mark a version.
pub fn is_usable_stamp(text: &str) -> (usable: bool)
    ensures
        usable == usable_stamp(text@),
{
    is_stamp_text(text) && parses_as_datetime(text, "%Y-%m-%dT%H-%M-%S")
}

fn holds_stamp_at(name: &Vec<char>, at: usize) -> (holds: bool)
    requires
        at + 20 <= name.len(),
    ensures
        holds == splits_at(name@, at as int),
{
    if name[at] != '_' {
        return false;
    }
    let ghost stamp = name@.subrange(at + 1, at + 20);
    let mut i: usize = 0;
    while i < 19
        invariant
            i <= 19,
            at + 20 <= name.len(),
            stamp == name@.subrange(at + 1, at + 20),
            forall|k: int| 0 <= k < i ==> stamp_char(k, #[trigger] stamp[k]),
        decreases 19 - i,
    {
        if !stamp_char_ok(i, name[at + 1 + i]) {
            assert(!stamp_char(i as int, stamp[i as int]));
            return false;
        }
        i += 1;
    }
    at + 20 == name.len() || (name[at + 20] == '.' && at + 21 < name.len())
}

fn has_line_feed(name: &Vec<char>) -> (found: bool)
    ensures
        found == name@.contains('\n'),
{
    let mut i: usize = 0;
    while i < name.len()
        invariant
            i <= name.len(),
            forall|k: int| 0 <= k < i ==> name@[k] != '\n',
        decreases name.len() - i,
    {
        if name[i] == '\n' {
            return true;
        }
        i += 1;
    }
    false
}

/// The place at which `name` holds its stamp.
fn find_split(name: &Vec<char>) -> (at: Option<usize>)
    ensures
        match at {
            Some(i) => i == split_of(name@) && i + 20 <= name.len(),
            None => split_of(name@) == -1,
        },
{
    if name.len() < 20 || has_line_feed(name) {
        return None;
    }
    let mut upto: usize = name.len() - 19;
    while upto > 0
        invariant
            upto <= name.len() - 19,
            name.len() >= 20,
            !name@.contains('\n'),
            last_split(name@, name.len() - 20) == last_split(name@, upto - 1),
        decreases upto,
    {
        if holds_stamp_at(name, upto - 1) {
            return Some(upto - 1);
        }
        upto -= 1;
    }
    None
}

fn digit_at(s: &Vec<char>, i: usize) -> (d: u64)
    requires
        i < s.len(),
        is_digit(s@[i as int]),
    ensures
        d == digit_value(s@[i as int]),
        d <= 9,
{
    match digit_of(s[i]) {
        Some(d) => d,
        None => 0,
    }
}

fn pair_of(s: &Vec<char>, i: usize) -> (n: u64)
    requires
        i + 1 < s.len(),
        is_digit(s@[i as int]),
        is_digit(s@[i + 1]),
    ensures
        n == pair_at(s@, i as int),
        n <= 99,
{
    digit_at(s, i) * 10 + digit_at(s, i + 1)
}

fn moment(stamp: &Vec<char>) -> (m: u64)
    requires
        is_stamp(stamp@),
    ensures
        m == moment_of(stamp@),
{
    assert(forall|i: int| 0 <= i < 19 ==> stamp_char(i, #[trigger] stamp@[i]));
    assert(stamp_char(0, stamp@[0]) && stamp_char(1, stamp@[1]) && stamp_char(2, stamp@[2])
        && stamp_char(3, stamp@[3]));
    assert(stamp_char(5, stamp@[5]) && stamp_char(6, stamp@[6]) && stamp_char(8, stamp@[8])
        && stamp_char(9, stamp@[9]));
    assert(stamp_char(11, stamp@[11]) && stamp_char(12, stamp@[12]) && stamp_char(14, stamp@[14])
        && stamp_char(15, stamp@[15]));
    assert(stamp_char(17, stamp@[17]) && stamp_char(18, stamp@[18]));
    let century: u64 = pair_of(stamp, 0);
    let year: u64 = century * 100 + pair_of(stamp, 2);
    let month: u64 = year * 100 + pair_of(stamp, 5);
    let day: u64 = month * 100 + pair_of(stamp, 8);
    let hour: u64 = day * 100 + pair_of(stamp, 11);
    let minute: u64 = hour * 100 + pair_of(stamp, 14);
    minute * 100 + pair_of(stamp, 17)
}

/// Reads the name of `path` as that of a version, without asking whether
/// its stamp is a date: the version, and the stamp as it stands in the name.
pub fn read_candidate(path: &str) -> (out: Option<(Version, String)>)
    ensures
        match out {
            Some((version, stamp)) => candidate_of(path@) == Some(version@) && stamp@ == stamp_of(
                path@,
            ),
            None => candidate_of(path@) is None,
        },
{
    let whole = chars_of(crate::utils::normalize_path(path).as_str());
    let name = file_name_chars(&whole);
    proof {
        crate::paths::lemma_last_index_bounds(whole@, '/', '\\');
    }
    match find_split(&name) {
        Some(at) => {
            let stamp = slice_chars(&name, at + 1, at + 20);
            let mut key = slice_chars(&whole, 0, whole.len() - name.len());
            let base = slice_chars(&name, 0, at);
            let rest = slice_chars(&name, at + 20, name.len());
            key.extend_from_slice(base.as_slice());
            key.extend_from_slice(rest.as_slice());
            proof {
                lemma_split_holds(name@, name@.len() - 20);
                assert(whole@.take(whole@.len() - name@.len()) =~= whole@.subrange(
                    0,
                    whole@.len() - name@.len(),
                ));
                assert(name@.take(at as int) =~= name@.subrange(0, at as int));
                assert(name@.skip(at + 20) =~= name@.subrange(at + 20, name@.len() as int));
            }
            let version = Version { key: string_of(&key), moment: moment(&stamp) };
            assert(version@.key == candidate_of(path@)->0.key);
            Some((version, string_of(&stamp)))
        },
        None => None,
    }
}

/// The place that `last_split` gives holds a stamp.
pub proof fn lemma_split_holds(name: Seq<char>, upto: int)
    ensures
        last_split(name, upto) >= 0 ==> splits_at(name, last_split(name, upto)),
        last_split(name, upto) <= upto || upto < -1,
        forall|k: int| last_split(name, upto) < k <= upto ==> !splits_at(name, k),
    decreases upto + 1,
{
    if upto >= 0 && !splits_at(name, upto) {
        lemma_split_holds(name, upto - 1);
    }
}

/// Reads `path` as a version: what its name says, where the calendar
/// takes its stamp for a date and a time of day.
pub fn read_version(path: &str) -> (out: Option<Version>)
    ensures
        match out {
            Some(version) => version_of(path@) == Some(version@),
            None => version_of(path@) is None,
        },
{
    match read_candidate(path) {
        Some((version, stamp)) => {
            if parses_as_datetime(stamp.as_str(), "%Y-%m-%dT%H-%M-%S") {
                Some(version)
            } else {
                None
            }
        },
        None => None,
    }
}

fn ranks_before(versions: &Vec<Option<Version>>, j: usize, i: usize) -> (before: bool)
    requires
        j < versions.len(),
        i < versions.len(),
    ensures
        before == outranks(version_views(versions@), j as int, i as int),
{
    match (&versions[j], &versions[i]) {
        (Some(a), Some(b)) => a.key == b.key && (a.moment > b.moment || (a.moment == b.moment && j
            < i)),
        _ => false,
    }
}

/// Whether at least `keep` versions are kept before the one at `i`.
fn has_rank(versions: &Vec<Option<Version>>, i: usize, keep: usize) -> (reached: bool)
    requires
        i < versions.len(),
    ensures
        reached == (rank(version_views(versions@), i as int) >= keep),
{
    let ghost views = version_views(versions@);
    let mut count: usize = 0;
    let mut j: usize = 0;
    while j < versions.len()
        invariant
            j <= versions.len(),
            i < versions.len(),
            views == version_views(versions@),
            count == rank_within(views, i as int, j as int),
            count <= j,
        decreases versions.len() - j,
    {
        if count >= keep {
            proof {
                lemma_rank_grows(views, i as int, j as int, versions.len() as int);
            }
            return true;
        }
        if ranks_before(versions, j, i) {
            count += 1;
        }
        j += 1;
    }
    count >= keep
}

/// The places of the entries to prune, in order, when `keep` versions of
/// each file are kept.
pub fn select_prunable(versions: &Vec<Option<Version>>, keep: usize) -> (out: Vec<usize>)
    ensures
        out@ == pruned_indices(version_views(versions@), keep as nat, versions.len() as int),
{
    let ghost views = version_views(versions@);
    let mut out: Vec<usize> = Vec::new();
    let mut i: usize = 0;
    while i < versions.len()
        invariant
            i <= versions.len(),
            views == version_views(versions@),
            out@ == pruned_indices(views, keep as nat, i as int),
        decreases versions.len() - i,
    {
        if versions[i].is_some() && has_rank(versions, i, keep) {
            out.push(i);
        }
        i += 1;
    }
    out
}

/// A file that is no version is never pruned.
pub proof fn lemma_unversioned_never_pruned(versions: Seq<Option<VersionView>>, keep: nat, i: int)
    requires
        0 <= i < versions.len(),
        versions[i] is None,
    ensures
        !prunable(versions, keep, i),
{
}

/// Where no version is kept, every version is pruned.
pub proof fn lemma_keep_none_prunes_all(versions: Seq<Option<VersionView>>, i: int)
    requires
        0 <= i < versions.len(),
    ensures
        prunable(versions, 0, i) <==> versions[i] is Some,
{
}

/// A version with fewer than `keep` others kept before it is kept; the
/// newest version of a file always is, where any is kept.
pub proof fn lemma_newest_is_kept(versions: Seq<Option<VersionView>>, keep: nat, i: int)
    requires
        0 <= i < versions.len(),
        keep >= 1,
        forall|j: int| 0 <= j < versions.len() ==> !outranks(versions, j, i),
    ensures
        !prunable(versions, keep, i),
{
    lemma_rank_of_none(versions, i, versions.len() as int);
}

/// An entry that nothing is kept before has rank 0.
pub proof fn lemma_rank_of_none(versions: Seq<Option<VersionView>>, i: int, upto: int)
    requires
        forall|j: int| 0 <= j < upto ==> !outranks(versions, j, i),
    ensures
        rank_within(versions, i, upto) == 0,
    decreases upto,
{
    if upto > 0 {
        lemma_rank_of_none(versions, i, upto - 1);
    }
}

/// Where whatever is kept before `i` is kept before `j` too, `j` has at
/// least the rank of `i`, and more where `extra` is kept before `j` alone.
pub proof fn lemma_rank_order(
    versions: Seq<Option<VersionView>>,
    i: int,
    j: int,
    extra: int,
    upto: int,
)
    requires
        forall|k: int| 0 <= k < upto && outranks(versions, k, i) ==> outranks(versions, k, j),
    ensures
        rank_within(versions, i, upto) <= rank_within(versions, j, upto),
        0 <= extra < upto && outranks(versions, extra, j) && !outranks(versions, extra, i)
            ==> rank_within(versions, i, upto) < rank_within(versions, j, upto),
    decreases upto,
{
    if upto > 0 {
        lemma_rank_order(versions, i, j, extra, upto - 1);
    }
}

/// A version that is kept before another has the smaller rank: of the
/// versions of one file no two have the same.
pub proof fn lemma_rank_exceeds(versions: Seq<Option<VersionView>>, j: int, i: int)
    requires
        outranks(versions, j, i),
    ensures
        rank(versions, j) < rank(versions, i),
{
    lemma_rank_order(versions, j, i, j, versions.len() as int);
}

/// Of the versions of one file the kept ones are the newest: a kept
/// version is kept before every pruned one.
pub proof fn lemma_kept_are_newest(versions: Seq<Option<VersionView>>, keep: nat, j: int, i: int)
    requires
        0 <= j < versions.len(),
        0 <= i < versions.len(),
        versions[j] is Some,
        versions[i] is Some,
        versions[j]->0.key == versions[i]->0.key,
        !prunable(versions, keep, j),
        prunable(versions, keep, i),
    ensures
        outranks(versions, j, i),
{
    if !outranks(versions, j, i) {
        assert(i != j);
        assert(outranks(versions, i, j));
        lemma_rank_order(versions, i, j, i, versions.len() as int);
    }
}

/// Whether the entry at `k` is a version of the file that the version at
/// `i` is of.
pub open spec fn same_file(versions: Seq<Option<VersionView>>, i: int, k: int) -> bool {
    &&& 0 <= k < versions.len()
    &&& versions[k] is Some
    &&& versions[k]->0.key == versions[i]->0.key
}

/// The places of the versions of the file that the version at `i` is of.
pub open spec fn versions_of_file(versions: Seq<Option<VersionView>>, i: int) -> Set<int> {
    Set::new(|k: int| same_file(versions, i, k))
}

/// The places of those versions of that file that are kept.
pub open spec fn kept_of_file(versions: Seq<Option<VersionView>>, keep: nat, i: int) -> Set<int> {
    Set::new(|k: int| same_file(versions, i, k) && !prunable(versions, keep, k))
}

/// The places among the first `upto` that are kept before `i`.
pub open spec fn outrankers(versions: Seq<Option<VersionView>>, i: int, upto: int) -> Set<int> {
    Set::new(|j: int| 0 <= j < upto && outranks(versions, j, i))
}

/// A rank is the number of entries that are kept before.
pub proof fn lemma_rank_counts(versions: Seq<Option<VersionView>>, i: int, upto: int)
    requires
        0 <= upto,
    ensures
        outrankers(versions, i, upto).finite(),
        outrankers(versions, i, upto).len() == rank_within(versions, i, upto),
    decreases upto,
{
    if upto == 0 {
        assert(outrankers(versions, i, upto) =~= Set::empty());
    } else {
        lemma_rank_counts(versions, i, upto - 1);
        let before = outrankers(versions, i, upto - 1);
        if outranks(versions, upto - 1, i) {
            assert(outrankers(versions, i, upto) =~= before.insert(upto - 1));
        } else {
            assert(outrankers(versions, i, upto) =~= before);
        }
    }
}

/// Of the versions of each file, as many are kept as are asked for, or all
/// where there are no more.
pub proof fn lemma_kept_count(versions: Seq<Option<VersionView>>, keep: nat, i: int)
    requires
        0 <= i < versions.len(),
        versions[i] is Some,
    ensures
        versions_of_file(versions, i).finite(),
        kept_of_file(versions, keep, i).finite(),
        kept_of_file(versions, keep, i).len() == if keep <= versions_of_file(versions, i).len() {
            keep
        } else {
            versions_of_file(versions, i).len()
        },
{
    let all = vstd::set_lib::set_int_range(0, versions.len() as int);
    let file = versions_of_file(versions, i);
    let kept = kept_of_file(versions, keep, i);
    let size = file.len() as int;
    let rank_at = |k: int| rank(versions, k) as int;
    vstd::set_lib::lemma_int_range(0, versions.len() as int);
    assert(file.subset_of(all));
    assert(kept.subset_of(file));
    vstd::set_lib::lemma_len_subset(file, all);
    vstd::set_lib::lemma_len_subset(kept, file);
    assert(vstd::relations::injective_on(rank_at, file)) by {
        assert forall|a: int, b: int|
            file.contains(a) && file.contains(b) && #[trigger] rank_at(a) == #[trigger] rank_at(
                b,
            ) implies a == b by {
            if a != b {
                if outranks(versions, a, b) {
                    lemma_rank_exceeds(versions, a, b);
                } else {
                    assert(outranks(versions, b, a));
                    lemma_rank_exceeds(versions, b, a);
                }
            }
        }
    }
    assert forall|k: int| file.contains(k) implies 0 <= #[trigger] rank_at(k) < size by {
        lemma_rank_counts(versions, k, versions.len() as int);
        let before = outrankers(versions, k, versions.len() as int);
        assert(before.subset_of(file.remove(k)));
        vstd::set_lib::lemma_len_subset(before, file.remove(k));
    }
    let ranks = file.map(rank_at);
    vstd::set_lib::lemma_map_size(file, ranks, rank_at);
    vstd::set_lib::lemma_int_range(0, size);
    assert(ranks.subset_of(vstd::set_lib::set_int_range(0, size)));
    vstd::set_lib::lemma_subset_equality(ranks, vstd::set_lib::set_int_range(0, size));
    let bound = if keep <= size {
        keep as int
    } else {
        size
    };
    let kept_ranks = kept.map(rank_at);
    assert(vstd::relations::injective_on(rank_at, kept));
    vstd::set_lib::lemma_map_size(kept, kept_ranks, rank_at);
    vstd::set_lib::lemma_int_range(0, bound);
    assert(kept_ranks =~= vstd::set_lib::set_int_range(0, bound)) by {
        assert forall|r: int| kept_ranks.contains(r) <==> 0 <= r < bound by {
            if kept_ranks.contains(r) {
                let k = choose|k: int| kept.contains(k) && rank_at(k) == r;
                assert(file.contains(k));
            }
            if 0 <= r < bound {
                assert(vstd::set_lib::set_int_range(0, size).contains(r));
                assert(ranks.contains(r));
                let k = choose|k: int| file.contains(k) && rank_at(k) == r;
                assert(kept.contains(k));
            }
        }
    }
}

/// Where `splits_at` holds at `at` and nowhere after it up to `upto`,
/// `at` is the last split.
pub proof fn lemma_last_split_is(name: Seq<char>, at: int, upto: int)
    requires
        0 <= at <= upto,
        splits_at(name, at),
        forall|k: int| at < k <= upto ==> !splits_at(name, k),
    ensures
        last_split(name, upto) == at,
    decreases upto - at,
{
    if at < upto {
        lemma_last_split_is(name, at, upto - 1);
    }
}

/// The name that a superseded file is kept under reads as a version of
/// that file: the stamp is found where it was put, and without it the name
/// is the one the file had. This holds of a name without a line feed whose
/// extension, where it has one, is not empty and holds no underscore.
pub proof fn lemma_history_name_reads_back(name: Seq<char>, stamp: Seq<char>)
    requires
        name.len() > 0,
        !name.contains('\n'),
        is_stamp(stamp),
        has_extension(name) ==> extension_of(name).len() > 0 && !extension_of(name).contains('_'),
    ensures
        split_of(history_name(name, stamp)) == stem_of(name).len(),
        history_name(name, stamp).subrange(
            split_of(history_name(name, stamp)) + 1,
            split_of(history_name(name, stamp)) + 20,
        ) == stamp,
        history_name(name, stamp).take(split_of(history_name(name, stamp))) + history_name(
            name,
            stamp,
        ).skip(split_of(history_name(name, stamp)) + 20) == name,
{
    let kept = history_name(name, stamp);
    let stem = stem_of(name);
    let at = stem.len() as int;
    lemma_last_index_bounds(name, '.', '.');
    let tail = if has_extension(name) {
        seq!['.'] + extension_of(name)
    } else {
        Seq::<char>::empty()
    };
    assert(kept =~= stem + seq!['_'] + stamp + tail);
    assert(name =~= stem + tail);
    assert(kept.subrange(at + 1, at + 20) =~= stamp);
    assert(kept.take(at) + kept.skip(at + 20) =~= name);
    assert forall|k: int| 0 <= k < 19 implies stamp[k] != '_' && stamp[k] != '\n' by {
        assert(stamp_char(k, stamp[k]));
    }
    assert(!kept.contains('\n')) by {
        if kept.contains('\n') {
            let k = choose|k: int| 0 <= k < kept.len() && kept[k] == '\n';
            if k < at {
                assert(name[k] == '\n');
            } else if k > at + 19 {
                assert(name[k - 20] == '\n');
            } else if k > at {
                assert(kept[k] == stamp[k - at - 1]);
            }
        }
    }
    assert(splits_at(kept, at));
    assert forall|k: int| at < k <= kept.len() - 20 implies !splits_at(kept, k) by {
        if k <= at + 19 {
            assert(kept[k] == stamp[k - at - 1]);
        } else if k > at + 20 {
            let ext = extension_of(name);
            assert(kept[k] == ext[k - at - 21]);
            assert(ext.contains(ext[k - at - 21]));
        }
    }
    lemma_last_split_is(kept, at, kept.len() - 20);
}

/// `dir` as it stands before a file that is joined below it.
pub open spec fn front_of(dir: Seq<char>) -> Seq<char> {
    if dir.len() == 0 || is_separator(dir.last()) {
        dir
    } else {
        dir + seq!['/']
    }
}

/// A name without a separator that is joined below a directory is the
/// file name of the path, also once separators are normalised.
pub proof fn lemma_leaf_is_file_name(dir: Seq<char>, leaf: Seq<char>)
    requires
        leaf.len() > 0,
        forall|i: int| 0 <= i < leaf.len() ==> !is_separator(#[trigger] leaf[i]),
    ensures
        normalized(joined(dir, leaf)) == normalized(front_of(dir)) + leaf,
        file_name_of(normalized(joined(dir, leaf))) == leaf,
{
    let front = front_of(dir);
    lemma_trim_nothing(leaf);
    assert(joined(dir, leaf) =~= front + leaf);
    let whole = normalized(joined(dir, leaf));
    assert(whole =~= normalized(front) + leaf) by {
        assert forall|i: int| 0 <= i < leaf.len() implies leaf[i] != '\\' by {
            assert(!is_separator(leaf[i]));
        }
    }
    lemma_last_index_append(normalized(front), leaf, '/', '\\');
    if front.len() > 0 {
        assert(is_separator(front.last()));
        assert(normalized(front).last() == '/');
    }
    assert(last_separator(whole) == normalized(front).len() - 1);
    assert(file_name_of(whole) =~= leaf);
}

/// A history name holds no separator where the name it is made of holds
/// none.
pub proof fn lemma_history_name_is_leaf(name: Seq<char>, stamp: Seq<char>)
    requires
        name.len() > 0,
        forall|i: int| 0 <= i < name.len() ==> !is_separator(#[trigger] name[i]),
        is_stamp(stamp),
    ensures
        history_name(name, stamp).len() > 0,
        forall|i: int|
            0 <= i < history_name(name, stamp).len() ==> !is_separator(
                #[trigger] history_name(name, stamp)[i],
            ),
{
    let kept = history_name(name, stamp);
    let at = stem_of(name).len() as int;
    lemma_last_index_bounds(name, '.', '.');
    assert forall|i: int| 0 <= i < kept.len() implies !is_separator(#[trigger] kept[i]) by {
        if i < at {
            assert(kept[i] == name[i]);
        } else if i == at {
        } else if i <= at + 19 {
            assert(kept[i] == stamp[i - at - 1]);
            assert(stamp_char(i - at - 1, stamp[i - at - 1]));
        } else {
            assert(kept[i] == name[i - 20]);
        }
    }
}

/// What a run moves into the history tree, retention reads as a version of
/// the file it was: a file kept in `dir` under the history name of `name`
/// is a version with the key of `name` in `dir`, superseded at the moment
/// of the stamp. This holds of a stamp that can mark a version, and of a
/// name without a separator or a line feed whose extension, where it has
/// one, is not empty and holds no underscore.
pub proof fn lemma_history_path_is_version(dir: Seq<char>, name: Seq<char>, stamp: Seq<char>)
    requires
        name.len() > 0,
        !name.contains('\n'),
        forall|i: int| 0 <= i < name.len() ==> !is_separator(#[trigger] name[i]),
        usable_stamp(stamp),
        has_extension(name) ==> extension_of(name).len() > 0 && !extension_of(name).contains('_'),
    ensures
        version_of(joined(dir, history_name(name, stamp))) == Some(
            VersionView { key: normalized(joined(dir, name)), moment: moment_of(stamp) },
        ),
{
    let kept = history_name(name, stamp);
    let at = split_of(kept);
    lemma_history_name_reads_back(name, stamp);
    lemma_history_name_is_leaf(name, stamp);
    lemma_leaf_is_file_name(dir, kept);
    lemma_leaf_is_file_name(dir, name);
    let path = joined(dir, kept);
    let whole = normalized(path);
    let front = normalized(front_of(dir));
    assert(whole.take(whole.len() - kept.len()) =~= front);
    assert(front + kept.take(at) + kept.skip(at + 20) =~= front + (kept.take(at) + kept.skip(
        at + 20,
    )));
    assert(stamp_of(path) == stamp);
    assert(candidate_of(path) == Some(
        VersionView { key: normalized(joined(dir, name)), moment: moment_of(stamp) },
    ));
}

/// What is pruned of a list of paths: each pruned path stands in the list,
/// is a version, and has `keep` versions of its file kept before it.
pub proof fn lemma_pruned_are_versions(paths: Seq<Seq<char>>, keep: nat, upto: int, n: int)
    requires
        0 <= upto <= paths.len(),
        0 <= n < pruned_paths(paths, keep, upto).len(),
    ensures
        exists|i: int|
            0 <= i < upto && #[trigger] paths[i] == pruned_paths(paths, keep, upto)[n] && version_of(
                paths[i],
            ) is Some && prunable(versions_of(paths), keep, i),
    decreases upto,
{
    let before = pruned_paths(paths, keep, upto - 1);
    if n < before.len() {
        lemma_pruned_are_versions(paths, keep, upto - 1, n);
    } else {
        assert(paths[upto - 1] == pruned_paths(paths, keep, upto)[n]);
        assert(versions_of(paths)[upto - 1] == version_of(paths[upto - 1]));
    }
}

} // verus!
