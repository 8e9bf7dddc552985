//! The path classifier: where a source file lands in the destination tree.
//!
//! Paths are read as plain text. Both slash forms separate components; a
//! joined path is written with `/`.

use crate::text::{chars_of, string_of};
use vstd::prelude::*;

verus! {

/// Whether `c` separates path components.
pub open spec fn is_separator(c: char) -> bool {
    c == '/' || c == '\\'
}

/// What a character of an include root becomes in its label.
pub open spec fn label_char(c: char) -> char {
    if is_separator(c) {
        '-'
    } else {
        c
    }
}

/// The label of an include root: its text without colons, and with `-` in
/// place of each separator.
pub open spec fn label_of(root: Seq<char>) -> Seq<char> {
    root.filter(|c: char| c != ':').map_values(|c: char| label_char(c))
}

/// The label that stands for "no include root holds this path".
pub open spec fn sentinel_label() -> Seq<char> {
    "UnknownSource"@
}

/// Whether `path` lies at or below `root`: `root` starts it and ends on a
/// component boundary.
pub open spec fn is_under(path: Seq<char>, root: Seq<char>) -> bool {
    &&& root.is_prefix_of(path)
    &&& (root.len() == 0 || root.len() == path.len() || is_separator(root.last()) || is_separator(
        path[root.len() as int],
    ))
}

/// `s` without the separators it starts with.
pub open spec fn trim_leading(s: Seq<char>) -> Seq<char>
    decreases s.len(),
{
    if s.len() > 0 && is_separator(s[0]) {
        trim_leading(s.drop_first())
    } else {
        s
    }
}

/// What is left of `path` once `root` is taken from its front.
pub open spec fn relative_to(path: Seq<char>, root: Seq<char>) -> Seq<char> {
    trim_leading(path.skip(root.len() as int))
}

/// The label and the relative path of `path`: those of the first root that
/// holds it, or the sentinel label and the whole path where none does.
pub open spec fn classified(path: Seq<char>, roots: Seq<Seq<char>>) -> (Seq<char>, Seq<char>)
    decreases roots.len(),
{
    if roots.len() == 0 {
        (sentinel_label(), path)
    } else if is_under(path, roots[0]) {
        (label_of(roots[0]), relative_to(path, roots[0]))
    } else {
        classified(path, roots.drop_first())
    }
}

/// `rel` placed below `base`, with exactly one separator between the two. A
/// `rel` that names nothing leaves `base` as it is.
pub open spec fn joined(base: Seq<char>, rel: Seq<char>) -> Seq<char> {
    let tail = trim_leading(rel);
    if tail.len() == 0 {
        base
    } else if base.len() == 0 || is_separator(base.last()) {
        base + tail
    } else {
        base + seq!['/'] + tail
    }
}

/// Where the copy of the source file `path` lives below `destination`.
pub open spec fn destination_of(
    destination: Seq<char>,
    roots: Seq<Seq<char>>,
    path: Seq<char>,
) -> Seq<char> {
    let (label, relative) = classified(path, roots);
    joined(joined(destination, label), relative)
}

/// The index of the last character of `s` that is `a` or `b`, and -1 where
/// none is.
pub open spec fn last_index(s: Seq<char>, a: char, b: char) -> int
    decreases s.len(),
{
    if s.len() == 0 {
        -1
    } else if s.last() == a || s.last() == b {
        s.len() - 1
    } else {
        last_index(s.drop_last(), a, b)
    }
}

/// The index of the last separator of `s`, or -1.
pub open spec fn last_separator(s: Seq<char>) -> int {
    last_index(s, '/', '\\')
}

/// The index of the last dot of `s`, or -1.
pub open spec fn last_dot(s: Seq<char>) -> int {
    last_index(s, '.', '.')
}

/// The directory part of `path`: what stands before its last separator.
pub open spec fn parent_of(path: Seq<char>) -> Seq<char> {
    if last_separator(path) < 0 {
        Seq::empty()
    } else {
        path.take(last_separator(path))
    }
}

/// The last component of `path`: what stands after its last separator.
pub open spec fn file_name_of(path: Seq<char>) -> Seq<char> {
    path.skip(last_separator(path) + 1)
}

/// Whether a file name has an extension: a dot that is not its first
/// character.
pub open spec fn has_extension(name: Seq<char>) -> bool {
    last_dot(name) >= 1
}

/// The name without its extension and the dot before it.
pub open spec fn stem_of(name: Seq<char>) -> Seq<char> {
    if has_extension(name) {
        name.take(last_dot(name))
    } else {
        name
    }
}

/// What follows the last dot of a name that has an extension.
pub open spec fn extension_of(name: Seq<char>) -> Seq<char> {
    name.skip(last_dot(name) + 1)
}

/// The temporary sibling that a transfer writes before it renames.
pub open spec fn temp_of(path: Seq<char>) -> Seq<char> {
    path + ".part"@
}

/// The name under which a superseded file is kept: the stamp goes between
/// the stem and the extension. A missing name is written as `file`.
pub open spec fn history_name(name: Seq<char>, stamp: Seq<char>) -> Seq<char> {
    let stem = if name.len() == 0 {
        "file"@
    } else {
        stem_of(name)
    };
    if has_extension(name) {
        stem + seq!['_'] + stamp + seq!['.'] + extension_of(name)
    } else {
        stem + seq!['_'] + stamp
    }
}

/// The root of the history tree below `destination`.
pub open spec fn history_root_of(destination: Seq<char>) -> Seq<char> {
    joined(destination, "History"@)
}

/// The directory that keeps the superseded versions of the source file
/// `path`.
pub open spec fn history_dir_of(
    destination: Seq<char>,
    roots: Seq<Seq<char>>,
    path: Seq<char>,
) -> Seq<char> {
    let (label, relative) = classified(path, roots);
    joined(joined(history_root_of(destination), label), parent_of(relative))
}

/// Whether each root can be told from the others by its label: no label is
/// empty, and no two roots share one.
pub open spec fn labels_distinct(roots: Seq<Seq<char>>) -> bool {
    &&& forall|i: int| 0 <= i < roots.len() ==> label_of(#[trigger] roots[i]).len() > 0
    &&& forall|i: int, j: int|
        0 <= i < j < roots.len() ==> label_of(#[trigger] roots[i]) != label_of(#[trigger] roots[j])
}

/// Where the version of the source file `path` that a transfer supersedes
/// at `stamp` is kept.
pub open spec fn history_path_of(
    destination: Seq<char>,
    roots: Seq<Seq<char>>,
    path: Seq<char>,
    stamp: Seq<char>,
) -> Seq<char> {
    joined(
        history_dir_of(destination, roots, path),
        history_name(file_name_of(destination_of(destination, roots, path)), stamp),
    )
}

/// A label holds neither a colon nor a separator.
pub proof fn lemma_label_is_safe(root: Seq<char>)
    ensures
        forall|i: int|
            0 <= i < label_of(root).len() ==> !is_separator(#[trigger] label_of(root)[i])
                && label_of(root)[i] != ':',
{
    let kept = root.filter(|c: char| c != ':');
    assert forall|i: int| 0 <= i < label_of(root).len() implies !is_separator(
        #[trigger] label_of(root)[i],
    ) && label_of(root)[i] != ':' by {
        root.lemma_filter_pred(|c: char| c != ':', i);
        assert(label_of(root)[i] == label_char(kept[i]));
    }
}

/// The temporary sibling never is the final path, and lies in the same
/// directory.
pub proof fn lemma_temp_is_sibling(path: Seq<char>)
    ensures
        temp_of(path) != path,
        parent_of(temp_of(path)) == parent_of(path),
{
    reveal_strlit(".part");
    let suffix = ".part"@;
    assert(temp_of(path).len() == path.len() + 5);
    lemma_last_index_bounds(path, '/', '\\');
    lemma_last_index_append(path, suffix, '/', '\\');
    if last_separator(path) >= 0 {
        assert(temp_of(path).take(last_separator(path)) =~= path.take(last_separator(path)));
    }
}

/// Text that starts with no separator has none to trim.
pub proof fn lemma_trim_nothing(s: Seq<char>)
    requires
        s.len() == 0 || !is_separator(s[0]),
    ensures
        trim_leading(s) == s,
{
}

/// One separator before text that starts with none is trimmed to that
/// text.
pub proof fn lemma_trim_one(s: Seq<char>)
    requires
        s.len() == 0 || !is_separator(s[0]),
    ensures
        trim_leading(seq!['/'] + s) == s,
{
    assert((seq!['/'] + s).drop_first() =~= s);
    lemma_trim_nothing(s);
}

/// A path is classified by the first root that holds it.
pub proof fn lemma_classified_by_first(path: Seq<char>, roots: Seq<Seq<char>>, i: int)
    requires
        0 <= i < roots.len(),
        is_under(path, roots[i]),
        forall|j: int| 0 <= j < i ==> !is_under(path, #[trigger] roots[j]),
    ensures
        classified(path, roots) == (label_of(roots[i]), relative_to(path, roots[i])),
    decreases i,
{
    if i > 0 {
        let rest = roots.drop_first();
        assert(!is_under(path, roots[0]));
        assert(rest[i - 1] == roots[i]);
        assert forall|j: int| 0 <= j < i - 1 implies !is_under(path, #[trigger] rest[j]) by {
            assert(rest[j] == roots[j + 1]);
        }
        lemma_classified_by_first(path, rest, i - 1);
    }
}

/// A path that no root holds gets the sentinel label and stays whole.
pub proof fn lemma_classified_by_none(path: Seq<char>, roots: Seq<Seq<char>>)
    requires
        forall|j: int| 0 <= j < roots.len() ==> !is_under(path, #[trigger] roots[j]),
    ensures
        classified(path, roots) == (sentinel_label(), path),
    decreases roots.len(),
{
    if roots.len() > 0 {
        let rest = roots.drop_first();
        assert(!is_under(path, roots[0]));
        assert forall|j: int| 0 <= j < rest.len() implies !is_under(path, #[trigger] rest[j]) by {
            assert(rest[j] == roots[j + 1]);
        }
        lemma_classified_by_none(path, rest);
    }
}

/// What is joined below a base lies at or below it.
pub proof fn lemma_joined_is_under(base: Seq<char>, rel: Seq<char>)
    ensures
        is_under(joined(base, rel), base),
{
    let tail = trim_leading(rel);
    if tail.len() > 0 && !(base.len() == 0 || is_separator(base.last())) {
        assert(joined(base, rel)[base.len() as int] == '/');
    }
}

/// What lies below a path that lies below a root lies below the root.
pub proof fn lemma_under_is_transitive(path: Seq<char>, middle: Seq<char>, root: Seq<char>)
    requires
        is_under(path, middle),
        is_under(middle, root),
    ensures
        is_under(path, root),
{
    if root.len() < middle.len() {
        assert(path[root.len() as int] == middle[root.len() as int]);
    }
    assert(root =~= path.subrange(0, root.len() as int)) by {
        assert forall|i: int| 0 <= i < root.len() implies root[i] == path[i] by {
            assert(root[i] == middle.subrange(0, root.len() as int)[i]);
            assert(middle[i] == path.subrange(0, middle.len() as int)[i]);
        }
    }
}

/// Every path that a transfer writes lies below the destination root, as
/// text: the final path, its temporary sibling, and the place in the
/// history tree.
pub proof fn lemma_writes_stay_inside(
    destination: Seq<char>,
    roots: Seq<Seq<char>>,
    path: Seq<char>,
    stamp: Seq<char>,
)
    ensures
        is_under(destination_of(destination, roots, path), destination),
        temp_of(destination_of(destination, roots, path)).subrange(0, destination.len() as int)
            == destination,
        is_under(history_dir_of(destination, roots, path), destination),
        is_under(history_path_of(destination, roots, path, stamp), destination),
{
    let (label, relative) = classified(path, roots);
    let labelled = joined(destination, label);
    let target = joined(labelled, relative);
    lemma_joined_is_under(destination, label);
    lemma_joined_is_under(labelled, relative);
    lemma_under_is_transitive(target, labelled, destination);
    assert(temp_of(target).subrange(0, destination.len() as int) =~= target.subrange(
        0,
        destination.len() as int,
    ));
    let history = joined(destination, "History"@);
    let kept = joined(history, label);
    let dir = joined(kept, parent_of(relative));
    lemma_joined_is_under(destination, "History"@);
    lemma_joined_is_under(history, label);
    lemma_joined_is_under(kept, parent_of(relative));
    lemma_under_is_transitive(kept, history, destination);
    lemma_under_is_transitive(dir, kept, destination);
    let name = history_name(file_name_of(target), stamp);
    lemma_joined_is_under(dir, name);
    lemma_under_is_transitive(joined(dir, name), dir, destination);
}

/// `last_index` gives a place that holds `a` or `b`, after which neither
/// occurs.
pub proof fn lemma_last_index_bounds(s: Seq<char>, a: char, b: char)
    ensures
        -1 <= last_index(s, a, b) < s.len(),
        last_index(s, a, b) >= 0 ==> s[last_index(s, a, b)] == a || s[last_index(s, a, b)] == b,
        forall|i: int| last_index(s, a, b) < i < s.len() ==> #[trigger] s[i] != a && s[i] != b,
    decreases s.len(),
{
    if s.len() > 0 && !(s.last() == a || s.last() == b) {
        lemma_last_index_bounds(s.drop_last(), a, b);
        assert forall|i: int| last_index(s, a, b) < i < s.len() implies #[trigger] s[i] != a
            && s[i] != b by {
            if i < s.len() - 1 {
                assert(s[i] == s.drop_last()[i]);
            }
        }
    }
}

/// A tail that holds neither `a` nor `b` does not move the last index.
pub proof fn lemma_last_index_append(s: Seq<char>, tail: Seq<char>, a: char, b: char)
    requires
        forall|i: int| 0 <= i < tail.len() ==> #[trigger] tail[i] != a && tail[i] != b,
    ensures
        last_index(s + tail, a, b) == last_index(s, a, b),
    decreases tail.len(),
{
    if tail.len() == 0 {
        assert(s + tail =~= s);
    } else {
        assert((s + tail).drop_last() =~= s + tail.drop_last());
        assert((s + tail).last() == tail[tail.len() - 1]);
        lemma_last_index_append(s, tail.drop_last(), a, b);
    }
}

fn is_sep(c: char) -> (b: bool)
    ensures
        b == is_separator(c),
{
    c == '/' || c == '\\'
}

/// The label of an include root.
pub fn root_label(root: &str) -> (label: String)
    ensures
        label@ == label_of(root@),
{
    string_of(&label_chars(&chars_of(root)))
}

pub(crate) fn label_chars(root: &Vec<char>) -> (out: Vec<char>)
    ensures
        out@ == label_of(root@),
{
    let mut out: Vec<char> = Vec::new();
    let mut i: usize = 0;
    while i < root.len()
        invariant
            i <= root.len(),
            out@ == label_of(root@.take(i as int)),
        decreases root.len() - i,
    {
        let c = root[i];
        proof {
            let seen = root@.take(i as int);
            assert(root@.take(i + 1) =~= seen.push(c));
            seen.lemma_filter_push(c, |c: char| c != ':');
        }
        if c != ':' {
            if is_sep(c) {
                out.push('-');
            } else {
                out.push(c);
            }
            assert(out@ =~= label_of(root@.take(i + 1)));
        }
        i += 1;
    }
    assert(root@.take(root.len() as int) =~= root@);
    out
}

pub(crate) fn starts_with(path: &Vec<char>, root: &Vec<char>) -> (b: bool)
    ensures
        b == root@.is_prefix_of(path@),
{
    if root.len() > path.len() {
        return false;
    }
    let mut i: usize = 0;
    while i < root.len()
        invariant
            i <= root.len() <= path.len(),
            forall|j: int| 0 <= j < i ==> root@[j] == path@[j],
        decreases root.len() - i,
    {
        if root[i] != path[i] {
            assert(root@[i as int] != path@.subrange(0, root.len() as int)[i as int]);
            return false;
        }
        i += 1;
    }
    assert(root@ =~= path@.subrange(0, root.len() as int));
    true
}

pub(crate) fn lies_under(path: &Vec<char>, root: &Vec<char>) -> (b: bool)
    ensures
        b == is_under(path@, root@),
{
    if !starts_with(path, root) {
        return false;
    }
    root.len() == 0 || root.len() == path.len() || is_sep(root[root.len() - 1]) || is_sep(
        path[root.len()],
    )
}

/// The characters of `s` from `from` on, without leading separators.
pub(crate) fn trimmed_from(s: &Vec<char>, from: usize) -> (out: Vec<char>)
    requires
        from <= s.len(),
    ensures
        out@ == trim_leading(s@.skip(from as int)),
{
    let mut start: usize = from;
    while start < s.len() && is_sep(s[start])
        invariant
            from <= start <= s.len(),
            trim_leading(s@.skip(from as int)) == trim_leading(s@.skip(start as int)),
        decreases s.len() - start,
    {
        assert(s@.skip(start as int).drop_first() =~= s@.skip(start + 1));
        start += 1;
    }
    let mut out: Vec<char> = Vec::new();
    let mut i: usize = start;
    while i < s.len()
        invariant
            start <= i <= s.len(),
            out@ == s@.subrange(start as int, i as int),
        decreases s.len() - i,
    {
        out.push(s[i]);
        assert(out@ =~= s@.subrange(start as int, i + 1));
        i += 1;
    }
    assert(out@ =~= s@.skip(start as int));
    out
}

pub(crate) fn join_chars(base: &Vec<char>, rel: &Vec<char>) -> (out: Vec<char>)
    ensures
        out@ == joined(base@, rel@),
{
    let tail = trimmed_from(rel, 0);
    assert(rel@.skip(0) =~= rel@);
    let mut out: Vec<char> = base.clone();
    assert(out@ =~= base@);
    if tail.len() == 0 {
        return out;
    }
    if !(base.len() == 0 || is_sep(base[base.len() - 1])) {
        out.push('/');
    }
    out.extend_from_slice(tail.as_slice());
    assert(out@ =~= joined(base@, rel@));
    out
}

/// `rel` placed below `base`.
pub fn join(base: &str, rel: &str) -> (out: String)
    ensures
        out@ == joined(base@, rel@),
{
    string_of(&join_chars(&chars_of(base), &chars_of(rel)))
}

pub(crate) fn classify_chars(path: &Vec<char>, roots: &Vec<String>) -> (out: (Vec<char>, Vec<char>))
    ensures
        (out.0@, out.1@) == classified(path@, crate::text::texts(roots@)),
{
    let ghost all = crate::text::texts(roots@);
    assert(all.skip(0) =~= all);
    let mut i: usize = 0;
    while i < roots.len()
        invariant
            i <= roots.len(),
            all == crate::text::texts(roots@),
            classified(path@, all) == classified(path@, all.skip(i as int)),
        decreases roots.len() - i,
    {
        let root = chars_of(roots[i].as_str());
        assert(all.skip(i as int)[0] == root@);
        if lies_under(path, &root) {
            let label = label_chars(&root);
            let relative = trimmed_from(path, root.len());
            return (label, relative);
        }
        assert(all.skip(i as int).drop_first() =~= all.skip(i + 1));
        i += 1;
    }
    assert(all.skip(i as int).len() == 0);
    (chars_of("UnknownSource"), path.clone())
}

/// Projects a source path into the destination tree: the label of the first
/// include root that holds it, and the path below that root.
pub fn classify(path: &str, roots: &Vec<String>) -> (out: (String, String))
    ensures
        (out.0@, out.1@) == classified(path@, crate::text::texts(roots@)),
{
    let (label, relative) = classify_chars(&chars_of(path), roots);
    (string_of(&label), string_of(&relative))
}

pub(crate) fn destination_chars(
    destination: &Vec<char>,
    roots: &Vec<String>,
    path: &Vec<char>,
) -> (out: Vec<char>)
    ensures
        out@ == destination_of(destination@, crate::text::texts(roots@), path@),
{
    let (label, relative) = classify_chars(path, roots);
    join_chars(&join_chars(destination, &label), &relative)
}

/// Where the copy of the source file `path` lives below `destination`.
pub fn destination_path(destination: &str, roots: &Vec<String>, path: &str) -> (out: String)
    ensures
        out@ == destination_of(destination@, crate::text::texts(roots@), path@),
{
    string_of(&destination_chars(&chars_of(destination), roots, &chars_of(path)))
}

pub(crate) fn last_separator_index(s: &Vec<char>) -> (at: Option<usize>)
    ensures
        match at {
            Some(i) => i == last_separator(s@) && i < s.len(),
            None => last_separator(s@) == -1,
        },
{
    assert(s@.take(s.len() as int) =~= s@);
    let mut i: usize = s.len();
    while i > 0
        invariant
            i <= s.len(),
            last_separator(s@) == last_separator(s@.take(i as int)),
        decreases i,
    {
        assert(s@.take(i as int).drop_last() =~= s@.take(i - 1));
        if is_sep(s[i - 1]) {
            return Some(i - 1);
        }
        i -= 1;
    }
    assert(s@.take(0) =~= Seq::<char>::empty()) by {
        assert(s@.take(0).len() == 0);
    }
    None
}

pub(crate) fn last_dot_index(s: &Vec<char>) -> (at: Option<usize>)
    ensures
        match at {
            Some(i) => i == last_dot(s@) && i < s.len(),
            None => last_dot(s@) == -1,
        },
{
    assert(s@.take(s.len() as int) =~= s@);
    let mut i: usize = s.len();
    while i > 0
        invariant
            i <= s.len(),
            last_dot(s@) == last_dot(s@.take(i as int)),
        decreases i,
    {
        assert(s@.take(i as int).drop_last() =~= s@.take(i - 1));
        if s[i - 1] == '.' {
            return Some(i - 1);
        }
        i -= 1;
    }
    assert(s@.take(0).len() == 0);
    None
}

pub(crate) fn slice_chars(s: &Vec<char>, from: usize, to: usize) -> (out: Vec<char>)
    requires
        from <= to <= s.len(),
    ensures
        out@ == s@.subrange(from as int, to as int),
{
    let mut out: Vec<char> = Vec::new();
    let mut i: usize = from;
    while i < to
        invariant
            from <= i <= to <= s.len(),
            out@ == s@.subrange(from as int, i as int),
        decreases to - i,
    {
        out.push(s[i]);
        assert(out@ =~= s@.subrange(from as int, i + 1));
        i += 1;
    }
    out
}

pub(crate) fn parent_chars(path: &Vec<char>) -> (out: Vec<char>)
    ensures
        out@ == parent_of(path@),
{
    match last_separator_index(path) {
        Some(at) => slice_chars(path, 0, at),
        None => Vec::new(),
    }
}

pub(crate) fn file_name_chars(path: &Vec<char>) -> (out: Vec<char>)
    ensures
        out@ == file_name_of(path@),
{
    match last_separator_index(path) {
        Some(at) => slice_chars(path, at + 1, path.len()),
        None => slice_chars(path, 0, path.len()),
    }
}

/// The directory part of `path`.
pub fn parent(path: &str) -> (out: String)
    ensures
        out@ == parent_of(path@),
{
    string_of(&parent_chars(&chars_of(path)))
}

/// The last component of `path`.
pub fn file_name(path: &str) -> (out: String)
    ensures
        out@ == file_name_of(path@),
{
    string_of(&file_name_chars(&chars_of(path)))
}

pub(crate) fn temp_chars(path: &Vec<char>) -> (out: Vec<char>)
    ensures
        out@ == temp_of(path@),
{
    let mut out: Vec<char> = path.clone();
    assert(out@ =~= path@);
    let suffix = chars_of(".part");
    out.extend_from_slice(suffix.as_slice());
    out
}

/// The temporary sibling of the final path `path`.
pub fn temp_path(path: &str) -> (out: String)
    ensures
        out@ == temp_of(path@),
{
    string_of(&temp_chars(&chars_of(path)))
}

pub(crate) fn history_name_chars(name: &Vec<char>, stamp: &Vec<char>) -> (out: Vec<char>)
    ensures
        out@ == history_name(name@, stamp@),
{
    let dot = last_dot_index(name);
    let split: Option<usize> = match dot {
        Some(at) => if at >= 1 {
            Some(at)
        } else {
            None
        },
        None => None,
    };
    let mut out: Vec<char> = if name.len() == 0 {
        chars_of("file")
    } else {
        match split {
            Some(at) => slice_chars(name, 0, at),
            None => name.clone(),
        }
    };
    assert(name.len() > 0 && split is None ==> out@ =~= name@);
    out.push('_');
    out.extend_from_slice(stamp.as_slice());
    match split {
        Some(at) => {
            out.push('.');
            let ext = slice_chars(name, at + 1, name.len());
            out.extend_from_slice(ext.as_slice());
        },
        None => {},
    }
    assert(out@ =~= history_name(name@, stamp@));
    out
}

/// The name under which the file `name` is kept once it is superseded at
/// `stamp`.
pub fn history_file_name(name: &str, stamp: &str) -> (out: String)
    ensures
        out@ == history_name(name@, stamp@),
{
    string_of(&history_name_chars(&chars_of(name), &chars_of(stamp)))
}

pub(crate) fn history_dir_chars(
    destination: &Vec<char>,
    roots: &Vec<String>,
    path: &Vec<char>,
) -> (out: Vec<char>)
    ensures
        out@ == history_dir_of(destination@, crate::text::texts(roots@), path@),
{
    let (label, relative) = classify_chars(path, roots);
    let history = join_chars(destination, &chars_of("History"));
    join_chars(&join_chars(&history, &label), &parent_chars(&relative))
}

/// The root of the history tree below `destination`.
pub fn history_root(destination: &str) -> (out: String)
    ensures
        out@ == history_root_of(destination@),
{
    join(destination, "History")
}

/// Whether each of `roots` can be told from the others by its label.
pub fn have_distinct_labels(roots: &Vec<String>) -> (distinct: bool)
    ensures
        distinct == labels_distinct(crate::text::texts(roots@)),
{
    let ghost all = crate::text::texts(roots@);
    let mut labels: Vec<Vec<char>> = Vec::new();
    let mut i: usize = 0;
    while i < roots.len()
        invariant
            i <= roots.len(),
            all == crate::text::texts(roots@),
            labels.len() == i,
            forall|k: int| 0 <= k < i ==> (#[trigger] labels@[k])@ == label_of(all[k]),
            forall|k: int| 0 <= k < i ==> label_of(#[trigger] all[k]).len() > 0,
            forall|a: int, b: int|
                0 <= a < b < i ==> label_of(#[trigger] all[a]) != label_of(#[trigger] all[b]),
        decreases roots.len() - i,
    {
        let label = label_chars(&chars_of(roots[i].as_str()));
        assert(label@ == label_of(all[i as int]));
        if label.len() == 0 {
            return false;
        }
        let mut k: usize = 0;
        while k < i
            invariant
                k <= i < roots.len(),
                all == crate::text::texts(roots@),
                labels.len() == i,
                label@ == label_of(all[i as int]),
                forall|a: int| 0 <= a < i ==> (#[trigger] labels@[a])@ == label_of(all[a]),
                forall|a: int| 0 <= a < k ==> label_of(#[trigger] all[a]) != label_of(all[i as int]),
            decreases i - k,
        {
            if crate::text::same_chars(&labels[k], &label) {
                assert(label_of(all[k as int]) == label_of(all[i as int]));
                return false;
            }
            k += 1;
        }
        labels.push(label);
        i += 1;
    }
    true
}

/// The directory that keeps the superseded versions of the source file
/// `path`.
pub fn history_dir(destination: &str, roots: &Vec<String>, path: &str) -> (out: String)
    ensures
        out@ == history_dir_of(destination@, crate::text::texts(roots@), path@),
{
    string_of(&history_dir_chars(&chars_of(destination), roots, &chars_of(path)))
}

pub(crate) fn history_path_chars(
    destination: &Vec<char>,
    roots: &Vec<String>,
    path: &Vec<char>,
    stamp: &Vec<char>,
) -> (out: Vec<char>)
    ensures
        out@ == history_path_of(destination@, crate::text::texts(roots@), path@, stamp@),
{
    let dir = history_dir_chars(destination, roots, path);
    let name = file_name_chars(&destination_chars(destination, roots, path));
    join_chars(&dir, &history_name_chars(&name, stamp))
}

/// Where the version of the source file `path` that a transfer supersedes
/// at `stamp` is kept.
pub fn history_path(destination: &str, roots: &Vec<String>, path: &str, stamp: &str) -> (out:
    String)
    ensures
        out@ == history_path_of(destination@, crate::text::texts(roots@), path@, stamp@),
{
    string_of(
        &history_path_chars(&chars_of(destination), roots, &chars_of(path), &chars_of(stamp)),
    )
}

} // verus!
