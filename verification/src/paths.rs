//! Paths as text: the parts they consist of, how one is stripped of another,
//! and how one is joined onto another. As on Unix, `/` separates parts and
//! nothing else does.

use vstd::prelude::*;
use crate::text::to_chars;

verus! {

/// One part of a path.
pub enum PathPart {
    /// The leading `/` of an absolute path.
    RootDir,
    /// A `.` at the very beginning of a path.
    CurDir,
    /// A `..`.
    ParentDir,
    /// Any other name.
    Normal(Seq<char>),
}

/// Whether the path starts with `/`.
pub open spec fn is_absolute(path: Seq<char>) -> bool {
    path.len() > 0 && path[0] == '/'
}

/// The first position at or after `from` that holds `/`, or the end of the path.
pub open spec fn name_end(path: Seq<char>, from: int) -> int
    decreases path.len() - from,
{
    if 0 <= from < path.len() && path[from] != '/' {
        name_end(path, from + 1)
    } else {
        from
    }
}

/// Where the names of a path begin and end, from position `from` on. Runs of
/// `/` separate names, and a `.` counts as a name only at the beginning of the
/// path.
pub open spec fn name_spans(path: Seq<char>, from: int) -> Seq<(int, int)>
    decreases path.len() - from,
{
    if from < 0 || from >= path.len() {
        Seq::empty()
    } else if path[from] == '/' {
        name_spans(path, from + 1)
    } else {
        let end = name_end(path, from);
        proof {
            lemma_name_end(path, from + 1);
        }
        let rest = name_spans(path, end);
        if path.subrange(from, end) == seq!['.'] && from != 0 {
            rest
        } else {
            seq![(from, end)] + rest
        }
    }
}

/// The part that a name is.
pub open spec fn part_of_name(name: Seq<char>) -> PathPart {
    if name == seq!['.'] {
        PathPart::CurDir
    } else if name == seq!['.', '.'] {
        PathPart::ParentDir
    } else {
        PathPart::Normal(name)
    }
}

/// The names of a path, in order.
pub open spec fn names(path: Seq<char>) -> Seq<Seq<char>> {
    name_spans(path, 0).map_values(|span: (int, int)| path.subrange(span.0, span.1))
}

/// The parts of a path, in order: repeated and trailing separators are
/// ignored, and so is every `.` but a leading one.
pub open spec fn parts(path: Seq<char>) -> Seq<PathPart> {
    let root = if is_absolute(path) {
        seq![PathPart::RootDir]
    } else {
        Seq::empty()
    };
    root + names(path).map_values(|name: Seq<char>| part_of_name(name))
}

/// Where a name ends.
pub proof fn lemma_name_end(path: Seq<char>, from: int)
    requires
        0 <= from <= path.len(),
    ensures
        from <= name_end(path, from) <= path.len(),
        name_end(path, from) < path.len() ==> path[name_end(path, from)] == '/',
        forall|i: int| from <= i < name_end(path, from) ==> path[i] != '/',
    decreases path.len() - from,
{
    if from < path.len() && path[from] != '/' {
        lemma_name_end(path, from + 1);
    }
}

/// Where the parts of a path end: after its last name, or after the leading
/// `/` of a path without names.
pub open spec fn parts_end(path: Seq<char>) -> int {
    let spans = name_spans(path, 0);
    if spans.len() > 0 {
        spans.last().1
    } else if is_absolute(path) {
        1
    } else {
        0
    }
}

/// 1 for an absolute path, whose first part is its root, and 0 for any other.
pub open spec fn root_parts(path: Seq<char>) -> int {
    if is_absolute(path) {
        1
    } else {
        0
    }
}

/// What is left of `path` once the parts of `base` are taken off its front:
/// the text from its next name to its last one. `None` if `path` does not
/// start with the parts of `base`.
pub open spec fn strip_prefix(path: Seq<char>, base: Seq<char>) -> Option<Seq<char>> {
    let taken = parts(base).len() as int;
    if !parts(base).is_prefix_of(parts(path)) {
        None
    } else if taken == 0 {
        Some(path.subrange(0, parts_end(path)))
    } else if taken == parts(path).len() {
        Some(Seq::empty())
    } else {
        Some(path.subrange(name_spans(path, 0)[taken - root_parts(path)].0, parts_end(path)))
    }
}

/// `path` placed under `base`, for a `path` that is not absolute.
pub open spec fn join(base: Seq<char>, path: Seq<char>) -> Seq<char> {
    if base.len() == 0 || base.last() == '/' {
        base + path
    } else {
        base + seq!['/'] + path
    }
}

/// Whether a path names something below the place it is joined onto: it
/// neither starts at the root nor climbs to a parent anywhere.
pub open spec fn is_contained(path: Seq<char>) -> bool {
    forall|i: int|
        0 <= i < parts(path).len() ==> #[trigger] parts(path)[i] !is RootDir && parts(path)[i] !is ParentDir
}

/// The positions of spans as numbers.
pub open spec fn spans_view(spans: Seq<(usize, usize)>) -> Seq<(int, int)> {
    spans.map_values(|span: (usize, usize)| (span.0 as int, span.1 as int))
}

/// Every span lies within the path, and is not empty.
pub proof fn lemma_spans_in_bounds(path: Seq<char>, from: int)
    requires
        0 <= from,
    ensures
        forall|i: int|
            0 <= i < name_spans(path, from).len() ==> from <= (#[trigger] name_spans(path, from)[i]).0
                < name_spans(path, from)[i].1 <= path.len(),
        forall|i: int, j: int|
            0 <= i < j < name_spans(path, from).len() ==> (#[trigger] name_spans(path, from)[i]).1
                <= (#[trigger] name_spans(path, from)[j]).0,
    decreases path.len() - from,
{
    if from < path.len() {
        if path[from] == '/' {
            lemma_spans_in_bounds(path, from + 1);
            assert(name_spans(path, from) == name_spans(path, from + 1));
        } else {
            let end = name_end(path, from);
            lemma_name_end(path, from + 1);
            lemma_spans_in_bounds(path, end);
            assert(end > from);
            let rest = name_spans(path, end);
            let all = name_spans(path, from);
            if all != rest {
                assert(all == seq![(from, end)] + rest);
                assert forall|i: int| 0 <= i < all.len() implies from <= (#[trigger] all[i]).0 < all[i].1
                    <= path.len() by {
                    if i > 0 {
                        assert(all[i] == rest[i - 1]);
                    }
                }
                assert forall|i: int, j: int| 0 <= i < j < all.len() implies (#[trigger] all[i]).1 <= (
                #[trigger] all[j]).0 by {
                    assert(all[j] == rest[j - 1]);
                    if i > 0 {
                        assert(all[i] == rest[i - 1]);
                    }
                }
            }
        }
    }
}

/// The spans of the names of a path.
pub(crate) fn find_names(path: &Vec<char>) -> (spans: Vec<(usize, usize)>)
    ensures
        spans_view(spans@) == name_spans(path@, 0),
{
    let mut spans: Vec<(usize, usize)> = Vec::new();
    let mut i: usize = 0;
    assert(spans_view(spans@) + name_spans(path@, 0) =~= name_spans(path@, 0));
    while i < path.len()
        invariant
            0 <= i <= path@.len(),
            spans_view(spans@) + name_spans(path@, i as int) == name_spans(path@, 0),
        decreases path@.len() - i,
    {
        if path[i] == '/' {
            i += 1;
        } else {
            let start: usize = i;
            i += 1;
            while i < path.len() && path[i] != '/'
                invariant
                    start < i <= path@.len(),
                    name_end(path@, start as int) == name_end(path@, i as int),
                decreases path@.len() - i,
            {
                i += 1;
            }
            let dot = i - start == 1 && path[start] == '.';
            let ghost rest = name_spans(path@, i as int);
            assert(dot == (path@.subrange(start as int, i as int) == seq!['.'])) by {
                let name = path@.subrange(start as int, i as int);
                if dot {
                    assert(name =~= seq!['.']);
                } else if name == seq!['.'] {
                    assert(name.len() == 1 && name[0] == '.');
                }
            }
            if !dot || start == 0 {
                let ghost before = spans_view(spans@);
                spans.push((start, i));
                assert(spans_view(spans@) =~= before.push((start as int, i as int)));
                assert(spans_view(spans@) + rest =~= before + (seq![(start as int, i as int)] + rest));
            }
        }
    }
    assert(spans_view(spans@) + name_spans(path@, i as int) =~= spans_view(spans@));
    spans
}

/// Whether a piece of one text equals a piece of another.
pub(crate) fn same_piece(a: &Vec<char>, x: (usize, usize), b: &Vec<char>, y: (usize, usize)) -> (same: bool)
    requires
        x.0 <= x.1 <= a@.len(),
        y.0 <= y.1 <= b@.len(),
    ensures
        same == (a@.subrange(x.0 as int, x.1 as int) == b@.subrange(y.0 as int, y.1 as int)),
{
    if x.1 - x.0 != y.1 - y.0 {
        assert(a@.subrange(x.0 as int, x.1 as int).len() != b@.subrange(y.0 as int, y.1 as int).len());
        return false;
    }
    let len: usize = x.1 - x.0;
    let mut i: usize = 0;
    while i < len
        invariant
            len == x.1 - x.0 == y.1 - y.0,
            x.0 <= x.1 <= a@.len(),
            y.0 <= y.1 <= b@.len(),
            0 <= i <= len,
            forall|k: int|
                0 <= k < i ==> a@.subrange(x.0 as int, x.1 as int)[k] == #[trigger] b@.subrange(
                    y.0 as int,
                    y.1 as int,
                )[k],
        decreases len - i,
    {
        if a[x.0 + i] != b[y.0 + i] {
            assert(a@.subrange(x.0 as int, x.1 as int)[i as int] != b@.subrange(y.0 as int, y.1 as int)[i as int]);
            return false;
        }
        i += 1;
    }
    assert(a@.subrange(x.0 as int, x.1 as int) =~= b@.subrange(y.0 as int, y.1 as int));
    true
}

/// The parts of a path, one by one.
pub proof fn lemma_parts(path: Seq<char>)
    ensures
        parts(path).len() == root_parts(path) + name_spans(path, 0).len(),
        names(path).len() == name_spans(path, 0).len(),
        is_absolute(path) ==> parts(path)[0] == PathPart::RootDir,
        forall|i: int|
            0 <= i < name_spans(path, 0).len() ==> parts(path)[i + root_parts(path)] == part_of_name(
                #[trigger] names(path)[i],
            ),
        forall|i: int|
            0 <= i < name_spans(path, 0).len() ==> #[trigger] names(path)[i] == path.subrange(
                name_spans(path, 0)[i].0,
                name_spans(path, 0)[i].1,
            ),
{
}

/// Two names make the same part only if they are the same name.
proof fn lemma_part_of_name_injective(a: Seq<char>, b: Seq<char>)
    ensures
        part_of_name(a) == part_of_name(b) <==> a == b,
        part_of_name(a) !is RootDir,
{
}

/// When one path starts with the parts of another.
proof fn lemma_prefix_by_names(path: Seq<char>, base: Seq<char>)
    requires
        is_absolute(path) == is_absolute(base),
        names(base).len() <= names(path).len(),
        forall|i: int| 0 <= i < names(base).len() ==> #[trigger] names(base)[i] == names(path)[i],
    ensures
        parts(base).is_prefix_of(parts(path)),
{
    lemma_parts(path);
    lemma_parts(base);
    assert(parts(base) =~= parts(path).subrange(0, parts(base).len() as int));
}

/// The piece of `path` that is left once the parts of `base` are taken off.
pub(crate) fn find_stripped(path: &Vec<char>, base: &Vec<char>) -> (piece: Option<(usize, usize)>)
    ensures
        match piece {
            Some(span) => span.0 <= span.1 <= path@.len() && strip_prefix(path@, base@) == Some(
                path@.subrange(span.0 as int, span.1 as int),
            ),
            None => strip_prefix(path@, base@) is None,
        },
{
    let path_names = find_names(path);
    let base_names = find_names(base);
    let path_absolute = path.len() > 0 && path[0] == '/';
    let base_absolute = base.len() > 0 && base[0] == '/';
    proof {
        lemma_spans_in_bounds(path@, 0);
        lemma_spans_in_bounds(base@, 0);
        lemma_parts(path@);
        lemma_parts(base@);
        assert(path_names@.len() == spans_view(path_names@).len());
        assert(base_names@.len() == spans_view(base_names@).len());
        assert forall|i: int| 0 <= i < path_names@.len() implies {
            &&& (#[trigger] path_names@[i]).0 < path_names@[i].1 <= path@.len()
            &&& names(path@)[i] == path@.subrange(path_names@[i].0 as int, path_names@[i].1 as int)
        } by {
            assert(spans_view(path_names@)[i] == name_spans(path@, 0)[i]);
        }
        assert forall|i: int| 0 <= i < base_names@.len() implies {
            &&& (#[trigger] base_names@[i]).0 < base_names@[i].1 <= base@.len()
            &&& names(base@)[i] == base@.subrange(base_names@[i].0 as int, base_names@[i].1 as int)
        } by {
            assert(spans_view(base_names@)[i] == name_spans(base@, 0)[i]);
        }
    }
    let end: usize = if path_names.len() > 0 {
        proof {
            assert(spans_view(path_names@)[path_names@.len() - 1] == name_spans(path@, 0).last());
        }
        path_names[path_names.len() - 1].1
    } else if path_absolute {
        1
    } else {
        0
    };
    assert(end == parts_end(path@));
    if base_names.len() == 0 && !base_absolute {
        assert(parts(base@) =~= parts(path@).subrange(0, 0));
        return Some((0, end));
    }
    if path_absolute != base_absolute {
        proof {
            assert(path_absolute == is_absolute(path@));
            assert(base_absolute == is_absolute(base@));
            if parts(base@).is_prefix_of(parts(path@)) {
                assert(parts(base@)[0] == parts(path@)[0]);
                if path_absolute {
                    assert(parts(base@)[0 + root_parts(base@)] == part_of_name(names(base@)[0]));
                } else {
                    assert(parts(path@)[0 + root_parts(path@)] == part_of_name(names(path@)[0]));
                }
            }
        }
        return None;
    }
    if base_names.len() > path_names.len() {
        return None;
    }
    let mut i: usize = 0;
    while i < base_names.len()
        invariant
            0 <= i <= base_names@.len() <= path_names@.len(),
            path_names@.len() == names(path@).len(),
            base_names@.len() == names(base@).len(),
            is_absolute(path@) == is_absolute(base@),
            forall|k: int|
                0 <= k < path_names@.len() ==> {
                    &&& (#[trigger] path_names@[k]).0 < path_names@[k].1 <= path@.len()
                    &&& names(path@)[k] == path@.subrange(path_names@[k].0 as int, path_names@[k].1 as int)
                },
            forall|k: int|
                0 <= k < base_names@.len() ==> {
                    &&& (#[trigger] base_names@[k]).0 < base_names@[k].1 <= base@.len()
                    &&& names(base@)[k] == base@.subrange(base_names@[k].0 as int, base_names@[k].1 as int)
                },
            forall|k: int| 0 <= k < i ==> #[trigger] names(base@)[k] == names(path@)[k],
        decreases base_names@.len() - i,
    {
        if !same_piece(path, path_names[i], base, base_names[i]) {
            proof {
                lemma_parts(path@);
                lemma_parts(base@);
                let k = i + root_parts(path@);
                lemma_part_of_name_injective(names(base@)[i as int], names(path@)[i as int]);
                assert(parts(base@)[k] != parts(path@)[k]);
                if parts(base@).is_prefix_of(parts(path@)) {
                    assert(parts(path@).subrange(0, parts(base@).len() as int)[k] == parts(path@)[k]);
                }
            }
            return None;
        }
        i += 1;
    }
    proof {
        lemma_prefix_by_names(path@, base@);
    }
    if base_names.len() == path_names.len() {
        assert(path@.subrange(end as int, end as int) =~= Seq::empty());
        return Some((end, end));
    }
    let start: usize = path_names[base_names.len()].0;
    proof {
        let first = base_names@.len() as int;
        assert(spans_view(path_names@)[first] == name_spans(path@, 0)[first]);
        assert(spans_view(path_names@)[path_names@.len() - 1] == name_spans(path@, 0).last());
        assert(name_spans(path@, 0)[first].0 < name_spans(path@, 0).last().1);
    }
    Some((start, end))
}

/// Whether two texts are the same.
pub(crate) fn same_text(a: &str, b: &str) -> (same: bool)
    ensures
        same == (a@ == b@),
{
    let a = to_chars(a);
    let b = to_chars(b);
    assert(a@.subrange(0, a@.len() as int) =~= a@);
    assert(b@.subrange(0, b@.len() as int) =~= b@);
    same_piece(&a, (0, a.len()), &b, (0, b.len()))
}

/// Whether one of the names of the path is the given one.
pub(crate) fn has_name(path: &Vec<char>, name: &str) -> (found: bool)
    ensures
        found == names(path@).contains(name@),
{
    let wanted = to_chars(name);
    let spans = find_names(path);
    assert(spans@.len() == spans_view(spans@).len());
    assert(wanted@.subrange(0, wanted@.len() as int) =~= wanted@);
    let mut i: usize = 0;
    while i < spans.len()
        invariant
            0 <= i <= spans@.len(),
            spans_view(spans@) == name_spans(path@, 0),
            spans@.len() == names(path@).len(),
            wanted@ == name@,
            wanted@.subrange(0, wanted@.len() as int) == wanted@,
            forall|k: int| 0 <= k < i ==> #[trigger] names(path@)[k] != name@,
        decreases spans@.len() - i,
    {
        proof {
            lemma_spans_in_bounds(path@, 0);
            assert(spans_view(spans@)[i as int] == name_spans(path@, 0)[i as int]);
            assert(names(path@)[i as int] == path@.subrange(spans@[i as int].0 as int, spans@[i as int].1 as int));
        }
        if same_piece(path, spans[i], &wanted, (0, wanted.len())) {
            return true;
        }
        i += 1;
    }
    false
}

/// Whether the path is free of `..` and of a leading `/`.
pub(crate) fn check_contained(path: &Vec<char>) -> (contained: bool)
    ensures
        contained == is_contained(path@),
{
    proof {
        lemma_parts(path@);
        lemma_spans_in_bounds(path@, 0);
    }
    if path.len() > 0 && path[0] == '/' {
        assert(parts(path@)[0] is RootDir);
        return false;
    }
    let spans = find_names(path);
    assert(spans@.len() == spans_view(spans@).len());
    let mut i: usize = 0;
    while i < spans.len()
        invariant
            0 <= i <= spans@.len(),
            spans_view(spans@) == name_spans(path@, 0),
            spans@.len() == name_spans(path@, 0).len(),
            !is_absolute(path@),
            forall|k: int| 0 <= k < i ==> #[trigger] parts(path@)[k] !is ParentDir,
        decreases spans@.len() - i,
    {
        let span = spans[i];
        proof {
            lemma_parts(path@);
            lemma_spans_in_bounds(path@, 0);
            assert(spans_view(spans@)[i as int] == name_spans(path@, 0)[i as int]);
            let name = names(path@)[i as int];
            assert(parts(path@)[i as int] == part_of_name(name));
            assert(name == path@.subrange(span.0 as int, span.1 as int));
            if span.1 - span.0 == 2 && path@[span.0 as int] == '.' && path@[span.0 + 1] == '.' {
                assert(name =~= seq!['.', '.']);
            } else if name == seq!['.', '.'] {
                assert(name.len() == 2 && name[0] == '.' && name[1] == '.');
            }
        }
        if span.1 - span.0 == 2 && path[span.0] == '.' && path[span.0 + 1] == '.' {
            return false;
        }
        i += 1;
    }
    proof {
        lemma_parts(path@);
        assert forall|k: int| 0 <= k < parts(path@).len() implies #[trigger] parts(path@)[k] !is RootDir
            && parts(path@)[k] !is ParentDir by {
            lemma_part_of_name_injective(names(path@)[k], names(path@)[k]);
        }
    }
    true
}

} // verus!
