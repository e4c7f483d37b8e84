//! What the parts of a path are, said of its text alone: the pieces between
//! one `/` and the next.

use vstd::prelude::*;
use crate::file_scanner::normalized;
use crate::path_laws::{is_trimmed, stripped_is_trimmed, stripped_parts, stripping_undoes_joining};
use crate::paths::{is_absolute, is_contained, join, lemma_name_end, lemma_parts, lemma_spans_in_bounds, name_end,
    name_spans, names, part_of_name, parts, parts_end, root_parts, strip_prefix};

verus! {

/// Whether the text from `start` to `end` is all that stands between two
/// neighbouring `/`, or between one and the beginning or the end of the path.
pub open spec fn is_segment(path: Seq<char>, start: int, end: int) -> bool {
    &&& 0 <= start <= end <= path.len()
    &&& start == 0 || path[start - 1] == '/'
    &&& end == path.len() || path[end] == '/'
    &&& forall|i: int| start <= i < end ==> path[i] != '/'
}

/// Whether one of the segments of a path is the given text.
pub open spec fn has_segment(path: Seq<char>, text: Seq<char>) -> bool {
    exists|start: int, end: int| #[trigger] is_segment(path, start, end) && path.subrange(start, end) == text
}

/// Every span is a segment that is not empty, and a `.` only at the beginning.
proof fn lemma_spans_are_segments(path: Seq<char>, from: int)
    requires
        0 <= from <= path.len(),
        from == 0 || from == path.len() || path[from - 1] == '/' || path[from] == '/',
    ensures
        forall|k: int|
            0 <= k < name_spans(path, from).len() ==> {
                let span = #[trigger] name_spans(path, from)[k];
                &&& span.0 < span.1
                &&& is_segment(path, span.0, span.1)
                &&& path.subrange(span.0, span.1) == seq!['.'] ==> span.0 == 0
            },
    decreases path.len() - from,
{
    if from < path.len() {
        if path[from] == '/' {
            lemma_spans_are_segments(path, from + 1);
            assert(name_spans(path, from) == name_spans(path, from + 1));
        } else {
            let end = name_end(path, from);
            lemma_name_end(path, from);
            lemma_name_end(path, from + 1);
            lemma_spans_are_segments(path, end);
            let rest = name_spans(path, end);
            let all = name_spans(path, from);
            assert(is_segment(path, from, end));
            if !(path.subrange(from, end) == seq!['.'] && from != 0) {
                assert(all == seq![(from, end)] + rest);
                assert forall|k: int| 0 <= k < all.len() implies {
                    let span = #[trigger] all[k];
                    &&& span.0 < span.1
                    &&& is_segment(path, span.0, span.1)
                    &&& path.subrange(span.0, span.1) == seq!['.'] ==> span.0 == 0
                } by {
                    if k > 0 {
                        assert(all[k] == rest[k - 1]);
                    }
                }
            }
        }
    }
}

/// The span of a segment.
proof fn lemma_segment_is_span(path: Seq<char>, from: int, start: int, end: int) -> (k: int)
    requires
        0 <= from <= start < end,
        is_segment(path, start, end),
        start == 0 || path.subrange(start, end) != seq!['.'],
    ensures
        0 <= k < name_spans(path, from).len(),
        name_spans(path, from)[k] == (start, end),
    decreases path.len() - from,
{
    if path[from] == '/' {
        assert(name_spans(path, from) == name_spans(path, from + 1));
        lemma_segment_is_span(path, from + 1, start, end)
    } else {
        let stop = name_end(path, from);
        lemma_name_end(path, from);
        lemma_name_end(path, from + 1);
        let rest = name_spans(path, stop);
        if start == from {
            assert(stop == end) by {
                if stop < end {
                    assert(path[stop] == '/');
                } else if end < stop {
                    assert(path[end] == '/');
                }
            }
            assert(name_spans(path, from) == seq![(start, end)] + rest);
            0
        } else {
            assert(start >= stop) by {
                if start < stop {
                    assert(path[start - 1] == '/');
                }
            }
            let k = lemma_segment_is_span(path, stop, start, end);
            if path.subrange(from, stop) == seq!['.'] && from != 0 {
                k
            } else {
                assert(name_spans(path, from) == seq![(from, stop)] + rest);
                k + 1
            }
        }
    }
}

/// The names of a path are its segments in their order, but for the empty ones
/// and for every `.` that does not stand at the beginning.
pub proof fn names_are_the_segments(path: Seq<char>)
    ensures
        forall|k: int|
            0 <= k < name_spans(path, 0).len() ==> {
                let span = #[trigger] name_spans(path, 0)[k];
                &&& span.0 < span.1
                &&& is_segment(path, span.0, span.1)
                &&& path.subrange(span.0, span.1) == seq!['.'] ==> span.0 == 0
                &&& names(path)[k] == path.subrange(span.0, span.1)
            },
        forall|j: int, k: int|
            0 <= j < k < name_spans(path, 0).len() ==> (#[trigger] name_spans(path, 0)[j]).1 < (
            #[trigger] name_spans(path, 0)[k]).0,
        forall|start: int, end: int| #[trigger]
            is_segment(path, start, end) && start < end && (start == 0 || path.subrange(start, end) != seq!['.'])
                ==> name_spans(path, 0).contains((start, end)),
        names(path).len() == name_spans(path, 0).len(),
{
    let all = name_spans(path, 0);
    lemma_parts(path);
    lemma_spans_are_segments(path, 0);
    lemma_spans_in_bounds(path, 0);
    assert forall|j: int, k: int| 0 <= j < k < all.len() implies (#[trigger] all[j]).1 < (#[trigger] all[k]).0 by {
        assert(is_segment(path, all[j].0, all[j].1));
        assert(is_segment(path, all[k].0, all[k].1));
        if all[j].1 == all[k].0 {
            assert(path[all[k].0 - 1] == '/');
        }
    }
    assert forall|start: int, end: int| #[trigger]
        is_segment(path, start, end) && start < end && (start == 0 || path.subrange(start, end) != seq!['.']) implies all.contains(
        (start, end),
    ) by {
        let k = lemma_segment_is_span(path, 0, start, end);
        assert(all[k] == (start, end));
    }
}

/// A name is found in a path if and only if it stands there between two `/`,
/// or between one and the beginning or the end.
pub proof fn names_by_text(path: Seq<char>, name: Seq<char>)
    requires
        name.len() > 0,
        name != seq!['.'],
    ensures
        names(path).contains(name) <==> has_segment(path, name),
{
    names_are_the_segments(path);
    let all = name_spans(path, 0);
    if names(path).contains(name) {
        let k = names(path).index_of(name);
        let span = all[k];
        assert(is_segment(path, span.0, span.1) && path.subrange(span.0, span.1) == name);
    }
    if has_segment(path, name) {
        let (start, end) = choose|start: int, end: int| #[trigger]
            is_segment(path, start, end) && path.subrange(start, end) == name;
        assert(all.contains((start, end)));
        let k = all.index_of((start, end));
        assert(names(path)[k] == name);
    }
}

/// A path is contained if and only if it does not start with `/` and holds no
/// `..` between two `/`, or between one and the beginning or the end.
pub proof fn containment_by_text(path: Seq<char>)
    ensures
        is_contained(path) <==> (path.len() == 0 || path[0] != '/') && !has_segment(path, seq!['.', '.']),
{
    let up = seq!['.', '.'];
    assert(up.len() == 2 && seq!['.'].len() == 1);
    lemma_parts(path);
    names_by_text(path, up);
    if is_absolute(path) {
        assert(parts(path)[0] is RootDir);
    }
    if names(path).contains(up) {
        let k = names(path).index_of(up);
        assert(parts(path)[k + root_parts(path)] == part_of_name(names(path)[k]));
    }
    if !is_absolute(path) && !names(path).contains(up) {
        assert forall|i: int| 0 <= i < parts(path).len() implies #[trigger] parts(path)[i] !is RootDir
            && parts(path)[i] !is ParentDir by {
            assert(parts(path)[i + root_parts(path)] == part_of_name(names(path)[i]));
            assert(names(path).contains(names(path)[i]));
        }
    }
}

/// A character of a path as a manifest lists it.
pub open spec fn listed_char(c: char) -> char {
    if c == '\\' {
        '/'
    } else {
        c
    }
}

/// A normalized path is a piece of the path, with slashes for backslashes. If
/// the path starts with the parts of the root, the piece holds all the other
/// parts and, behind a root that is not empty, nothing around them. An empty
/// root leaves everything up to the end of the last name. A path that does not
/// start with the parts of the root stays whole.
pub proof fn normalized_by_text(path: Seq<char>, root: Seq<char>) -> (piece: (int, int))
    ensures
        0 <= piece.0 <= piece.1 <= path.len(),
        normalized(path, root).len() == piece.1 - piece.0,
        forall|k: int|
            0 <= k < piece.1 - piece.0 ==> #[trigger] normalized(path, root)[k] == listed_char(path[piece.0 + k]),
        parts(root).is_prefix_of(parts(path)) ==> {
            let rest = path.subrange(piece.0, piece.1);
            parts(path) == parts(root) + parts(rest) && (root.len() > 0 ==> is_trimmed(rest))
        },
        root.len() == 0 && names(path).len() > 0 ==> piece == (0int, name_spans(path, 0).last().1),
        !parts(root).is_prefix_of(parts(path)) ==> piece == (0int, path.len() as int),
{
    let taken = parts(root).len() as int;
    lemma_parts(path);
    lemma_spans_in_bounds(path, 0);
    stripped_parts(path, root);
    if root.len() > 0 {
        stripped_is_trimmed(path, root);
    } else {
        lemma_parts(root);
        assert(name_spans(root, 0).len() == 0);
        assert(parts(root) =~= parts(path).subrange(0, 0));
    }
    let all = name_spans(path, 0);
    if !parts(root).is_prefix_of(parts(path)) {
        (0, path.len() as int)
    } else if taken == 0 {
        assert(path.len() == 0 ==> all.len() == 0);
        (0, parts_end(path))
    } else if taken == parts(path).len() {
        assert(path.subrange(0, 0) =~= Seq::empty());
        (0, 0)
    } else {
        let first = taken - root_parts(path);
        if first < all.len() - 1 {
            assert(all[first].1 <= all[all.len() - 1].0);
        }
        (all[first].0, parts_end(path))
    }
}

/// What a walk of `root` finds at a path below it is listed under that very
/// path, but for its backslashes.
pub proof fn normalizing_undoes_joining(root: Seq<char>, path: Seq<char>)
    requires
        is_trimmed(path),
        !is_absolute(path),
    ensures
        normalized(join(root, path), root).len() == path.len(),
        forall|k: int| 0 <= k < path.len() ==> #[trigger] normalized(join(root, path), root)[k] == listed_char(path[k]),
{
    stripping_undoes_joining(root, path);
}

/// Joining puts a `/` between the two texts, unless the first is empty or ends
/// with one.
pub proof fn join_by_text(base: Seq<char>, path: Seq<char>)
    ensures
        path.is_suffix_of(join(base, path)),
        base.is_prefix_of(join(base, path)),
        ({
            let between = join(base, path).len() - base.len() - path.len();
            if base.len() > 0 && base[base.len() - 1] != '/' {
                between == 1 && join(base, path)[base.len() as int] == '/'
            } else {
                between == 0
            }
        }),
{
    let joined = join(base, path);
    assert(joined.subrange(0, base.len() as int) =~= base);
    assert(joined.subrange(joined.len() - path.len(), joined.len() as int) =~= path);
}

} // verus!
