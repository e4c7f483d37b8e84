//! What joining and stripping do to the parts of a path.

use vstd::prelude::*;
use crate::paths::{is_absolute, is_contained, join, lemma_name_end, lemma_parts, lemma_spans_in_bounds, name_end,
    name_spans, names, part_of_name, parts, parts_end, root_parts, strip_prefix, PathPart};

verus! {

/// The parts of a path but for a leading `.`, which stands for no step.
pub open spec fn steps(path: Seq<char>) -> Seq<PathPart> {
    if parts(path).len() > 0 && parts(path)[0] is CurDir {
        parts(path).drop_first()
    } else {
        parts(path)
    }
}

/// No name runs from the end of one text into the beginning of the next.
spec fn breaks_cleanly(s: Seq<char>, t: Seq<char>) -> bool {
    s.len() == 0 || s.last() == '/' || t.len() == 0 || t[0] == '/'
}

proof fn lemma_name_end_in_front(s: Seq<char>, t: Seq<char>, from: int)
    requires
        breaks_cleanly(s, t),
        0 <= from < s.len(),
    ensures
        name_end(s + t, from) == name_end(s, from),
    decreases s.len() - from,
{
    assert((s + t)[from] == s[from]);
    if s[from] != '/' {
        if from + 1 < s.len() {
            lemma_name_end_in_front(s, t, from + 1);
        } else {
            assert(name_end(s, from + 1) == from + 1);
            assert(t.len() > 0 ==> (s + t)[from + 1] == t[0]);
            assert(name_end(s + t, from + 1) == from + 1);
        }
    }
}

/// The spans of a text put together from two are those of the first, followed
/// by those found from the seam on.
proof fn lemma_spans_concat(s: Seq<char>, t: Seq<char>, from: int)
    requires
        breaks_cleanly(s, t),
        0 <= from <= s.len(),
    ensures
        name_spans(s + t, from) == name_spans(s, from) + name_spans(s + t, s.len() as int),
    decreases s.len() - from,
{
    let seam = name_spans(s + t, s.len() as int);
    if from == s.len() {
        assert(name_spans(s, from) + seam =~= seam);
    } else {
        assert((s + t)[from] == s[from]);
        if s[from] == '/' {
            lemma_spans_concat(s, t, from + 1);
            assert(name_spans(s + t, from) == name_spans(s + t, from + 1));
            assert(name_spans(s, from) == name_spans(s, from + 1));
        } else {
            lemma_name_end_in_front(s, t, from);
            lemma_name_end(s, from + 1);
            let end = name_end(s, from);
            lemma_spans_concat(s, t, end);
            assert((s + t).subrange(from, end) =~= s.subrange(from, end));
            let front = seq![(from, end)];
            assert(front + (name_spans(s, end) + seam) =~= (front + name_spans(s, end)) + seam);
        }
    }
}

spec fn shifted(spans: Seq<(int, int)>, by: int) -> Seq<(int, int)> {
    spans.map_values(|span: (int, int)| (span.0 + by, span.1 + by))
}

proof fn lemma_name_end_behind(s: Seq<char>, t: Seq<char>, from: int)
    requires
        0 <= from <= t.len(),
    ensures
        name_end(s + t, s.len() + from) == s.len() + name_end(t, from),
    decreases t.len() - from,
{
    if from < t.len() {
        assert((s + t)[s.len() + from] == t[from]);
        if t[from] != '/' {
            lemma_name_end_behind(s, t, from + 1);
        }
    }
}

/// Past its beginning, the spans of a text are the same behind another text,
/// moved by the length of that text.
proof fn lemma_spans_behind(s: Seq<char>, t: Seq<char>, from: int)
    requires
        0 < from <= t.len(),
    ensures
        name_spans(s + t, s.len() + from) == shifted(name_spans(t, from), s.len() as int),
    decreases t.len() - from,
{
    let by = s.len() as int;
    if from == t.len() {
        assert(name_spans(s + t, by + from) =~= shifted(name_spans(t, from), by));
    } else {
        assert((s + t)[by + from] == t[from]);
        if t[from] == '/' {
            lemma_spans_behind(s, t, from + 1);
            assert(name_spans(t, from) == name_spans(t, from + 1));
            assert(name_spans(s + t, by + from) == name_spans(s + t, by + (from + 1)));
        } else {
            lemma_name_end_behind(s, t, from);
            lemma_name_end(t, from + 1);
            let end = name_end(t, from);
            lemma_spans_behind(s, t, end);
            assert((s + t).subrange(by + from, by + end) =~= t.subrange(from, end));
            assert(shifted(seq![(from, end)] + name_spans(t, end), by) =~= seq![(by + from, by + end)]
                + shifted(name_spans(t, end), by));
        }
    }
}

/// At the seam, the spans are those of the second text, but for a leading `.`.
proof fn lemma_spans_at_seam(s: Seq<char>, t: Seq<char>)
    requires
        s.len() > 0,
        !is_absolute(t),
    ensures
        name_spans(s + t, s.len() as int) == shifted(kept_spans(t), s.len() as int),
{
    let by = s.len() as int;
    if t.len() == 0 {
        assert(name_spans(s + t, by) =~= shifted(name_spans(t, 0), by));
    } else {
        assert((s + t)[by] == t[0]);
        lemma_name_end_behind(s, t, 0);
        lemma_name_end(t, 1);
        let end = name_end(t, 0);
        lemma_spans_behind(s, t, end);
        assert((s + t).subrange(by, by + end) =~= t.subrange(0, end));
        assert(name_spans(t, 0) == seq![(0int, end)] + name_spans(t, end));
        assert(name_spans(t, 0).drop_first() =~= name_spans(t, end));
        assert(shifted(seq![(0int, end)] + name_spans(t, end), by) =~= seq![(by, by + end)] + shifted(
            name_spans(t, end),
            by,
        ));
    }
}

/// The names that a path adds to what it is joined onto: all but a leading `.`.
spec fn kept_spans(path: Seq<char>) -> Seq<(int, int)> {
    let own = name_spans(path, 0);
    if own.len() > 0 && own[0].0 == 0 && path.subrange(0, own[0].1) == seq!['.'] {
        own.drop_first()
    } else {
        own
    }
}

/// How far the text of a path is moved when it is joined onto a base.
spec fn offset_in_join(base: Seq<char>) -> int {
    if base.last() == '/' {
        base.len() as int
    } else {
        base.len() as int + 1
    }
}

/// The names of a joined path are those of the base, followed by those that
/// the path adds.
proof fn lemma_joined_spans(base: Seq<char>, path: Seq<char>)
    requires
        base.len() > 0,
        !is_absolute(path),
    ensures
        name_spans(join(base, path), 0) == name_spans(base, 0) + shifted(kept_spans(path), offset_in_join(base)),
        is_absolute(join(base, path)) == is_absolute(base),
        join(base, path).len() == offset_in_join(base) + path.len(),
        forall|i: int| 0 <= i < base.len() ==> #[trigger] join(base, path)[i] == base[i],
        join(base, path).skip(offset_in_join(base)) == path,
{
    let joined = join(base, path);
    let front = if base.last() == '/' {
        base
    } else {
        base + seq!['/']
    };
    assert(joined =~= front + path);
    assert(joined.skip(offset_in_join(base)) =~= path);
    assert(joined[0] == base[0]);
    lemma_spans_concat(front, path, 0);
    lemma_spans_at_seam(front, path);
    assert(name_spans(front, 0) == name_spans(base, 0)) by {
        if base.last() != '/' {
            lemma_spans_concat(base, seq!['/'], 0);
            let n = base.len() as int;
            assert(front[n] == '/');
            assert(name_spans(front, n + 1) =~= Seq::empty());
            assert(name_spans(front, n) == name_spans(front, n + 1));
            assert(name_spans(base, 0) + name_spans(front, n) =~= name_spans(base, 0));
        }
    }
}

/// The kept names are the steps of the path.
proof fn lemma_kept_are_steps(path: Seq<char>)
    requires
        !is_absolute(path),
    ensures
        kept_spans(path).len() == steps(path).len(),
        forall|i: int|
            0 <= i < steps(path).len() ==> {
                let span = kept_spans(path)[i];
                0 <= span.0 < span.1 <= path.len() && #[trigger] steps(path)[i] == part_of_name(
                    path.subrange(span.0, span.1),
                )
            },
{
    let own = name_spans(path, 0);
    lemma_spans_in_bounds(path, 0);
    lemma_parts(path);
    let dot = own.len() > 0 && own[0].0 == 0 && path.subrange(0, own[0].1) == seq!['.'];
    assert(dot == (parts(path).len() > 0 && parts(path)[0] is CurDir)) by {
        if own.len() > 0 {
            assert(parts(path)[0] == part_of_name(names(path)[0]));
            if own[0].0 != 0 {
                assert(path[0] != '/');
                lemma_name_end(path, 1);
                assert(own[0] == (0int, name_end(path, 0)));
            }
        }
    }
    let skip = if dot {
        1int
    } else {
        0
    };
    assert forall|i: int| 0 <= i < steps(path).len() implies {
        let span = kept_spans(path)[i];
        0 <= span.0 < span.1 <= path.len() && #[trigger] steps(path)[i] == part_of_name(
            path.subrange(span.0, span.1),
        )
    } by {
        let n = i + skip;
        assert(kept_spans(path)[i] == own[n]);
        assert(steps(path)[i] == parts(path)[n]);
        assert(parts(path)[n + 0] == part_of_name(names(path)[n]));
    }
}

/// Joining adds parts and takes none away: the parts of the joined path are
/// those of the base, followed by the steps of the path that was joined on. (On
/// an empty base, a leading `.` stays.)
pub proof fn joined_parts(base: Seq<char>, path: Seq<char>)
    requires
        base.len() > 0 || steps(path) == parts(path),
        !is_absolute(path),
    ensures
        parts(join(base, path)) == parts(base) + steps(path),
{
    if base.len() == 0 {
        lemma_parts(base);
        assert(join(base, path) =~= path);
        assert(parts(base) + steps(path) =~= parts(path));
    } else {
        lemma_joined_parts(base, path);
    }
}

proof fn lemma_joined_parts(base: Seq<char>, path: Seq<char>)
    requires
        base.len() > 0,
        !is_absolute(path),
    ensures
        parts(join(base, path)) == parts(base) + steps(path),
{
    let joined = join(base, path);
    let by = offset_in_join(base);
    lemma_joined_spans(base, path);
    lemma_kept_are_steps(path);
    lemma_spans_in_bounds(base, 0);
    lemma_parts(base);
    lemma_parts(joined);
    let whole = parts(base) + steps(path);
    let root = root_parts(base);
    let first = name_spans(base, 0).len() as int;
    assert forall|i: int| 0 <= i < whole.len() implies #[trigger] parts(joined)[i] == whole[i] by {
        if i >= root {
            let k = i - root;
            assert(parts(joined)[k + root] == part_of_name(names(joined)[k]));
            if k < first {
                assert(parts(base)[k + root] == part_of_name(names(base)[k]));
                let span = name_spans(base, 0)[k];
                assert(joined.subrange(span.0, span.1) =~= base.subrange(span.0, span.1));
            } else {
                let n = k - first;
                assert(whole[i] == steps(path)[n]);
                let span = kept_spans(path)[n];
                assert(name_spans(joined, 0)[k] == (span.0 + by, span.1 + by));
                assert(joined.subrange(span.0 + by, span.1 + by) =~= joined.skip(by).subrange(span.0, span.1));
            }
        }
    }
    assert(parts(joined) =~= whole);
}

/// A contained path stays below whatever it is joined onto: every part that
/// it adds to the base is an ordinary name. (On an empty base, a leading `.`
/// stays.)
pub proof fn contained_path_stays_below(base: Seq<char>, path: Seq<char>)
    requires
        base.len() > 0 || steps(path) == parts(path),
        is_contained(path),
    ensures
        parts(base).is_prefix_of(parts(join(base, path))),
        forall|i: int|
            parts(base).len() <= i < parts(join(base, path)).len() ==> #[trigger] parts(join(base, path))[i] is Normal,
{
    lemma_parts(path);
    if is_absolute(path) {
        assert(parts(path)[0] is RootDir);
    }
    joined_parts(base, path);
    let all = parts(join(base, path));
    assert(parts(base) =~= all.subrange(0, parts(base).len() as int));
    assert forall|i: int| parts(base).len() <= i < all.len() implies #[trigger] all[i] is Normal by {
        let skip = parts(path).len() - steps(path).len();
        let n = i - parts(base).len() + skip;
        assert(all[i] == parts(path)[n]);
        assert(parts(path)[n + 0] == part_of_name(names(path)[n]));
        if all[i] is CurDir {
            // A `.` is kept only as the very first name.
            lemma_dot_is_first(path, 0, n);
        }
    }
}

/// A name that is `.` starts at the beginning of the path.
proof fn lemma_dot_is_first(path: Seq<char>, from: int, n: int)
    requires
        0 <= from,
        0 <= n < name_spans(path, from).len(),
        path.subrange(name_spans(path, from)[n].0, name_spans(path, from)[n].1) == seq!['.'],
    ensures
        from == 0 && n == 0 && name_spans(path, from)[n].0 == 0,
    decreases path.len() - from,
{
    if path[from] == '/' {
        assert(name_spans(path, from) == name_spans(path, from + 1));
        lemma_dot_is_first(path, from + 1, n);
    } else {
        let end = name_end(path, from);
        lemma_name_end(path, from + 1);
        let rest = name_spans(path, end);
        let kept = !(path.subrange(from, end) == seq!['.'] && from != 0);
        if !kept {
            lemma_dot_is_first(path, end, n);
        } else {
            assert(name_spans(path, from) == seq![(from, end)] + rest);
            if n > 0 {
                assert(name_spans(path, from)[n] == rest[n - 1]);
                lemma_dot_is_first(path, end, n - 1);
            }
        }
    }
}

/// From the beginning of a name on, the names of a path are that one and those
/// behind it.
proof fn lemma_spans_from_name(path: Seq<char>, from: int, k: int)
    requires
        0 <= from,
        0 <= k < name_spans(path, from).len(),
    ensures
        name_spans(path, name_spans(path, from)[k].0) == name_spans(path, from).skip(k),
    decreases path.len() - from,
{
    let all = name_spans(path, from);
    if path[from] == '/' {
        assert(all == name_spans(path, from + 1));
        lemma_spans_from_name(path, from + 1, k);
    } else {
        let end = name_end(path, from);
        lemma_name_end(path, from + 1);
        let rest = name_spans(path, end);
        if path.subrange(from, end) == seq!['.'] && from != 0 {
            lemma_spans_from_name(path, end, k);
        } else {
            assert(all == seq![(from, end)] + rest);
            if k == 0 {
                assert(all.skip(0) =~= all);
            } else {
                assert(all[k] == rest[k - 1]);
                lemma_spans_from_name(path, end, k - 1);
                assert(all.skip(k) =~= rest.skip(k - 1));
            }
        }
    }
}

/// A name ends at the end of the path or before a `/`.
proof fn lemma_span_ends(path: Seq<char>, from: int, k: int)
    requires
        0 <= from,
        0 <= k < name_spans(path, from).len(),
    ensures
        ({
            let span = name_spans(path, from)[k];
            &&& span.0 < span.1 <= path.len()
            &&& path[span.0] != '/'
            &&& span.1 < path.len() ==> path[span.1] == '/'
        }),
    decreases path.len() - from,
{
    let all = name_spans(path, from);
    if path[from] == '/' {
        lemma_span_ends(path, from + 1, k);
    } else {
        let end = name_end(path, from);
        lemma_name_end(path, from);
        lemma_name_end(path, from + 1);
        let rest = name_spans(path, end);
        if path.subrange(from, end) == seq!['.'] && from != 0 {
            lemma_span_ends(path, end, k);
        } else {
            assert(all == seq![(from, end)] + rest);
            if k > 0 {
                assert(all[k] == rest[k - 1]);
                lemma_span_ends(path, end, k - 1);
            }
        }
    }
}

/// The names between the beginning of one name and the end of the last one.
proof fn lemma_spans_of_middle(path: Seq<char>, k: int)
    requires
        0 < k < name_spans(path, 0).len() || 0 == k < name_spans(path, 0).len() && is_absolute(path),
    ensures
        ({
            let all = name_spans(path, 0);
            let start = all[k].0;
            shifted(name_spans(path.subrange(start, all.last().1), 0), start) == all.skip(k)
        }),
{
    let all = name_spans(path, 0);
    let start = all[k].0;
    let end = all.last().1;
    lemma_spans_in_bounds(path, 0);
    lemma_spans_from_name(path, 0, k);
    lemma_span_ends(path, 0, k);
    lemma_span_ends(path, 0, all.len() - 1);
    if k > 0 {
        assert(all[0].1 <= all[k].0);
    }
    assert(start > 0);
    if k < all.len() - 1 {
        assert(all[k].1 <= all[all.len() - 1].0);
    }
    let s = path.take(start);
    let t = path.subrange(start, end);
    let u = path.skip(end);
    assert(path =~= s + (t + u));
    assert((t + u)[0] == path[start]);
    lemma_spans_at_seam(s, t + u);
    let own = name_spans(t + u, 0);
    let kept = kept_spans(t + u);
    assert(all.skip(k) == shifted(kept, start));
    assert(all.skip(k)[0] == all[k]);
    assert(kept[0].0 == 0);
    if kept != own {
        lemma_spans_in_bounds(t + u, 0);
        assert(kept[0] == own[1]);
        assert(own[0].1 <= own[1].0);
    }
    if u.len() > 0 {
        assert(u[0] == path[end]);
    }
    lemma_spans_concat(t, u, 0);
    let tail = name_spans(t + u, t.len() as int);
    lemma_spans_in_bounds(t + u, t.len() as int);
    if tail.len() > 0 {
        assert(own.last() == tail.last());
        assert(tail[tail.len() - 1].1 > t.len());
        assert(shifted(own, start).last() == (own.last().0 + start, own.last().1 + start));
        assert(all.skip(k).last() == all.last());
    }
    assert(name_spans(t, 0) + tail =~= name_spans(t, 0));
}

/// Taking one path off the front of another takes off its parts, and leaves
/// the others as they are.
pub proof fn stripped_parts(path: Seq<char>, base: Seq<char>)
    ensures
        strip_prefix(path, base) matches Some(rest) ==> parts(path) == parts(base) + parts(rest),
{
    if let Some(rest) = strip_prefix(path, base) {
        let taken = parts(base).len() as int;
        let all = name_spans(path, 0);
        let root = root_parts(path);
        lemma_parts(path);
        lemma_parts(rest);
        lemma_spans_in_bounds(path, 0);
        assert(parts(base) =~= parts(path).take(taken));
        if taken == 0 {
            lemma_parts_of_front(path);
            assert(parts(base) + parts(rest) =~= parts(rest));
        } else if taken == parts(path).len() {
            assert(rest =~= Seq::empty());
            assert(name_spans(rest, 0).len() == 0);
            assert(parts(base) + parts(rest) =~= parts(path));
        } else {
            let k = taken - root;
            let start = all[k].0;
            lemma_spans_of_middle(path, k);
            lemma_span_ends(path, 0, k);
            if k < all.len() - 1 {
                assert(all[k].1 <= all[all.len() - 1].0);
            }
            let own = name_spans(rest, 0);
            lemma_spans_in_bounds(rest, 0);
            assert(own.len() == shifted(own, start).len());
            assert(rest[0] == path[start]);
            let whole = parts(base) + parts(rest);
            assert forall|i: int| taken <= i < parts(path).len() implies #[trigger] parts(path)[i] == whole[i] by {
                let n = i - taken;
                assert(parts(rest)[n + 0] == part_of_name(names(rest)[n]));
                assert(parts(path)[(n + k) + root] == part_of_name(names(path)[n + k]));
                assert(shifted(own, start)[n] == all.skip(k)[n]);
                assert(all[n + k] == (own[n].0 + start, own[n].1 + start));
                assert(path.subrange(own[n].0 + start, own[n].1 + start) =~= rest.subrange(own[n].0, own[n].1));
            }
            assert(parts(path) =~= whole);
        }
    }
}

/// What stands behind the last part of a path plays no part.
proof fn lemma_parts_of_front(path: Seq<char>)
    ensures
        parts(path.subrange(0, parts_end(path))) == parts(path),
        name_spans(path.subrange(0, parts_end(path)), 0) == name_spans(path, 0),
{
    let all = name_spans(path, 0);
    let end = parts_end(path);
    lemma_spans_in_bounds(path, 0);
    let t = path.subrange(0, end);
    let u = path.skip(end);
    assert(path =~= t + u);
    if all.len() > 0 {
        lemma_span_ends(path, 0, all.len() - 1);
    } else if path.len() > 0 && !is_absolute(path) {
        // A path that does not start with `/` starts with a name.
        lemma_name_end(path, 1);
        assert(all.len() > 0);
    }
    if u.len() > 0 {
        assert(u[0] == path[end]);
    }
    lemma_spans_concat(t, u, 0);
    let tail = name_spans(path, end);
    lemma_spans_in_bounds(path, end);
    if tail.len() > 0 {
        assert(all.last() == tail.last());
        assert(tail[tail.len() - 1].1 > end);
    }
    assert(name_spans(t, 0) + tail =~= name_spans(t, 0));
    assert(is_absolute(t) == is_absolute(path)) by {
        if path.len() > 0 && t.len() > 0 {
            assert(t[0] == path[0]);
        }
    }
    lemma_parts(path);
    lemma_parts(t);
    assert forall|i: int| 0 <= i < parts(path).len() implies #[trigger] parts(t)[i] == parts(path)[i] by {
        if i >= root_parts(path) {
            let k = i - root_parts(path);
            assert(parts(path)[k + root_parts(path)] == part_of_name(names(path)[k]));
            assert(parts(t)[k + root_parts(t)] == part_of_name(names(t)[k]));
            assert(all[k].1 <= end) by {
                if k < all.len() - 1 {
                    assert(all[k].1 <= all[all.len() - 1].0);
                }
            }
            assert(t.subrange(all[k].0, all[k].1) =~= path.subrange(all[k].0, all[k].1));
        }
    }
    assert(parts(t) =~= parts(path));
}

/// Whether a path is written without anything that plays no part at its
/// beginning and its end: it is empty, or it starts and ends with a name, and
/// the first name is not `.`.
pub open spec fn is_trimmed(path: Seq<char>) -> bool {
    let spans = name_spans(path, 0);
    path.len() > 0 ==> {
        &&& spans.len() > 0
        &&& spans[0].0 == 0
        &&& path.subrange(0, spans[0].1) != seq!['.']
        &&& spans.last().1 == path.len()
    }
}

/// A path that is not empty has a part.
pub proof fn lemma_some_part(path: Seq<char>)
    requires
        path.len() > 0,
    ensures
        parts(path).len() > 0,
{
    lemma_parts(path);
    if !is_absolute(path) {
        lemma_name_end(path, 1);
        assert(name_spans(path, 0).len() > 0);
    }
}

/// Taking off a base undoes joining onto it.
pub proof fn stripping_undoes_joining(base: Seq<char>, path: Seq<char>)
    requires
        is_trimmed(path),
        !is_absolute(path),
    ensures
        strip_prefix(join(base, path), base) == Some(path),
{
    if base.len() == 0 {
        lemma_parts(base);
        assert(join(base, path) =~= path);
        assert(parts(base) =~= parts(path).subrange(0, 0));
        assert(path.len() == 0 ==> name_spans(path, 0).len() == 0);
        assert(path.subrange(0, parts_end(path)) =~= path);
    } else {
        lemma_stripping_undoes_joining(base, path);
    }
}

proof fn lemma_stripping_undoes_joining(base: Seq<char>, path: Seq<char>)
    requires
        base.len() > 0,
        is_trimmed(path),
        !is_absolute(path),
    ensures
        strip_prefix(join(base, path), base) == Some(path),
{
    let joined = join(base, path);
    let by = offset_in_join(base);
    lemma_parts(base);
    lemma_some_part(base);
    joined_parts(base, path);
    lemma_joined_spans(base, path);
    lemma_kept_are_steps(path);
    lemma_parts(joined);
    assert(parts(base) =~= parts(joined).subrange(0, parts(base).len() as int));
    let own = name_spans(path, 0);
    assert(kept_spans(path) == own);
    lemma_spans_in_bounds(path, 0);
    if path.len() > 0 {
        let first = name_spans(base, 0).len() as int;
        let all = name_spans(joined, 0);
        assert(all[first] == (own[0].0 + by, own[0].1 + by));
        assert(all.last() == (own.last().0 + by, own.last().1 + by));
        assert(joined.subrange(by, by + path.len()) =~= joined.skip(by));
    } else {
        assert(own.len() == 0);
        assert(path =~= Seq::empty());
    }
}

/// What is left of a path once a base is taken off is trimmed. (An empty base
/// leaves the root of an absolute path, and a leading `.`.)
pub proof fn stripped_is_trimmed(path: Seq<char>, base: Seq<char>)
    requires
        base.len() > 0 || !is_absolute(path) && steps(path) == parts(path),
    ensures
        strip_prefix(path, base) matches Some(rest) ==> is_trimmed(rest),
{
    if base.len() > 0 {
        lemma_some_part(base);
        lemma_stripped_is_trimmed(path, base);
    } else {
        let all = name_spans(path, 0);
        let rest = path.subrange(0, parts_end(path));
        lemma_parts(base);
        lemma_parts(path);
        lemma_spans_in_bounds(path, 0);
        lemma_parts_of_front(path);
        if path.len() > 0 {
            lemma_name_end(path, 1);
            assert(all[0] == (0int, name_end(path, 0)));
            assert(parts(path)[0 + root_parts(path)] == part_of_name(names(path)[0]));
            assert(steps(path).len() == parts(path).len());
            if all.len() > 1 {
                assert(all[0].1 <= all[all.len() - 1].0);
            }
            assert(rest.subrange(0, all[0].1) =~= path.subrange(0, all[0].1));
        }
    }
}

proof fn lemma_stripped_is_trimmed(path: Seq<char>, base: Seq<char>)
    requires
        parts(base).len() > 0,
    ensures
        strip_prefix(path, base) matches Some(rest) ==> is_trimmed(rest),
{
    if let Some(rest) = strip_prefix(path, base) {
        let taken = parts(base).len() as int;
        if taken < parts(path).len() {
            let all = name_spans(path, 0);
            let k = taken - root_parts(path);
            lemma_parts(path);
            lemma_spans_in_bounds(path, 0);
            lemma_spans_of_middle(path, k);
            let start = all[k].0;
            let own = name_spans(rest, 0);
            assert(own.len() == shifted(own, start).len());
            assert(shifted(own, start)[0] == all.skip(k)[0]);
            assert(shifted(own, start)[own.len() - 1] == all.skip(k)[own.len() - 1]);
            if k < all.len() - 1 {
                assert(all[k].1 <= all[all.len() - 1].0);
            }
            assert(rest.subrange(0, own[0].1) =~= path.subrange(all[k].0, all[k].1));
            if rest.subrange(0, own[0].1) == seq!['.'] {
                lemma_dot_is_first(path, 0, k);
            }
        }
    }
}

} // verus!
