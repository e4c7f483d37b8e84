//! What a whole sync amounts to: the tree of the server becomes that of the
//! client.
//!
//! A tree is taken as its manifest would list it, and every step as done.

use vstd::prelude::*;
use crate::client::{leftover, lists_all, needed_step, planned, removal, removals, StepView};
use crate::file_scanner::{manifest_of, normalized, FileInfoView};
use crate::protocol::MessageView;

verus! {

/// Whether a path lies below another.
pub open spec fn is_below(path: Seq<char>, dir: Seq<char>) -> bool {
    if dir.len() == 0 {
        path.len() > 0
    } else {
        dir.push('/').is_prefix_of(path)
    }
}

/// A tree after a step for one of the given files.
pub open spec fn after_step(
    tree: Map<Seq<char>, Option<Seq<char>>>,
    step: StepView,
    files: Seq<FileInfoView>,
) -> Map<Seq<char>, Option<Seq<char>>> {
    match step {
        StepView::CreateDir { path } => tree.insert(path, None),
        StepView::SendFile { index, path } => tree.insert(path, files[index].hash),
    }
}

pub open spec fn after_steps(
    tree: Map<Seq<char>, Option<Seq<char>>>,
    steps: Seq<StepView>,
    files: Seq<FileInfoView>,
) -> Map<Seq<char>, Option<Seq<char>>>
    decreases steps.len(),
{
    if steps.len() == 0 {
        tree
    } else {
        after_step(after_steps(tree, steps.drop_last(), files), steps.last(), files)
    }
}

/// A tree after a removal. Only a file can be deleted, and only a directory
/// can be removed. With a directory goes everything below it.
pub open spec fn after_removal(
    tree: Map<Seq<char>, Option<Seq<char>>>,
    message: MessageView,
) -> Map<Seq<char>, Option<Seq<char>>> {
    match message {
        MessageView::DeleteFile { path } if tree.contains_key(path) && tree[path] is Some => tree.remove(path),
        MessageView::RemoveDir { path } if tree.contains_key(path) && tree[path] is None => tree.remove_keys(
            Set::new(|p: Seq<char>| p == path || is_below(p, path)),
        ),
        _ => tree,
    }
}

pub open spec fn after_removals(
    tree: Map<Seq<char>, Option<Seq<char>>>,
    messages: Seq<MessageView>,
) -> Map<Seq<char>, Option<Seq<char>>>
    decreases messages.len(),
{
    if messages.len() == 0 {
        tree
    } else {
        after_removal(after_removals(tree, messages.drop_last()), messages.last())
    }
}

/// Whether files have hashes and directories have none, as in a scan.
pub open spec fn have_hashes(files: Seq<FileInfoView>) -> bool {
    forall|i: int| 0 <= i < files.len() ==> (#[trigger] files[i]).is_dir == (files[i].hash is None)
}

/// Whether what is a directory on one side is none but a directory on the
/// other, and likewise for files.
pub open spec fn kinds_agree(
    files: Seq<FileInfoView>,
    root: Seq<char>,
    server: Map<Seq<char>, Option<Seq<char>>>,
) -> bool {
    forall|i: int|
        0 <= i < files.len() ==> {
            let path = normalized((#[trigger] files[i]).path, root);
            server.contains_key(path) ==> files[i].is_dir == (server[path] is None)
        }
}

/// Whether the client has every directory of the server that one of its own
/// paths lies below.
pub open spec fn has_parents(
    local: Map<Seq<char>, Option<Seq<char>>>,
    server: Map<Seq<char>, Option<Seq<char>>>,
) -> bool {
    forall|path: Seq<char>, dir: Seq<char>|
        local.contains_key(path) && server.contains_key(dir) && #[trigger] is_below(path, dir)
            ==> local.contains_key(dir)
}

/// The manifest loses exactly the paths of the files.
pub proof fn leftover_is_the_rest(
    files: Seq<FileInfoView>,
    root: Seq<char>,
    server: Map<Seq<char>, Option<Seq<char>>>,
)
    ensures
        leftover(files, root, server) == server.remove_keys(manifest_of(files, root).dom()),
    decreases files.len(),
{
    if files.len() > 0 {
        leftover_is_the_rest(files.drop_last(), root, server);
    }
    assert(leftover(files, root, server) =~= server.remove_keys(manifest_of(files, root).dom()));
}

/// After the steps that were planned, the server has what the client has, and
/// beyond that what it had before.
pub proof fn steps_bring_the_files(
    files: Seq<FileInfoView>,
    root: Seq<char>,
    server: Map<Seq<char>, Option<Seq<char>>>,
)
    requires
        have_hashes(files),
        kinds_agree(files, root, server),
    ensures
        after_steps(server, planned(files, root, server), files) == server.union_prefer_right(
            manifest_of(files, root),
        ),
{
    assert(files.take(files.len() as int) =~= files);
    lemma_steps(files, files, root, server);
}

proof fn lemma_steps(
    files: Seq<FileInfoView>,
    all: Seq<FileInfoView>,
    root: Seq<char>,
    server: Map<Seq<char>, Option<Seq<char>>>,
)
    requires
        files == all.take(files.len() as int),
        files.len() <= all.len(),
        have_hashes(all),
        kinds_agree(all, root, server),
    ensures
        after_steps(server, planned(files, root, server), all) == server.union_prefer_right(manifest_of(files, root)),
    decreases files.len(),
{
    let local = manifest_of(files, root);
    if files.len() == 0 {
        assert(server.union_prefer_right(local) =~= server);
    } else {
        let earlier = files.drop_last();
        let index = earlier.len() as int;
        assert(earlier =~= all.take(index));
        lemma_steps(earlier, all, root, server);
        leftover_is_the_rest(earlier, root, server);
        let file = files.last();
        assert(file == all[index]);
        let path = normalized(file.path, root);
        let left = leftover(earlier, root, server);
        let before = planned(earlier, root, server);
        let steps = planned(files, root, server);
        let tree = after_steps(server, before, all);
        match needed_step(file, index, path, left) {
            Some(step) => {
                assert(steps == before.push(step));
                assert(steps.drop_last() =~= before);
                assert(after_steps(server, steps, all) == after_step(tree, step, all));
                assert(after_step(tree, step, all) == tree.insert(path, file.hash));
            },
            None => {
                assert(steps == before);
                assert(left.contains_key(path));
                assert(tree.contains_key(path) && tree[path] == server[path]);
                assert(server[path] == file.hash);
                assert(tree =~= tree.insert(path, file.hash));
            },
        }
        assert(tree.insert(path, file.hash) =~= server.union_prefer_right(local));
    }
}

/// Removals take away what they name and leave what is kept.
proof fn lemma_removals(
    tree: Map<Seq<char>, Option<Seq<char>>>,
    paths: Seq<Seq<char>>,
    left: Map<Seq<char>, Option<Seq<char>>>,
    local: Map<Seq<char>, Option<Seq<char>>>,
)
    requires
        forall|path: Seq<char>| #[trigger] local.contains_key(path) ==> tree.contains_key(path) && tree[path] == local[path],
        forall|i: int| 0 <= i < paths.len() ==> !local.contains_key(#[trigger] paths[i]),
        forall|i: int|
            0 <= i < paths.len() && tree.contains_key(#[trigger] paths[i]) ==> tree[paths[i]] == left[paths[i]],
        forall|i: int, path: Seq<char>|
            0 <= i < paths.len() && local.contains_key(path) ==> !#[trigger] is_below(path, paths[i]),
    ensures
        ({
            let end = after_removals(tree, removals(paths, left));
            &&& forall|p: Seq<char>| #[trigger] end.contains_key(p) ==> tree.contains_key(p) && end[p] == tree[p]
            &&& forall|p: Seq<char>| #[trigger] local.contains_key(p) ==> end.contains_key(p) && end[p] == local[p]
            &&& forall|i: int| 0 <= i < paths.len() ==> !end.contains_key(#[trigger] paths[i])
        }),
    decreases paths.len(),
{
    if paths.len() > 0 {
        let earlier = paths.drop_last();
        let path = paths[paths.len() - 1];
        assert forall|i: int| 0 <= i < earlier.len() implies #[trigger] earlier[i] == paths[i] by {}
        lemma_removals(tree, earlier, left, local);
        let before = after_removals(tree, removals(earlier, left));
        let end = after_removals(tree, removals(paths, left));
        assert(end == after_removal(before, removal(path, left[path]))) by {
            assert(removals(paths, left).drop_last() =~= removals(earlier, left));
            assert(removals(paths, left).last() == removal(path, left[path]));
        }
        lemma_removal(before, path, left[path]);
        assert forall|i: int| 0 <= i < paths.len() implies !end.contains_key(#[trigger] paths[i]) by {
            if i < earlier.len() {
                assert(!before.contains_key(earlier[i]));
            } else if before.contains_key(path) {
                assert(tree.contains_key(paths[i]));
            }
        }
        assert forall|p: Seq<char>| #[trigger] local.contains_key(p) implies end.contains_key(p) && end[p]
            == local[p] by {
            assert(before.contains_key(p));
            assert(!is_below(p, paths[paths.len() - 1]));
        }
    }
}

/// A removal that goes by the kind of what it names takes that away, and with a
/// directory what lies below it.
proof fn lemma_removal(tree: Map<Seq<char>, Option<Seq<char>>>, path: Seq<char>, hash: Option<Seq<char>>)
    ensures
        ({
            let end = after_removal(tree, removal(path, hash));
            &&& forall|p: Seq<char>| #[trigger] end.contains_key(p) ==> tree.contains_key(p) && end[p] == tree[p]
            &&& tree.contains_key(path) && tree[path] == hash ==> !end.contains_key(path)
            &&& forall|p: Seq<char>| #[trigger]
                tree.contains_key(p) && p != path && !(hash is None && is_below(p, path)) ==> end.contains_key(p)
        }),
{
}

/// A manifest lists the normalized paths of the files and no others, each with
/// the hash of the last file that has it.
pub proof fn manifest_lists_the_files(files: Seq<FileInfoView>, root: Seq<char>)
    ensures
        forall|path: Seq<char>| #[trigger]
            manifest_of(files, root).contains_key(path) <==> exists|i: int|
                0 <= i < files.len() && normalized((#[trigger] files[i]).path, root) == path,
        forall|i: int|
            0 <= i < files.len() && (forall|j: int|
                i < j < files.len() ==> normalized((#[trigger] files[j]).path, root) != normalized(files[i].path, root))
                ==> manifest_of(files, root)[normalized((#[trigger] files[i]).path, root)] == files[i].hash,
{
    assert forall|path: Seq<char>| #[trigger] manifest_of(files, root).contains_key(path) implies exists|i: int|
        0 <= i < files.len() && normalized((#[trigger] files[i]).path, root) == path by {
        let i = lemma_listed_by(files, root, path);
        assert(normalized(files[i].path, root) == path);
    }
    assert forall|i: int| 0 <= i < files.len() implies manifest_of(files, root).contains_key(
        normalized((#[trigger] files[i]).path, root),
    ) by {
        lemma_has_entry(files, root, i);
    }
    assert forall|i: int|
        0 <= i < files.len() && (forall|j: int|
            i < j < files.len() ==> normalized((#[trigger] files[j]).path, root) != normalized(files[i].path, root)) implies manifest_of(
        files,
        root,
    )[normalized((#[trigger] files[i]).path, root)] == files[i].hash by {
        lemma_listed(files, root, i);
    }
}

proof fn lemma_has_entry(files: Seq<FileInfoView>, root: Seq<char>, i: int)
    requires
        0 <= i < files.len(),
    ensures
        manifest_of(files, root).contains_key(normalized(files[i].path, root)),
    decreases files.len(),
{
    if i < files.len() - 1 {
        lemma_has_entry(files.drop_last(), root, i);
    }
}

/// What a server has beyond the files of a client: the paths that it lists and
/// that no file of the client has, as it lists them.
pub proof fn leftover_has_no_file(
    files: Seq<FileInfoView>,
    root: Seq<char>,
    server: Map<Seq<char>, Option<Seq<char>>>,
)
    ensures
        leftover(files, root, server).submap_of(server),
        forall|path: Seq<char>| #[trigger]
            leftover(files, root, server).contains_key(path) <==> server.contains_key(path) && forall|i: int|
                0 <= i < files.len() ==> normalized((#[trigger] files[i]).path, root) != path,
{
    leftover_is_the_rest(files, root, server);
    manifest_lists_the_files(files, root);
}

/// Whether one of the files before a file has the same normalized path.
pub open spec fn comes_again(files: Seq<FileInfoView>, root: Seq<char>, i: int) -> bool {
    exists|j: int| 0 <= j < i && normalized((#[trigger] files[j]).path, root) == normalized(files[i].path, root)
}

/// A plan holds one step for each file and directory that the server lacks, in
/// the order of the scan, and no other step. The server lacks a path that it
/// does not list, or that it lists for a file with another hash. (A path that
/// comes again counts as lacking, for it was struck off the list.) All else is
/// up to date, whatever stands beside it.
pub proof fn plan_is_what_the_server_lacks(
    files: Seq<FileInfoView>,
    root: Seq<char>,
    server: Map<Seq<char>, Option<Seq<char>>>,
) -> (chosen: Seq<int>)
    ensures
        forall|k: int| 0 <= k < chosen.len() ==> 0 <= #[trigger] chosen[k] < files.len(),
        forall|j: int, k: int| 0 <= j < k < chosen.len() ==> #[trigger] chosen[j] < #[trigger] chosen[k],
        forall|i: int|
            #![trigger files[i]]
            0 <= i < files.len() ==> (chosen.contains(i) <==> {
                let path = normalized(files[i].path, root);
                ||| comes_again(files, root, i)
                ||| !server.contains_key(path)
                ||| !files[i].is_dir && server[path] != files[i].hash
            }),
        planned(files, root, server).len() == chosen.len(),
        forall|k: int|
            0 <= k < chosen.len() ==> {
                let file = files[chosen[k]];
                let path = normalized(file.path, root);
                #[trigger] planned(files, root, server)[k] == if file.is_dir {
                    StepView::CreateDir { path }
                } else {
                    StepView::SendFile { index: chosen[k], path }
                }
            },
    decreases files.len(),
{
    if files.len() == 0 {
        Seq::empty()
    } else {
        let earlier = files.drop_last();
        let last = earlier.len() as int;
        let path = normalized(files[last].path, root);
        let before = plan_is_what_the_server_lacks(earlier, root, server);
        let left = leftover(earlier, root, server);
        leftover_has_no_file(earlier, root, server);
        assert(left.contains_key(path) ==> left.dom().contains(path) && left[path] == server[path]);
        assert(comes_again(files, root, last) <==> exists|j: int|
            0 <= j < earlier.len() && normalized((#[trigger] earlier[j]).path, root) == path) by {
            if comes_again(files, root, last) {
                let j = choose|j: int| 0 <= j < last && normalized((#[trigger] files[j]).path, root) == path;
                assert(normalized(earlier[j].path, root) == path);
            }
            if exists|j: int| 0 <= j < earlier.len() && normalized((#[trigger] earlier[j]).path, root) == path {
                let j = choose|j: int| 0 <= j < earlier.len() && normalized((#[trigger] earlier[j]).path, root) == path;
                assert(normalized(files[j].path, root) == path);
            }
        }
        let lacks = comes_again(files, root, last) || !server.contains_key(path) || !files[last].is_dir
            && server[path] != files[last].hash;
        let chosen = if lacks {
            before.push(last)
        } else {
            before
        };
        assert(needed_step(files[last], last, path, left) is Some == lacks);
        assert forall|i: int|
            #![trigger files[i]]
            0 <= i < files.len() implies (chosen.contains(i) <==> {
            let path = normalized(files[i].path, root);
            ||| comes_again(files, root, i)
            ||| !server.contains_key(path)
            ||| !files[i].is_dir && server[path] != files[i].hash
        }) by {
            if i < last {
                assert(earlier[i] == files[i]);
                assert(comes_again(files, root, i) == comes_again(earlier, root, i)) by {
                    assert forall|j: int| 0 <= j < i implies #[trigger] earlier[j] == files[j] by {}
                    if comes_again(files, root, i) {
                        let j = choose|j: int|
                            0 <= j < i && normalized((#[trigger] files[j]).path, root) == normalized(
                                files[i].path,
                                root,
                            );
                        assert(earlier[j] == files[j]);
                    }
                }
                assert(chosen.contains(i) == before.contains(i)) by {
                    if before.contains(i) {
                        let k = before.index_of(i);
                        assert(chosen[k] == i);
                    }
                    if chosen.contains(i) {
                        let k = chosen.index_of(i);
                        assert(before[k] == i);
                    }
                }
            } else {
                if lacks {
                    assert(chosen[before.len() as int] == last);
                } else if chosen.contains(last) {
                    let k = chosen.index_of(last);
                    assert(before[k] < earlier.len());
                }
            }
        }
        assert forall|k: int| 0 <= k < chosen.len() implies {
            let file = files[chosen[k]];
            let path = normalized(file.path, root);
            #[trigger] planned(files, root, server)[k] == if file.is_dir {
                StepView::CreateDir { path }
            } else {
                StepView::SendFile { index: chosen[k], path }
            }
        } by {
            if k < before.len() {
                assert(planned(files, root, server)[k] == planned(earlier, root, server)[k]);
                assert(earlier[before[k]] == files[chosen[k]]);
            }
        }
        chosen
    }
}

/// A file that the server lists with the same hash, and a directory that it
/// lists, is left alone whatever else there is to do: if no other file has its
/// path, the plan holds no step for that path.
pub proof fn what_is_up_to_date_is_left_alone(
    files: Seq<FileInfoView>,
    root: Seq<char>,
    server: Map<Seq<char>, Option<Seq<char>>>,
    i: int,
)
    requires
        0 <= i < files.len(),
        server.contains_key(normalized(files[i].path, root)),
        files[i].is_dir || server[normalized(files[i].path, root)] == files[i].hash,
        forall|j: int|
            0 <= j < files.len() && j != i ==> normalized((#[trigger] files[j]).path, root) != normalized(
                files[i].path,
                root,
            ),
    ensures
        forall|k: int|
            0 <= k < planned(files, root, server).len() ==> match #[trigger] planned(files, root, server)[k] {
                StepView::CreateDir { path } => path != normalized(files[i].path, root),
                StepView::SendFile { index, path } => index != i && path != normalized(files[i].path, root),
            },
{
    let chosen = plan_is_what_the_server_lacks(files, root, server);
    assert(!comes_again(files, root, i));
    assert(!chosen.contains(i));
    assert forall|k: int| 0 <= k < planned(files, root, server).len() implies match #[trigger] planned(
        files,
        root,
        server,
    )[k] {
        StepView::CreateDir { path } => path != normalized(files[i].path, root),
        StepView::SendFile { index, path } => index != i && path != normalized(files[i].path, root),
    } by {
        assert(chosen.contains(chosen[k]));
        assert(chosen[k] != i);
        assert(normalized(files[chosen[k]].path, root) != normalized(files[i].path, root));
    }
}

/// Every path that is left over with a hash, which is that of a file, is
/// deleted as a file, and every other is removed as a directory. Each path is
/// removed once.
pub proof fn removals_go_by_kind(paths: Seq<Seq<char>>, left: Map<Seq<char>, Option<Seq<char>>>)
    requires
        lists_all(paths, left),
    ensures
        removals(paths, left).len() == paths.len(),
        forall|k: int|
            0 <= k < paths.len() ==> match #[trigger] removals(paths, left)[k] {
                MessageView::DeleteFile { path } => left.contains_key(path) && left[path] is Some,
                MessageView::RemoveDir { path } => left.contains_key(path) && left[path] is None,
                _ => false,
            },
        forall|j: int, k: int|
            0 <= j < k < paths.len() ==> #[trigger] removals(paths, left)[j] != #[trigger] removals(paths, left)[k],
        forall|path: Seq<char>| #[trigger]
            left.contains_key(path) ==> if left[path] is Some {
                removals(paths, left).contains(MessageView::DeleteFile { path })
            } else {
                removals(paths, left).contains(MessageView::RemoveDir { path })
            },
{
    let all = removals(paths, left);
    assert forall|k: int| 0 <= k < paths.len() implies match #[trigger] all[k] {
        MessageView::DeleteFile { path } => left.contains_key(path) && left[path] is Some,
        MessageView::RemoveDir { path } => left.contains_key(path) && left[path] is None,
        _ => false,
    } by {
        assert(paths.contains(paths[k]));
    }
    assert forall|j: int, k: int| 0 <= j < k < paths.len() implies #[trigger] all[j] != #[trigger] all[k] by {
        assert(paths[j] != paths[k]);
    }
    assert forall|path: Seq<char>| #[trigger] left.contains_key(path) implies if left[path] is Some {
        all.contains(MessageView::DeleteFile { path })
    } else {
        all.contains(MessageView::RemoveDir { path })
    } by {
        assert(paths.contains(path));
        let k = paths.index_of(path);
        assert(paths[k] == path);
        assert(all[k] == if left[path] is Some {
            MessageView::DeleteFile { path }
        } else {
            MessageView::RemoveDir { path }
        });
    }
}

/// Removals act on each path as what it is: a tree loses each path that is left
/// over, be it a file or a directory, and of the others only what lies below a
/// directory that goes.
pub proof fn removals_take_effect(
    tree: Map<Seq<char>, Option<Seq<char>>>,
    paths: Seq<Seq<char>>,
    left: Map<Seq<char>, Option<Seq<char>>>,
)
    requires
        lists_all(paths, left),
        left.submap_of(tree),
    ensures
        forall|path: Seq<char>| #[trigger]
            left.contains_key(path) ==> !after_removals(tree, removals(paths, left)).contains_key(path),
        forall|path: Seq<char>| #[trigger]
            tree.contains_key(path) && !left.contains_key(path) && (forall|dir: Seq<char>|
                left.contains_key(dir) && left[dir] is None ==> !#[trigger] is_below(path, dir))
                ==> after_removals(tree, removals(paths, left)).contains_key(path),
        after_removals(tree, removals(paths, left)).submap_of(tree),
{
    let kept = tree.restrict(
        Set::new(
            |path: Seq<char>|
                tree.contains_key(path) && !left.contains_key(path) && (forall|dir: Seq<char>|
                    left.contains_key(dir) ==> !#[trigger] is_below(path, dir)),
        ),
    );
    assert forall|i: int| 0 <= i < paths.len() implies left.contains_key(#[trigger] paths[i]) by {
        assert(paths.contains(paths[i]));
    }
    assert forall|i: int| 0 <= i < paths.len() && tree.contains_key(#[trigger] paths[i]) implies tree[paths[i]]
        == left[paths[i]] by {
        assert(left.contains_key(paths[i]));
        assert(left.dom().contains(paths[i]));
    }
    lemma_removals(tree, paths, left, kept);
    lemma_files_take_nothing_along(tree, paths, left);
    let end = after_removals(tree, removals(paths, left));
    assert forall|path: Seq<char>| #[trigger] left.contains_key(path) implies !end.contains_key(path) by {
        assert(paths.contains(path));
        let i = paths.index_of(path);
        assert(!end.contains_key(paths[i]));
    }
}

/// What lies below no directory that goes stays.
proof fn lemma_files_take_nothing_along(
    tree: Map<Seq<char>, Option<Seq<char>>>,
    paths: Seq<Seq<char>>,
    left: Map<Seq<char>, Option<Seq<char>>>,
)
    requires
        forall|i: int| 0 <= i < paths.len() ==> left.contains_key(#[trigger] paths[i]),
    ensures
        forall|path: Seq<char>| #[trigger]
            tree.contains_key(path) && !left.contains_key(path) && (forall|dir: Seq<char>|
                left.contains_key(dir) && left[dir] is None ==> !#[trigger] is_below(path, dir))
                ==> after_removals(tree, removals(paths, left)).contains_key(path),
    decreases paths.len(),
{
    if paths.len() > 0 {
        let earlier = paths.drop_last();
        assert forall|i: int| 0 <= i < earlier.len() implies left.contains_key(#[trigger] earlier[i]) by {
            assert(earlier[i] == paths[i]);
        }
        lemma_files_take_nothing_along(tree, earlier, left);
        assert(removals(paths, left).drop_last() =~= removals(earlier, left));
        assert(left.contains_key(paths[paths.len() - 1]));
    }
}

/// A sync makes the tree of the server that of the client, whatever the order
/// of the removals: all that the client has is there, with the same hashes,
/// and nothing else is.
///
/// This holds where no path is a file on one side and a directory on the
/// other. There the client sends no `CreateDir` for a path that is listed as a
/// file, and no file can be created in the place of a directory.
pub proof fn sync_converges(
    files: Seq<FileInfoView>,
    root: Seq<char>,
    server: Map<Seq<char>, Option<Seq<char>>>,
    paths: Seq<Seq<char>>,
)
    requires
        have_hashes(files),
        kinds_agree(files, root, server),
        has_parents(manifest_of(files, root), server),
        lists_all(paths, leftover(files, root, server)),
    ensures
        after_removals(
            after_steps(server, planned(files, root, server), files),
            removals(paths, leftover(files, root, server)),
        ) == manifest_of(files, root),
{
    let local = manifest_of(files, root);
    let left = leftover(files, root, server);
    steps_bring_the_files(files, root, server);
    leftover_is_the_rest(files, root, server);
    let tree = after_steps(server, planned(files, root, server), files);
    assert forall|i: int| 0 <= i < paths.len() implies !local.contains_key(#[trigger] paths[i])
        && server.contains_key(paths[i]) by {
        assert(paths.contains(paths[i]));
    }
    assert forall|i: int| 0 <= i < paths.len() && tree.contains_key(#[trigger] paths[i]) implies tree[paths[i]]
        == left[paths[i]] by {
        assert(!local.contains_key(paths[i]));
    }
    lemma_removals(tree, paths, left, local);
    let end = after_removals(tree, removals(paths, left));
    assert forall|path: Seq<char>| #[trigger] end.contains_key(path) implies local.contains_key(path) by {
        if !local.contains_key(path) {
            assert(tree.contains_key(path));
            assert(left.contains_key(path));
            assert(paths.contains(path));
            let i = choose|i: int| 0 <= i < paths.len() && paths[i] == path;
            assert(!end.contains_key(paths[i]));
        }
    }
    assert(end =~= local);
}

/// Once the trees are the same there is nothing to do: no step, and nothing to
/// remove. Two files must not share a normalized path, since the second would
/// be sent again.
pub proof fn synced_trees_need_nothing(files: Seq<FileInfoView>, root: Seq<char>)
    requires
        forall|i: int, j: int|
            0 <= i < j < files.len() ==> normalized((#[trigger] files[i]).path, root) != normalized(
                (#[trigger] files[j]).path,
                root,
            ),
    ensures
        planned(files, root, manifest_of(files, root)).len() == 0,
        leftover(files, root, manifest_of(files, root)) == Map::<Seq<char>, Option<Seq<char>>>::empty(),
{
    let server = manifest_of(files, root);
    leftover_is_the_rest(files, root, server);
    assert(server.remove_keys(server.dom()) =~= Map::empty());
    assert forall|i: int| 0 <= i < files.len() implies {
        let path = normalized((#[trigger] files[i]).path, root);
        server.contains_key(path) && server[path] == files[i].hash
    } by {
        lemma_listed(files, root, i);
    }
    assert(files.take(files.len() as int) =~= files);
    lemma_nothing_planned(files, files, root, server);
}

/// A file whose normalized path no later file has is listed with its hash.
proof fn lemma_listed(files: Seq<FileInfoView>, root: Seq<char>, i: int)
    requires
        0 <= i < files.len(),
        forall|j: int|
            i < j < files.len() ==> normalized(files[i].path, root) != normalized((#[trigger] files[j]).path, root),
    ensures
        manifest_of(files, root).contains_key(normalized(files[i].path, root)),
        manifest_of(files, root)[normalized(files[i].path, root)] == files[i].hash,
    decreases files.len(),
{
    if i < files.len() - 1 {
        let earlier = files.drop_last();
        assert forall|j: int| i < j < earlier.len() implies normalized(earlier[i].path, root) != normalized(
            (#[trigger] earlier[j]).path,
            root,
        ) by {
            assert(earlier[j] == files[j]);
        }
        lemma_listed(earlier, root, i);
        assert(normalized(files[i].path, root) != normalized(files[files.len() - 1].path, root));
    }
}

proof fn lemma_nothing_planned(
    files: Seq<FileInfoView>,
    all: Seq<FileInfoView>,
    root: Seq<char>,
    server: Map<Seq<char>, Option<Seq<char>>>,
)
    requires
        files.len() <= all.len(),
        files == all.take(files.len() as int),
        forall|i: int|
            0 <= i < all.len() ==> {
                let path = normalized((#[trigger] all[i]).path, root);
                server.contains_key(path) && server[path] == all[i].hash
            },
        forall|i: int, j: int|
            0 <= i < j < all.len() ==> normalized((#[trigger] all[i]).path, root) != normalized(
                (#[trigger] all[j]).path,
                root,
            ),
    ensures
        planned(files, root, server).len() == 0,
    decreases files.len(),
{
    if files.len() > 0 {
        let earlier = files.drop_last();
        let last = earlier.len() as int;
        assert(earlier =~= all.take(last));
        lemma_nothing_planned(earlier, all, root, server);
        leftover_is_the_rest(earlier, root, server);
        let path = normalized(all[last].path, root);
        if manifest_of(earlier, root).contains_key(path) {
            let i = lemma_listed_by(earlier, root, path);
            assert(earlier[i] == all[i]);
            assert(normalized(all[i].path, root) != normalized(all[last].path, root));
        }
    }
}

/// Every path of a manifest is that of some file.
proof fn lemma_listed_by(files: Seq<FileInfoView>, root: Seq<char>, path: Seq<char>) -> (i: int)
    requires
        manifest_of(files, root).contains_key(path),
    ensures
        0 <= i < files.len(),
        normalized(files[i].path, root) == path,
    decreases files.len(),
{
    if normalized(files.last().path, root) == path {
        files.len() - 1
    } else {
        lemma_listed_by(files.drop_last(), root, path)
    }
}

} // verus!
