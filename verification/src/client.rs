//! The client's side: what to send so that the server has the same tree.

use vstd::prelude::*;
use crate::convergence::{comes_again, leftover_has_no_file, plan_is_what_the_server_lacks};
use crate::file_scanner::{file_views, normalize_path, normalized, FileInfo, FileInfoView};
use crate::manifest::{text_of, Manifest};
use crate::protocol::{message_views, MessageView, SyncMessage};

verus! {

/// What a server has, as far as its reply tells: `None` is a reply that is no
/// message, and any message but a manifest counts for nothing.
pub fn server_manifest(reply: Option<SyncMessage>) -> (manifest: Manifest)
    ensures
        match reply {
            Some(SyncMessage::Manifest(listed)) => manifest@ == listed@,
            _ => manifest@ == Map::<Seq<char>, Option<Seq<char>>>::empty(),
        },
{
    match reply {
        Some(SyncMessage::Manifest(listed)) => listed,
        _ => Manifest::new(),
    }
}

/// Something that the server lacks.
#[derive(Debug)]
pub enum SyncStep {
    CreateDir { path: String },
    /// The content of the file at this position of the scan.
    SendFile { index: usize, path: String },
}

/// What a [`SyncStep`] says.
pub enum StepView {
    CreateDir { path: Seq<char> },
    SendFile { index: int, path: Seq<char> },
}

impl View for SyncStep {
    type V = StepView;

    open spec fn view(&self) -> StepView {
        match *self {
            SyncStep::CreateDir { path } => StepView::CreateDir { path: path@ },
            SyncStep::SendFile { index, path } => StepView::SendFile { index: index as int, path: path@ },
        }
    }
}

pub open spec fn step_views(steps: Seq<SyncStep>) -> Seq<StepView> {
    steps.map_values(|step: SyncStep| step@)
}

/// What is left of a manifest once the given files are struck off.
pub open spec fn leftover(
    files: Seq<FileInfoView>,
    root: Seq<char>,
    server: Map<Seq<char>, Option<Seq<char>>>,
) -> Map<Seq<char>, Option<Seq<char>>>
    decreases files.len(),
{
    if files.len() == 0 {
        server
    } else {
        leftover(files.drop_last(), root, server).remove(normalized(files.last().path, root))
    }
}

/// What has to be done for one file or directory, if anything: a directory is
/// created unless the path is listed, and a file is sent unless the path is
/// listed with the same hash.
pub open spec fn needed_step(
    file: FileInfoView,
    index: int,
    path: Seq<char>,
    listed: Map<Seq<char>, Option<Seq<char>>>,
) -> Option<StepView> {
    if file.is_dir {
        if listed.contains_key(path) {
            None
        } else {
            Some(StepView::CreateDir { path })
        }
    } else {
        if listed.contains_key(path) && listed[path] == file.hash {
            None
        } else {
            Some(StepView::SendFile { index, path })
        }
    }
}

/// All that has to be done for the given files, in their order. A path counts
/// as listed only for the first file that has it.
pub open spec fn planned(
    files: Seq<FileInfoView>,
    root: Seq<char>,
    server: Map<Seq<char>, Option<Seq<char>>>,
) -> Seq<StepView>
    decreases files.len(),
{
    if files.len() == 0 {
        Seq::empty()
    } else {
        let earlier = files.drop_last();
        let before = planned(earlier, root, server);
        let path = normalized(files.last().path, root);
        match needed_step(files.last(), earlier.len() as int, path, leftover(earlier, root, server)) {
            Some(step) => before.push(step),
            None => before,
        }
    }
}

fn same_hash(a: &Option<String>, b: &Option<String>) -> (same: bool)
    ensures
        same == (text_of(*a) == text_of(*b)),
{
    match (a, b) {
        (Some(a), Some(b)) => *a == *b,
        (None, None) => true,
        _ => false,
    }
}

/// Compares the files of a scan of `root` with what the server has: what has
/// to be done for them, and what the server has beyond them.
pub fn plan_sync(files: &Vec<FileInfo>, root: &str, server: Manifest) -> (plan: (Vec<SyncStep>, Manifest))
    ensures
        step_views(plan.0@) == planned(file_views(files@), root@, server@),
        plan.1@ == leftover(file_views(files@), root@, server@),
        // The steps come in the order of the files.
        forall|j: int, k: int|
            0 <= j < k < plan.0@.len() ==> match (#[trigger] plan.0@[j], #[trigger] plan.0@[k]) {
                (SyncStep::SendFile { index: earlier, .. }, SyncStep::SendFile { index: later, .. }) => earlier < later,
                _ => true,
            },
        // No step is for something that is up to date.
        forall|k: int|
            0 <= k < plan.0@.len() ==> match #[trigger] plan.0@[k] {
                SyncStep::CreateDir { path } => exists|i: int|
                    0 <= i < files@.len() && (#[trigger] files@[i]).is_dir && path@ == normalized(
                        files@[i].path@,
                        root@,
                    ) && (!server@.contains_key(path@) || has_earlier(files@, root@, i)),
                SyncStep::SendFile { index, path } => {
                    &&& index < files@.len() && !files@[index as int].is_dir
                    &&& path@ == normalized(files@[index as int].path@, root@)
                    &&& !server@.contains_key(path@) || server@[path@] != text_of(files@[index as int].hash)
                        || has_earlier(files@, root@, index as int)
                },
            },
        // What is lacking has a step.
        forall|i: int|
            0 <= i < files@.len() ==> {
                let path = normalized((#[trigger] files@[i]).path@, root@);
                if files@[i].is_dir {
                    !server@.contains_key(path) ==> exists|k: int|
                        0 <= k < plan.0@.len() && (#[trigger] plan.0@[k] matches SyncStep::CreateDir { path: own }
                            && own@ == path)
                } else {
                    !server@.contains_key(path) || server@[path] != text_of(files@[i].hash) ==> exists|k: int|
                        0 <= k < plan.0@.len() && (#[trigger] plan.0@[k] matches SyncStep::SendFile { index, path: own }
                            && index == i && own@ == path)
                }
            },
        // What no file has is left over as it was listed.
        forall|path: Seq<char>| #[trigger]
            plan.1@.contains_key(path) <==> server@.contains_key(path) && forall|i: int|
                0 <= i < files@.len() ==> normalized((#[trigger] files@[i]).path@, root@) != path,
        forall|path: Seq<char>| #[trigger] plan.1@.contains_key(path) ==> plan.1@[path] == server@[path],
{
    let ghost listed = server@;
    let plan = compare(files, root, server);
    proof {
        lemma_plan_by_files(files@, root@, listed, plan.0@);
        lemma_left_by_files(files@, root@, listed);
    }
    plan
}

/// The comparison, file by file.
fn compare(files: &Vec<FileInfo>, root: &str, server: Manifest) -> (plan: (Vec<SyncStep>, Manifest))
    ensures
        step_views(plan.0@) == planned(file_views(files@), root@, server@),
        plan.1@ == leftover(file_views(files@), root@, server@),
{
    let mut steps: Vec<SyncStep> = Vec::new();
    let mut listed = server;
    let ghost views = file_views(files@);
    assert(step_views(steps@) =~= Seq::empty());
    let mut index: usize = 0;
    while index < files.len()
        invariant
            0 <= index <= files@.len(),
            views == file_views(files@),
            step_views(steps@) == planned(views.take(index as int), root@, server@),
            listed@ == leftover(views.take(index as int), root@, server@),
        decreases files@.len() - index,
    {
        let ghost seen = views.take(index + 1);
        assert(seen.drop_last() =~= views.take(index as int));
        let ghost before = steps@;
        let file = &files[index];
        let path = normalize_path(file.path.as_str(), root);
        let up_to_date = match listed.get(path.as_str()) {
            Some(hash) => file.is_dir || same_hash(hash, &file.hash),
            None => false,
        };
        listed.remove(path.as_str());
        if !up_to_date {
            let step = if file.is_dir {
                SyncStep::CreateDir { path }
            } else {
                SyncStep::SendFile { index, path }
            };
            steps.push(step);
            assert(step_views(steps@) =~= step_views(before).push(step@));
        }
        index += 1;
    }
    assert(views.take(views.len() as int) =~= views);
    (steps, listed)
}

/// Whether one of the files before a file has the same normalized path.
pub open spec fn has_earlier(files: Seq<FileInfo>, root: Seq<char>, i: int) -> bool {
    exists|j: int| 0 <= j < i && normalized((#[trigger] files[j]).path@, root) == normalized(files[i].path@, root)
}

/// What is left over, said of the files themselves.
proof fn lemma_left_by_files(files: Seq<FileInfo>, root: Seq<char>, server: Map<Seq<char>, Option<Seq<char>>>)
    ensures
        ({
            let left = leftover(file_views(files), root, server);
            &&& forall|path: Seq<char>| #[trigger]
                left.contains_key(path) <==> server.contains_key(path) && forall|i: int|
                    0 <= i < files.len() ==> normalized((#[trigger] files[i]).path@, root) != path
            &&& forall|path: Seq<char>| #[trigger] left.contains_key(path) ==> left[path] == server[path]
        }),
{
    let views = file_views(files);
    let left = leftover(views, root, server);
    leftover_has_no_file(views, root, server);
    assert forall|path: Seq<char>| #[trigger] left.contains_key(path) <==> server.contains_key(path) && forall|i: int|
        0 <= i < files.len() ==> normalized((#[trigger] files[i]).path@, root) != path by {
        if left.contains_key(path) {
            assert forall|i: int| 0 <= i < files.len() implies normalized((#[trigger] files[i]).path@, root)
                != path by {
                assert(normalized(views[i].path, root) != path);
            }
        } else if server.contains_key(path) {
            let i = choose|i: int| 0 <= i < views.len() && normalized((#[trigger] views[i]).path, root) == path;
            assert(normalized(files[i].path@, root) == path);
        }
    }
    assert forall|path: Seq<char>| #[trigger] left.contains_key(path) implies left[path] == server[path] by {
        assert(left.dom().contains(path));
    }
}

/// A plan, said of the files and the steps themselves.
proof fn lemma_plan_by_files(
    files: Seq<FileInfo>,
    root: Seq<char>,
    server: Map<Seq<char>, Option<Seq<char>>>,
    steps: Seq<SyncStep>,
)
    requires
        step_views(steps) == planned(file_views(files), root, server),
    ensures
        forall|j: int, k: int|
            0 <= j < k < steps.len() ==> match (#[trigger] steps[j], #[trigger] steps[k]) {
                (SyncStep::SendFile { index: earlier, .. }, SyncStep::SendFile { index: later, .. }) => earlier < later,
                _ => true,
            },
        forall|k: int|
            0 <= k < steps.len() ==> match #[trigger] steps[k] {
                SyncStep::CreateDir { path } => exists|i: int|
                    0 <= i < files.len() && (#[trigger] files[i]).is_dir && path@ == normalized(files[i].path@, root)
                        && (!server.contains_key(path@) || has_earlier(files, root, i)),
                SyncStep::SendFile { index, path } => {
                    &&& index < files.len() && !files[index as int].is_dir
                    &&& path@ == normalized(files[index as int].path@, root)
                    &&& !server.contains_key(path@) || server[path@] != text_of(files[index as int].hash)
                        || has_earlier(files, root, index as int)
                },
            },
        forall|i: int|
            0 <= i < files.len() ==> {
                let path = normalized((#[trigger] files[i]).path@, root);
                if files[i].is_dir {
                    !server.contains_key(path) ==> exists|k: int|
                        0 <= k < steps.len() && (#[trigger] steps[k] matches SyncStep::CreateDir { path: own } && own@
                            == path)
                } else {
                    !server.contains_key(path) || server[path] != text_of(files[i].hash) ==> exists|k: int|
                        0 <= k < steps.len() && (#[trigger] steps[k] matches SyncStep::SendFile { index, path: own }
                            && index == i && own@ == path)
                }
            },
{
    let views = file_views(files);
    let chosen = plan_is_what_the_server_lacks(views, root, server);
    assert(steps.len() == step_views(steps).len());
    assert forall|j: int, k: int| 0 <= j < k < steps.len() implies match (#[trigger] steps[j], #[trigger] steps[k]) {
        (SyncStep::SendFile { index: earlier, .. }, SyncStep::SendFile { index: later, .. }) => earlier < later,
        _ => true,
    } by {
        assert(step_views(steps)[j] == steps[j]@ && step_views(steps)[k] == steps[k]@);
        assert(chosen[j] < chosen[k]);
    }
    assert forall|i: int| 0 <= i < files.len() implies comes_again(views, root, i) == #[trigger] has_earlier(
        files,
        root,
        i,
    ) by {
        if comes_again(views, root, i) {
            let j = choose|j: int|
                0 <= j < i && normalized((#[trigger] views[j]).path, root) == normalized(views[i].path, root);
            assert(normalized(files[j].path@, root) == normalized(files[i].path@, root));
        }
        if has_earlier(files, root, i) {
            let j = choose|j: int|
                0 <= j < i && normalized((#[trigger] files[j]).path@, root) == normalized(files[i].path@, root);
            assert(normalized(views[j].path, root) == normalized(views[i].path, root));
        }
    }
    assert forall|k: int| 0 <= k < steps.len() implies match #[trigger] steps[k] {
        SyncStep::CreateDir { path } => exists|i: int|
            0 <= i < files.len() && (#[trigger] files[i]).is_dir && path@ == normalized(files[i].path@, root) && (
            !server.contains_key(path@) || has_earlier(files, root, i)),
        SyncStep::SendFile { index, path } => {
            &&& index < files.len() && !files[index as int].is_dir
            &&& path@ == normalized(files[index as int].path@, root)
            &&& !server.contains_key(path@) || server[path@] != text_of(files[index as int].hash) || has_earlier(
                files,
                root,
                index as int,
            )
        },
    } by {
        let i = chosen[k];
        assert(step_views(steps)[k] == steps[k]@);
        assert(chosen.contains(i));
        assert(views[i] == files[i]@);
        assert(comes_again(views, root, i) == has_earlier(files, root, i));
    }
    assert forall|i: int| 0 <= i < files.len() implies {
        let path = normalized((#[trigger] files[i]).path@, root);
        if files[i].is_dir {
            !server.contains_key(path) ==> exists|k: int|
                0 <= k < steps.len() && (#[trigger] steps[k] matches SyncStep::CreateDir { path: own } && own@ == path)
        } else {
            !server.contains_key(path) || server[path] != text_of(files[i].hash) ==> exists|k: int|
                0 <= k < steps.len() && (#[trigger] steps[k] matches SyncStep::SendFile { index, path: own } && index
                    == i && own@ == path)
        }
    } by {
        assert(views[i] == files[i]@);
        if chosen.contains(i) {
            let k = chosen.index_of(i);
            assert(step_views(steps)[k] == steps[k]@);
        }
    }
}

/// The messages that go before the content of a file. The server pairs the
/// second with the first.
pub fn announce(file: &FileInfo, path: String) -> (messages: Vec<SyncMessage>)
    ensures
        message_views(messages@) == seq![MessageView::FileInfo(file@), MessageView::FileContentStream { path: path@ }],
        messages@.len() == 2,
        messages@[0] matches SyncMessage::FileInfo(info) && info.path@ == file.path@ && info.size == file.size
            && info.is_dir == file.is_dir && (match (info.hash, file.hash) {
            (Some(told), Some(own)) => told@ == own@,
            (None, None) => true,
            _ => false,
        }),
        messages@[1] matches SyncMessage::FileContentStream { path: told } && told@ == path@,
{
    let mut messages: Vec<SyncMessage> = Vec::new();
    messages.push(SyncMessage::FileInfo(file.clone()));
    messages.push(SyncMessage::FileContentStream { path });
    assert(message_views(messages@) =~= seq![
        MessageView::FileInfo(file@),
        MessageView::FileContentStream { path: path@ },
    ]);
    messages
}

/// The message that has the server remove what it lists under a path.
pub open spec fn removal(path: Seq<char>, hash: Option<Seq<char>>) -> MessageView {
    match hash {
        Some(_) => MessageView::DeleteFile { path },
        None => MessageView::RemoveDir { path },
    }
}

/// Whether the paths are those of the manifest, each once.
pub open spec fn lists_all(paths: Seq<Seq<char>>, manifest: Map<Seq<char>, Option<Seq<char>>>) -> bool {
    &&& paths.no_duplicates()
    &&& forall|path: Seq<char>| #[trigger] paths.contains(path) <==> manifest.contains_key(path)
}

/// The removal of all the given paths of a manifest.
pub open spec fn removals(paths: Seq<Seq<char>>, manifest: Map<Seq<char>, Option<Seq<char>>>) -> Seq<MessageView> {
    paths.map_values(|path: Seq<char>| removal(path, manifest[path]))
}

/// The last messages of a session: everything is removed that the server has
/// beyond the files of the client, in no particular order, and then the sync
/// is complete.
pub fn closing_messages(left: Manifest) -> (messages: Vec<SyncMessage>)
    ensures
        exists|paths: Seq<Seq<char>>| #[trigger]
            lists_all(paths, left@) && message_views(messages@) == removals(paths, left@).push(
                MessageView::SyncComplete,
            ),
        messages@.len() > 0,
        messages@.last() is SyncComplete,
        // Files are deleted, and directories are removed.
        forall|k: int|
            0 <= k < messages@.len() - 1 ==> match #[trigger] messages@[k] {
                SyncMessage::DeleteFile { path } => left@.contains_key(path@) && left@[path@] is Some,
                SyncMessage::RemoveDir { path } => left@.contains_key(path@) && left@[path@] is None,
                _ => false,
            },
        // Nothing is passed over, and nothing comes twice.
        forall|path: Seq<char>| #[trigger]
            left@.contains_key(path) ==> exists|k: int|
                0 <= k < messages@.len() - 1 && match #[trigger] messages@[k] {
                    SyncMessage::DeleteFile { path: own } => own@ == path,
                    SyncMessage::RemoveDir { path: own } => own@ == path,
                    _ => false,
                },
        forall|j: int, k: int|
            0 <= j < k < messages@.len() - 1 ==> (#[trigger] messages@[j])@ != (#[trigger] messages@[k])@,
{
    let ghost manifest = left@;
    let entries = left.into_entries();
    let ghost paths = Seq::new(entries@.len(), |i: int| entries@[i].path@);
    let mut messages: Vec<SyncMessage> = Vec::new();
    assert(message_views(messages@) =~= removals(paths.take(0), manifest));
    for entry in it: entries
        invariant
            it.seq() == entries@,
            paths == Seq::new(entries@.len(), |i: int| entries@[i].path@),
            forall|i: int|
                0 <= i < entries@.len() ==> manifest[(#[trigger] entries@[i]).path@] == text_of(entries@[i].hash),
            message_views(messages@) == removals(paths.take(it.index() as int), manifest),
            messages@.len() == it.index(),
            forall|k: int|
                0 <= k < messages@.len() ==> match #[trigger] messages@[k] {
                    SyncMessage::DeleteFile { path } => path@ == entries@[k].path@ && entries@[k].hash is Some,
                    SyncMessage::RemoveDir { path } => path@ == entries@[k].path@ && entries@[k].hash is None,
                    _ => false,
                },
    {
        let ghost before = messages@;
        let ghost at = it.index() as int;
        assert(entry == entries@[at]);
        let message = match entry.hash {
            Some(_) => SyncMessage::DeleteFile { path: entry.path },
            None => SyncMessage::RemoveDir { path: entry.path },
        };
        messages.push(message);
        assert(message_views(messages@) =~= message_views(before).push(message@));
        assert(paths.take(at + 1) =~= paths.take(at).push(paths[at]));
        assert(removals(paths.take(at + 1), manifest) =~= removals(paths.take(at), manifest).push(
            removal(paths[at], manifest[paths[at]]),
        ));
    }
    assert(paths.take(paths.len() as int) =~= paths);
    let ghost before = messages@;
    messages.push(SyncMessage::SyncComplete);
    proof {
        assert(message_views(messages@) =~= message_views(before).push(MessageView::SyncComplete));
        assert forall|path: Seq<char>| #[trigger] paths.contains(path) <==> manifest.contains_key(path) by {
            if manifest.contains_key(path) {
                let i = choose|i: int| 0 <= i < entries@.len() && (#[trigger] entries@[i]).path@ == path;
                assert(paths[i] == path);
            }
        }
        assert(lists_all(paths, manifest));
        assert forall|path: Seq<char>| #[trigger] manifest.contains_key(path) implies exists|k: int|
            0 <= k < messages@.len() - 1 && match #[trigger] messages@[k] {
                SyncMessage::DeleteFile { path: own } => own@ == path,
                SyncMessage::RemoveDir { path: own } => own@ == path,
                _ => false,
            } by {
            let k = choose|k: int| 0 <= k < entries@.len() && (#[trigger] entries@[k]).path@ == path;
            assert(messages@[k] == before[k]);
        }
        assert forall|j: int, k: int| 0 <= j < k < messages@.len() - 1 implies (#[trigger] messages@[j])@ != (
        #[trigger] messages@[k])@ by {
            assert(entries@[j].path@ != entries@[k].path@);
            assert(messages@[j] == before[j] && messages@[k] == before[k]);
        }
    }
    messages
}

} // verus!
