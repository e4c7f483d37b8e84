//! Where things happen on a server: at the place that a message names, and
//! nowhere else.

use vstd::prelude::*;
use crate::digest::content_hash;
use crate::file_scanner::{is_skipped, manifest_of, normalized, scanned_files, WalkedEntry, RECEIVED_FILES};
use crate::listing::{is_listable, is_walk, received_files_are_listed_as_sent, saved_file_is_listed};
use crate::network::{is_in_received_files, place_of, places_are_in_received_files, places_by_text, ActionView,
    SessionStats, SessionView};
use crate::path_laws::{joined_parts, steps};
use crate::paths::{is_absolute, is_contained, lemma_parts, parts};
use crate::protocol::MessageView;
use crate::receiver::{kept_files_are_verified, reception, FileOutcome, Reception, ReceiverView};

verus! {

/// Whether a place is that of a path among the received files: it is reached
/// from their directory by exactly the steps of the path, and what lies there
/// is listed under that path.
pub open spec fn is_place_for(place: Seq<char>, path: Seq<char>) -> bool {
    &&& parts(place) == parts("received_files"@) + steps(path)
    &&& is_in_received_files(place)
    &&& is_listable(path) ==> normalized(place, "received_files"@) == path
}

/// The text of a place, and what it leads to.
proof fn lemma_place_for(path: Seq<char>)
    requires
        is_contained(path),
    ensures
        is_place_for("received_files/"@ + path, path),
{
    places_by_text();
    assert(place_of(path) == "received_files/"@ + path);
    reveal_strlit("received_files");
    lemma_parts(path);
    if is_absolute(path) {
        assert(parts(path)[0] is RootDir);
    }
    joined_parts(RECEIVED_FILES@, path);
    places_are_in_received_files(path);
    if is_listable(path) {
        received_files_are_listed_as_sent(path);
    }
}

/// A server deletes, creates and removes what the message names, and does so
/// at the place of that path. Nothing happens for a path that is not contained.
pub proof fn actions_are_where_the_message_says(session: SessionView, path: Seq<char>)
    ensures
        match session.action(Some(MessageView::DeleteFile { path })) {
            ActionView::DeleteFile { place } => is_contained(path) && is_place_for(place, path),
            ActionView::Proceed => !is_contained(path),
            _ => false,
        },
        match session.action(Some(MessageView::CreateDir { path })) {
            ActionView::CreateDir { place } => is_contained(path) && is_place_for(place, path),
            ActionView::Proceed => !is_contained(path),
            _ => false,
        },
        match session.action(Some(MessageView::RemoveDir { path })) {
            ActionView::RemoveDir { place } => is_contained(path) && is_place_for(place, path),
            ActionView::Proceed => !is_contained(path),
            _ => false,
        },
{
    places_by_text();
    if is_contained(path) {
        lemma_place_for(path);
        assert(place_of(path) == "received_files/"@ + path);
    }
}

/// The three messages that name a path agree on its place, and it is where the
/// content of a file with that path goes. Other paths have other places.
pub proof fn a_path_has_one_place(session: SessionView, path: Seq<char>, other: Seq<char>)
    requires
        is_contained(path),
        is_contained(other),
    ensures
        ({
            let place = ReceiverView::fresh(path, None).place;
            &&& session.action(Some(MessageView::DeleteFile { path })) matches ActionView::DeleteFile { place: own }
                && place == Some(own)
            &&& session.action(Some(MessageView::CreateDir { path })) matches ActionView::CreateDir { place: own }
                && place == Some(own)
            &&& session.action(Some(MessageView::RemoveDir { path })) matches ActionView::RemoveDir { place: own }
                && place == Some(own)
            &&& place == ReceiverView::fresh(other, None).place ==> path == other
        }),
{
    places_by_text();
    assert(place_of(path) == "received_files/"@ + path);
    assert(place_of(other) == "received_files/"@ + other);
    if place_of(path) == place_of(other) {
        let by = "received_files/"@.len() as int;
        assert(path =~= place_of(path).skip(by));
        assert(other =~= place_of(other).skip(by));
    }
}

/// A reception starts with nothing received. It is for the place of its path
/// if the path is contained, and for none otherwise.
pub proof fn reception_starts_at_its_place(path: Seq<char>, expected: Option<Seq<char>>)
    ensures
        ({
            let start = ReceiverView::fresh(path, expected);
            &&& match start.place {
                Some(place) => is_contained(path) && is_place_for(place, path),
                None => !is_contained(path),
            }
            &&& start.saving == is_contained(path)
            &&& !start.created
            &&& start.content.len() == 0
            &&& start.expected == expected
        }),
{
    places_by_text();
    if is_contained(path) {
        lemma_place_for(path);
        assert(place_of(path) == "received_files/"@ + path);
    }
}

/// A file that was saved lies at the place of its path. If a walk finds there
/// what was written, the next manifest lists it under that path, with the hash
/// that was announced for it.
pub proof fn saved_file_is_listed_from_its_place(
    path: Seq<char>,
    expected: Option<Seq<char>>,
    stream: Seq<u8>,
    entries: Seq<WalkedEntry>,
    found: int,
)
    requires
        is_listable(path),
        !is_skipped(path, "received_files"@),
        is_walk(entries, "received_files"@),
        0 <= found < entries.len(),
        reception(ReceiverView::fresh(path, expected).after_creation(true), stream) matches Reception::Finished {
            file,
            outcome: FileOutcome::Saved { .. },
            ..
        } && (entries[found] matches WalkedEntry::File { path: place, hash: Some(hash), .. } && file.place == Some(place@)
            && hash@ == content_hash(file.content)),
    ensures
        reception(ReceiverView::fresh(path, expected).after_creation(true), stream) matches Reception::Finished {
            file,
            ..
        } && (file.place matches Some(place) && is_place_for(place, path)) && ({
            let manifest = manifest_of(scanned_files(entries, "received_files"@), "received_files"@);
            &&& manifest.contains_key(path)
            &&& manifest[path] == Some(content_hash(file.content))
            &&& expected is Some ==> manifest[path] == expected
        }),
{
    kept_files_are_verified(ReceiverView::fresh(path, expected).after_creation(true), stream);
    reception_starts_at_its_place(path, expected);
    saved_file_is_listed(path, expected, stream, entries, found);
}

/// What succeeds adds one to its own tally and to no other, a saved file its
/// bytes besides, and what fails adds one to the errors.
pub proof fn outcomes_add_to_their_own_tally(session: SessionView, bytes: u64)
    ensures
        ({
            let before = session.stats;
            let error = SessionStats { errors: (before.errors + 1) as u64, ..before };
            &&& session.after_transfer(FileOutcome::Saved { bytes }).stats == (SessionStats {
                files_saved: (before.files_saved + 1) as u64,
                bytes_written: (before.bytes_written + bytes) as u64,
                ..before
            })
            &&& session.after_deletion(true).stats == (SessionStats {
                files_deleted: (before.files_deleted + 1) as u64,
                ..before
            })
            &&& session.after_dir_creation(true).stats == (SessionStats {
                dirs_created: (before.dirs_created + 1) as u64,
                ..before
            })
            &&& session.after_dir_removal(true).stats == (SessionStats {
                dirs_removed: (before.dirs_removed + 1) as u64,
                ..before
            })
            &&& session.after_transfer(FileOutcome::Rejected).stats == error
            &&& session.after_deletion(false).stats == error
            &&& session.after_dir_creation(false).stats == error
            &&& session.after_dir_removal(false).stats == error
        }),
{
}

/// Only an announcement changes what is announced, and only the content of a
/// file uses it up.
pub proof fn announcements_last_until_content_comes(session: SessionView, message: Option<MessageView>)
    ensures
        match message {
            Some(MessageView::FileInfo(info)) => session.after_message(message).pending == Some(info),
            Some(MessageView::FileContentStream { .. }) => session.after_message(message).pending is None,
            _ => session.after_message(message).pending == session.pending,
        },
{
}

} // verus!
