//! The server's side of a session: who may open one, and what each message
//! leads to.

use vstd::prelude::*;
use crate::file_scanner::{build_manifest, manifest_of, scanned_files, FileInfo, FileInfoView, WalkedEntry,
    RECEIVED_FILES};
use crate::manifest::text_of;
use crate::path_laws::contained_path_stays_below;
use crate::path_text::{containment_by_text, has_segment};
use crate::paths::{check_contained, is_contained, join, parts, same_text};
use crate::protocol::{MessageView, SyncMessage};
use crate::receiver::FileOutcome;
use crate::text::to_chars;

verus! {

/// The first message of the server, once a client has shown the right token:
/// what it has received so far, as a walk of the received files found it.
pub fn manifest_message(entries: Vec<WalkedEntry>) -> (message: SyncMessage)
    ensures
        message@ == MessageView::Manifest(
            manifest_of(scanned_files(entries@, RECEIVED_FILES@), RECEIVED_FILES@),
        ),
        message matches SyncMessage::Manifest(manifest) && manifest@ == manifest_of(
            scanned_files(entries@, "received_files"@),
            "received_files"@,
        ),
{
    SyncMessage::Manifest(build_manifest(RECEIVED_FILES, entries))
}

/// The place under `base` that a path from outside names, unless the path
/// contains a part that could lead out of `base`.
///
/// The guard holds where paths are those of Unix: elsewhere a backslash may
/// separate parts, and a drive may stand in front, and neither is looked for.
pub fn build_safe_path(base: &str, user_path: &str) -> (place: Result<String, &'static str>)
    ensures
        match place {
            Ok(place) => is_contained(user_path@) && place@ == join(base@, user_path@),
            Err(message) => !is_contained(user_path@) && message@
                == "Safety breach: Invalid file path component."@,
        },
        place is Ok <==> (user_path@.len() == 0 || user_path@[0] != '/') && !has_segment(user_path@, seq!['.', '.']),
        place matches Ok(place) ==> place@ == base@ + (if base@.len() > 0 && base@.last() != '/' {
            seq!['/']
        } else {
            Seq::empty()
        }) + user_path@,
{
    proof {
        containment_by_text(user_path@);
    }
    let user = to_chars(user_path);
    if !check_contained(&user) {
        return Err("Safety breach: Invalid file path component.");
    }
    let base_chars = to_chars(base);
    let mut place = base.to_owned();
    if base_chars.len() > 0 && base_chars[base_chars.len() - 1] != '/' {
        place.push('/');
    }
    let mut i: usize = 0;
    let ghost front = place@;
    while i < user.len()
        invariant
            0 <= i <= user@.len(),
            place@ == front + user@.take(i as int),
        decreases user@.len() - i,
    {
        place.push(user[i]);
        i += 1;
        assert(place@ =~= front + user@.take(i as int));
    }
    assert(place@ =~= join(base@, user_path@));
    assert(place@ =~= front + user_path@);
    assert(front =~= base@ + (if base@.len() > 0 && base@.last() != '/' {
        seq!['/']
    } else {
        Seq::empty()
    }));
    Ok(place)
}

/// Tallied over one session.
#[derive(Debug, Clone, Copy, PartialEq, Eq, Structural)]
pub struct SessionStats {
    pub files_saved: u64,
    pub bytes_written: u64,
    pub files_deleted: u64,
    pub dirs_created: u64,
    pub dirs_removed: u64,
    pub errors: u64,
}

impl SessionStats {
    /// Nothing has happened yet.
    pub open spec fn zero() -> SessionStats {
        SessionStats {
            files_saved: 0,
            bytes_written: 0,
            files_deleted: 0,
            dirs_created: 0,
            dirs_removed: 0,
            errors: 0,
        }
    }

    pub open spec fn tally(self, tally: Tally) -> u64 {
        match tally {
            Tally::FilesSaved => self.files_saved,
            Tally::FilesDeleted => self.files_deleted,
            Tally::DirsCreated => self.dirs_created,
            Tally::DirsRemoved => self.dirs_removed,
            Tally::Errors => self.errors,
        }
    }

    /// The number of events that were counted.
    pub open spec fn total(self) -> int {
        self.files_saved + self.files_deleted + self.dirs_created + self.dirs_removed + self.errors
    }

    /// Whether no tally is less than it was.
    pub open spec fn covers(self, before: SessionStats) -> bool {
        &&& self.files_saved >= before.files_saved
        &&& self.bytes_written >= before.bytes_written
        &&& self.files_deleted >= before.files_deleted
        &&& self.dirs_created >= before.dirs_created
        &&& self.dirs_removed >= before.dirs_removed
        &&& self.errors >= before.errors
    }

    pub open spec fn plus_error(self) -> SessionStats {
        SessionStats { errors: (self.errors + 1) as u64, ..self }
    }

    pub open spec fn plus_saved(self, bytes: u64) -> SessionStats {
        SessionStats {
            files_saved: (self.files_saved + 1) as u64,
            bytes_written: (self.bytes_written + bytes) as u64,
            ..self
        }
    }

    pub open spec fn plus_deleted(self) -> SessionStats {
        SessionStats { files_deleted: (self.files_deleted + 1) as u64, ..self }
    }

    pub open spec fn plus_created(self) -> SessionStats {
        SessionStats { dirs_created: (self.dirs_created + 1) as u64, ..self }
    }

    pub open spec fn plus_removed(self) -> SessionStats {
        SessionStats { dirs_removed: (self.dirs_removed + 1) as u64, ..self }
    }

    /// Whether the summary of a session is a warning: something went wrong
    /// during it, or it ended with a failure.
    pub fn needs_warning(&self, failed: bool) -> (warning: bool)
        ensures
            warning == (self.errors > 0 || failed),
    {
        self.errors > 0 || failed
    }
}

impl Default for SessionStats {
    fn default() -> (stats: Self)
        ensures
            stats == SessionStats::zero(),
            stats.files_saved == 0 && stats.bytes_written == 0 && stats.files_deleted == 0,
            stats.dirs_created == 0 && stats.dirs_removed == 0 && stats.errors == 0,
    {
        SessionStats {
            files_saved: 0,
            bytes_written: 0,
            files_deleted: 0,
            dirs_created: 0,
            dirs_removed: 0,
            errors: 0,
        }
    }
}

/// What a message asks the server to do next.
#[derive(Debug)]
pub enum SessionAction {
    /// Nothing: wait for the next message.
    Proceed,
    /// The content of a file follows.
    ReceiveFile { path: String, expected_hash: Option<String> },
    DeleteFile { place: String },
    CreateDir { place: String },
    RemoveDir { place: String },
}

/// What a [`SessionAction`] says.
pub enum ActionView {
    Proceed,
    ReceiveFile { path: Seq<char>, expected_hash: Option<Seq<char>> },
    DeleteFile { place: Seq<char> },
    CreateDir { place: Seq<char> },
    RemoveDir { place: Seq<char> },
}

impl View for SessionAction {
    type V = ActionView;

    open spec fn view(&self) -> ActionView {
        match *self {
            SessionAction::Proceed => ActionView::Proceed,
            SessionAction::ReceiveFile { path, expected_hash } => ActionView::ReceiveFile {
                path: path@,
                expected_hash: text_of(expected_hash),
            },
            SessionAction::DeleteFile { place } => ActionView::DeleteFile { place: place@ },
            SessionAction::CreateDir { place } => ActionView::CreateDir { place: place@ },
            SessionAction::RemoveDir { place } => ActionView::RemoveDir { place: place@ },
        }
    }
}

/// What is known in the middle of a session.
pub struct SessionView {
    /// The file that was announced last and whose content has not come yet.
    pub pending: Option<FileInfoView>,
    pub stats: SessionStats,
}

/// The place of a received file.
pub open spec fn place_of(path: Seq<char>) -> Seq<char> {
    join(RECEIVED_FILES@, path)
}

impl SessionView {
    pub open spec fn fresh() -> SessionView {
        SessionView { pending: None, stats: SessionStats::zero() }
    }

    pub open spec fn with_error(self) -> SessionView {
        SessionView { stats: self.stats.plus_error(), ..self }
    }

    /// Whether a message, or a line that is none, is an error: it has no place
    /// in a session, or names a path that is not contained.
    pub open spec fn is_error(message: Option<MessageView>) -> bool {
        match message {
            Some(MessageView::FileInfo(_)) => false,
            Some(MessageView::FileContentStream { .. }) => false,
            Some(MessageView::SyncComplete) => false,
            Some(MessageView::DeleteFile { path }) => !is_contained(path),
            Some(MessageView::CreateDir { path }) => !is_contained(path),
            Some(MessageView::RemoveDir { path }) => !is_contained(path),
            Some(MessageView::Auth { .. }) => true,
            Some(MessageView::Manifest(_)) => true,
            None => true,
        }
    }

    /// The session after a message, or after a line that is none.
    pub open spec fn after_message(self, message: Option<MessageView>) -> SessionView {
        if SessionView::is_error(message) {
            self.with_error()
        } else {
            match message {
                Some(MessageView::FileInfo(info)) => SessionView { pending: Some(info), ..self },
                Some(MessageView::FileContentStream { .. }) => SessionView { pending: None, ..self },
                _ => self,
            }
        }
    }

    /// What a message leads to, if anything.
    pub open spec fn action(self, message: Option<MessageView>) -> ActionView {
        if SessionView::is_error(message) {
            ActionView::Proceed
        } else {
            match message {
                Some(MessageView::FileContentStream { path }) => ActionView::ReceiveFile {
                    path,
                    expected_hash: match self.pending {
                        Some(info) => info.hash,
                        None => None,
                    },
                },
                Some(MessageView::DeleteFile { path }) => ActionView::DeleteFile { place: place_of(path) },
                Some(MessageView::CreateDir { path }) => ActionView::CreateDir { place: place_of(path) },
                Some(MessageView::RemoveDir { path }) => ActionView::RemoveDir { place: place_of(path) },
                _ => ActionView::Proceed,
            }
        }
    }

    /// The session after the content of a file has come.
    pub open spec fn after_transfer(self, outcome: FileOutcome) -> SessionView {
        match outcome {
            FileOutcome::Saved { bytes } => SessionView { stats: self.stats.plus_saved(bytes), ..self },
            FileOutcome::Rejected => self.with_error(),
        }
    }

    /// The session after a file was to be deleted.
    pub open spec fn after_deletion(self, done: bool) -> SessionView {
        if done {
            SessionView { stats: self.stats.plus_deleted(), ..self }
        } else {
            self.with_error()
        }
    }

    /// The session after a directory was to be created.
    pub open spec fn after_dir_creation(self, done: bool) -> SessionView {
        if done {
            SessionView { stats: self.stats.plus_created(), ..self }
        } else {
            self.with_error()
        }
    }

    /// The session after a directory was to be removed.
    pub open spec fn after_dir_removal(self, done: bool) -> SessionView {
        if done {
            SessionView { stats: self.stats.plus_removed(), ..self }
        } else {
            self.with_error()
        }
    }

    /// The session after a line of the client and what it led to.
    pub open spec fn after_line(self, line: LineView) -> SessionView {
        let next = self.after_message(line.message);
        match self.action(line.message) {
            ActionView::Proceed => next,
            ActionView::ReceiveFile { .. } => next.after_transfer(line.transfer),
            ActionView::DeleteFile { .. } => next.after_deletion(line.done),
            ActionView::CreateDir { .. } => next.after_dir_creation(line.done),
            ActionView::RemoveDir { .. } => next.after_dir_removal(line.done),
        }
    }

    /// The session after some lines.
    pub open spec fn after_lines(self, lines: Seq<LineView>) -> SessionView
        decreases lines.len(),
    {
        if lines.len() == 0 {
            self
        } else {
            self.after_lines(lines.drop_last()).after_line(lines.last())
        }
    }

    /// The session at its end: after its last line, and after the read error
    /// that ended it, if there was one.
    pub open spec fn at_end(self, lines: Seq<LineView>, read_error: bool) -> SessionView {
        if read_error {
            self.after_lines(lines).with_error()
        } else {
            self.after_lines(lines)
        }
    }
}

/// One of the tallies of a session.
pub enum Tally {
    FilesSaved,
    FilesDeleted,
    DirsCreated,
    DirsRemoved,
    Errors,
}

/// A line of the client, and how what it led to went.
pub struct LineView {
    /// `None` if the line is no message.
    pub message: Option<MessageView>,
    /// How the content of the file was received, if it was to be.
    pub transfer: FileOutcome,
    /// Whether a deletion, a creation or a removal succeeded, if there was one.
    pub done: bool,
}

/// The tally that a line adds to. An announcement adds to none, and neither
/// does the word that the sync is complete.
pub open spec fn tally_of(line: LineView) -> Option<Tally> {
    if SessionView::is_error(line.message) {
        Some(Tally::Errors)
    } else {
        match line.message {
            Some(MessageView::FileContentStream { .. }) => if line.transfer is Saved {
                Some(Tally::FilesSaved)
            } else {
                Some(Tally::Errors)
            },
            Some(MessageView::DeleteFile { .. }) => Some(tally_if(line.done, Tally::FilesDeleted)),
            Some(MessageView::CreateDir { .. }) => Some(tally_if(line.done, Tally::DirsCreated)),
            Some(MessageView::RemoveDir { .. }) => Some(tally_if(line.done, Tally::DirsRemoved)),
            _ => None,
        }
    }
}

/// The tally of what was to be done: its own if it succeeded.
pub open spec fn tally_if(done: bool, own: Tally) -> Tally {
    if done {
        own
    } else {
        Tally::Errors
    }
}

/// The number of lines that add to a tally, or to none.
pub open spec fn count_of(lines: Seq<LineView>, tally: Option<Tally>) -> nat
    decreases lines.len(),
{
    if lines.len() == 0 {
        0
    } else {
        count_of(lines.drop_last(), tally) + if tally_of(lines.last()) == tally {
            1nat
        } else {
            0
        }
    }
}

/// The size of the file that a line led to, if it was saved.
pub open spec fn saved_size(line: LineView) -> Option<u64> {
    match (line.message, line.transfer) {
        (Some(MessageView::FileContentStream { .. }), FileOutcome::Saved { bytes }) => Some(bytes),
        _ => None,
    }
}

/// The size of all the files that were saved.
pub open spec fn saved_bytes(lines: Seq<LineView>) -> nat
    decreases lines.len(),
{
    if lines.len() == 0 {
        0
    } else {
        saved_bytes(lines.drop_last()) + match saved_size(lines.last()) {
            Some(bytes) => bytes as nat,
            None => 0,
        }
    }
}

pub open spec fn message_view(message: Option<SyncMessage>) -> Option<MessageView> {
    match message {
        Some(message) => Some(message@),
        None => None,
    }
}

/// A session with a client that has shown the right token.
pub struct Session {
    pending: Option<FileInfo>,
    stats: SessionStats,
}

impl View for Session {
    type V = SessionView;

    closed spec fn view(&self) -> SessionView {
        SessionView {
            pending: match self.pending {
                Some(info) => Some(info@),
                None => None,
            },
            stats: self.stats,
        }
    }
}

impl Session {
    /// Opens a session if the first line of the client, which is `None` if it
    /// is no message, is an `Auth` with the expected token. There is no other
    /// way to a session.
    pub fn open(first: Option<SyncMessage>, expected_token: &str) -> (session: Option<Session>)
        ensures
            session is Some <==> message_view(first) == Some(MessageView::Auth { token: expected_token@ }),
            session matches Some(session) ==> session@ == SessionView::fresh(),
            session is Some <==> (first matches Some(SyncMessage::Auth { token }) && token@ == expected_token@),
            session matches Some(session) ==> session@.pending is None && session@.stats.total() == 0
                && session@.stats.bytes_written == 0,
    {
        match first {
            Some(SyncMessage::Auth { token }) => {
                if same_text(token.as_str(), expected_token) {
                    Some(Session { pending: None, stats: SessionStats::default() })
                } else {
                    None
                }
            },
            _ => None,
        }
    }

    /// The tally so far.
    pub fn stats(&self) -> (stats: &SessionStats)
        ensures
            *stats == self@.stats,
    {
        &self.stats
    }

    /// Takes the next line of the client, `None` if it is no message, and says
    /// what it leads to.
    pub fn on_message(&mut self, message: Option<SyncMessage>) -> (action: SessionAction)
        requires
            SessionView::is_error(message_view(message)) ==> old(self)@.stats.errors < u64::MAX,
        ensures
            final(self)@ == old(self)@.after_message(message_view(message)),
            action@ == old(self)@.action(message_view(message)),
            // What the message asks for, at the place that it names.
            match message {
                Some(SyncMessage::FileInfo(info)) => action is Proceed && final(self)@.pending == Some(info@)
                    && final(self)@.stats == old(self)@.stats,
                Some(SyncMessage::SyncComplete) => action is Proceed && final(self)@ == old(self)@,
                Some(SyncMessage::FileContentStream { path }) => {
                    &&& action matches SessionAction::ReceiveFile { path: own, expected_hash } && own@ == path@
                        && text_of(expected_hash) == (match old(self)@.pending {
                        Some(info) => info.hash,
                        None => None,
                    })
                    &&& final(self)@.pending is None
                    &&& final(self)@.stats == old(self)@.stats
                },
                Some(SyncMessage::DeleteFile { path }) if is_contained(path@) => {
                    &&& action matches SessionAction::DeleteFile { place } && place@ == "received_files/"@ + path@
                    &&& final(self)@ == old(self)@
                },
                Some(SyncMessage::CreateDir { path }) if is_contained(path@) => {
                    &&& action matches SessionAction::CreateDir { place } && place@ == "received_files/"@ + path@
                    &&& final(self)@ == old(self)@
                },
                Some(SyncMessage::RemoveDir { path }) if is_contained(path@) => {
                    &&& action matches SessionAction::RemoveDir { place } && place@ == "received_files/"@ + path@
                    &&& final(self)@ == old(self)@
                },
                _ => {
                    &&& action is Proceed
                    &&& final(self)@.pending == old(self)@.pending
                    &&& final(self)@.stats == (SessionStats {
                        errors: (old(self)@.stats.errors + 1) as u64,
                        ..old(self)@.stats
                    })
                },
            },
    {
        proof {
            places_by_text();
        }
        match message {
            Some(SyncMessage::FileInfo(info)) => {
                self.pending = Some(info);
                SessionAction::Proceed
            },
            Some(SyncMessage::SyncComplete) => SessionAction::Proceed,
            Some(SyncMessage::FileContentStream { path }) => {
                let expected_hash = match self.pending.take() {
                    Some(info) => info.hash,
                    None => None,
                };
                SessionAction::ReceiveFile { path, expected_hash }
            },
            Some(SyncMessage::DeleteFile { path }) => {
                match build_safe_path(RECEIVED_FILES, path.as_str()) {
                    Ok(place) => SessionAction::DeleteFile { place },
                    Err(_) => {
                        self.stats.errors = self.stats.errors + 1;
                        SessionAction::Proceed
                    },
                }
            },
            Some(SyncMessage::CreateDir { path }) => {
                match build_safe_path(RECEIVED_FILES, path.as_str()) {
                    Ok(place) => SessionAction::CreateDir { place },
                    Err(_) => {
                        self.stats.errors = self.stats.errors + 1;
                        SessionAction::Proceed
                    },
                }
            },
            Some(SyncMessage::RemoveDir { path }) => {
                match build_safe_path(RECEIVED_FILES, path.as_str()) {
                    Ok(place) => SessionAction::RemoveDir { place },
                    Err(_) => {
                        self.stats.errors = self.stats.errors + 1;
                        SessionAction::Proceed
                    },
                }
            },
            Some(SyncMessage::Auth { token: _ }) | Some(SyncMessage::Manifest(_)) | None => {
                self.stats.errors = self.stats.errors + 1;
                SessionAction::Proceed
            },
        }
    }

    /// Counts how the content of a file was received.
    pub fn on_transfer(&mut self, outcome: FileOutcome)
        requires
            match outcome {
                FileOutcome::Saved { bytes } => old(self)@.stats.files_saved < u64::MAX
                    && old(self)@.stats.bytes_written + bytes <= u64::MAX,
                FileOutcome::Rejected => old(self)@.stats.errors < u64::MAX,
            },
        ensures
            final(self)@ == old(self)@.after_transfer(outcome),
            final(self)@.pending == old(self)@.pending,
            final(self)@.stats == (match outcome {
                FileOutcome::Saved { bytes } => SessionStats {
                    files_saved: (old(self)@.stats.files_saved + 1) as u64,
                    bytes_written: (old(self)@.stats.bytes_written + bytes) as u64,
                    ..old(self)@.stats
                },
                FileOutcome::Rejected => SessionStats {
                    errors: (old(self)@.stats.errors + 1) as u64,
                    ..old(self)@.stats
                },
            }),
    {
        match outcome {
            FileOutcome::Saved { bytes } => {
                self.stats.files_saved = self.stats.files_saved + 1;
                self.stats.bytes_written = self.stats.bytes_written + bytes;
            },
            FileOutcome::Rejected => {
                self.stats.errors = self.stats.errors + 1;
            },
        }
    }

    /// Counts a file that was to be deleted.
    pub fn on_deleted(&mut self, done: bool)
        requires
            if done {
                old(self)@.stats.files_deleted < u64::MAX
            } else {
                old(self)@.stats.errors < u64::MAX
            },
        ensures
            final(self)@ == old(self)@.after_deletion(done),
            final(self)@.pending == old(self)@.pending,
            final(self)@.stats == (if done {
                SessionStats { files_deleted: (old(self)@.stats.files_deleted + 1) as u64, ..old(self)@.stats }
            } else {
                SessionStats { errors: (old(self)@.stats.errors + 1) as u64, ..old(self)@.stats }
            }),
    {
        if done {
            self.stats.files_deleted = self.stats.files_deleted + 1;
        } else {
            self.stats.errors = self.stats.errors + 1;
        }
    }

    /// Counts a directory that was to be created.
    pub fn on_dir_created(&mut self, done: bool)
        requires
            if done {
                old(self)@.stats.dirs_created < u64::MAX
            } else {
                old(self)@.stats.errors < u64::MAX
            },
        ensures
            final(self)@ == old(self)@.after_dir_creation(done),
            final(self)@.pending == old(self)@.pending,
            final(self)@.stats == (if done {
                SessionStats { dirs_created: (old(self)@.stats.dirs_created + 1) as u64, ..old(self)@.stats }
            } else {
                SessionStats { errors: (old(self)@.stats.errors + 1) as u64, ..old(self)@.stats }
            }),
    {
        if done {
            self.stats.dirs_created = self.stats.dirs_created + 1;
        } else {
            self.stats.errors = self.stats.errors + 1;
        }
    }

    /// Counts a directory that was to be removed.
    pub fn on_dir_removed(&mut self, done: bool)
        requires
            if done {
                old(self)@.stats.dirs_removed < u64::MAX
            } else {
                old(self)@.stats.errors < u64::MAX
            },
        ensures
            final(self)@ == old(self)@.after_dir_removal(done),
            final(self)@.pending == old(self)@.pending,
            final(self)@.stats == (if done {
                SessionStats { dirs_removed: (old(self)@.stats.dirs_removed + 1) as u64, ..old(self)@.stats }
            } else {
                SessionStats { errors: (old(self)@.stats.errors + 1) as u64, ..old(self)@.stats }
            }),
    {
        if done {
            self.stats.dirs_removed = self.stats.dirs_removed + 1;
        } else {
            self.stats.errors = self.stats.errors + 1;
        }
    }

    /// Counts a failure to read from the client, which ends the session.
    pub fn on_read_error(&mut self)
        requires
            old(self)@.stats.errors < u64::MAX,
        ensures
            final(self)@ == old(self)@.with_error(),
            final(self)@.pending == old(self)@.pending,
            final(self)@.stats == (SessionStats {
                errors: (old(self)@.stats.errors + 1) as u64,
                ..old(self)@.stats
            }),
    {
        self.stats.errors = self.stats.errors + 1;
    }
}

/// Whether a place lies in the directory of received files: it is reached from
/// there by ordinary names alone.
pub open spec fn is_in_received_files(place: Seq<char>) -> bool {
    &&& parts(RECEIVED_FILES@).is_prefix_of(parts(place))
    &&& forall|i: int|
        parts(RECEIVED_FILES@).len() <= i < parts(place).len() ==> #[trigger] parts(place)[i] is Normal
}

/// The place of a path is the text of the path behind that of the directory of
/// received files.
pub proof fn places_by_text()
    ensures
        forall|path: Seq<char>| #[trigger] place_of(path) == "received_files/"@ + path,
{
    reveal_strlit("received_files");
    reveal_strlit("received_files/");
    assert forall|path: Seq<char>| #[trigger] place_of(path) == "received_files/"@ + path by {
        assert(RECEIVED_FILES@ + seq!['/'] =~= "received_files/"@);
    }
}

/// The place of a contained path lies in the directory of received files.
pub proof fn places_are_in_received_files(path: Seq<char>)
    requires
        is_contained(path),
    ensures
        is_in_received_files(place_of(path)),
{
    reveal_strlit("received_files");
    contained_path_stays_below(RECEIVED_FILES@, path);
}

/// Whatever a client sends, the server deletes, creates and removes only
/// inside the directory of received files.
pub proof fn actions_stay_in_received_files(session: SessionView, message: Option<MessageView>)
    ensures
        match session.action(message) {
            ActionView::DeleteFile { place } => is_in_received_files(place),
            ActionView::CreateDir { place } => is_in_received_files(place),
            ActionView::RemoveDir { place } => is_in_received_files(place),
            _ => true,
        },
{
    match message {
        Some(MessageView::DeleteFile { path }) if is_contained(path) => {
            places_are_in_received_files(path);
        },
        Some(MessageView::CreateDir { path }) if is_contained(path) => {
            places_are_in_received_files(path);
        },
        Some(MessageView::RemoveDir { path }) if is_contained(path) => {
            places_are_in_received_files(path);
        },
        _ => {},
    }
}

/// A message that is an error leads to nothing but an error in the tally: the
/// file that was announced stays announced.
pub proof fn errors_are_only_counted(session: SessionView, message: Option<MessageView>)
    requires
        SessionView::is_error(message),
    ensures
        session.action(message) is Proceed,
        session.after_message(message) == session.with_error(),
        session.after_message(message).pending == session.pending,
{
}

/// The hash that is announced for a file is expected of the content that comes
/// next, and of no other.
pub proof fn announced_hash_counts_once(
    session: SessionView,
    info: FileInfoView,
    path: Seq<char>,
    other: Seq<char>,
)
    ensures
        ({
            let announced = session.after_message(Some(MessageView::FileInfo(info)));
            let content = Some(MessageView::FileContentStream { path });
            let second = Some(MessageView::FileContentStream { path: other });
            &&& announced.action(content) == (ActionView::ReceiveFile { path, expected_hash: info.hash })
            &&& announced.after_message(content).action(second) == (ActionView::ReceiveFile {
                path: other,
                expected_hash: None,
            })
            &&& announced.after_message(content).stats == session.stats
        }),
{
}

/// 1 for the tally that the end of a session adds to: a read error is one.
pub open spec fn end_count(read_error: bool, tally: Tally) -> nat {
    if read_error && tally is Errors {
        1
    } else {
        0
    }
}

/// Every line of a session is counted once, in the tally it adds to, but for
/// announcements and the word that the sync is complete, and so is the read
/// error with which a session may end. No tally ever goes down. The bytes are
/// those of the files that were saved, and of no other. This holds as long as
/// the tallies have room for what is added to them.
pub proof fn every_line_is_counted(session: SessionView, lines: Seq<LineView>, read_error: bool)
    requires
        forall|tally: Tally|
            #![trigger session.stats.tally(tally)]
            session.stats.tally(tally) + count_of(lines, Some(tally)) + end_count(read_error, tally) <= u64::MAX,
        session.stats.bytes_written + saved_bytes(lines) <= u64::MAX,
    ensures
        ({
            let start = session.stats;
            let end = session.at_end(lines, read_error).stats;
            &&& forall|tally: Tally|
                #![trigger end.tally(tally)]
                end.tally(tally) == start.tally(tally) + count_of(lines, Some(tally)) + end_count(read_error, tally)
            &&& end.total() == start.total() + lines.len() - count_of(lines, None) + end_count(
                read_error,
                Tally::Errors,
            )
            &&& end.covers(start)
            &&& end.bytes_written == start.bytes_written + saved_bytes(lines)
            &&& end.files_saved == start.files_saved ==> end.bytes_written == start.bytes_written
        }),
{
    let start = session.stats;
    let last = session.after_lines(lines).stats;
    let end = session.at_end(lines, read_error).stats;
    lemma_bytes_are_of_saved_files(lines);
    lemma_counts_add_up(lines);
    assert forall|tally: Tally|
        #![trigger start.tally(tally)]
        start.tally(tally) + count_of(lines, Some(tally)) <= u64::MAX by {}
    lemma_lines_are_counted(session, lines);
    assert(start.tally(Tally::Errors) + count_of(lines, Some(Tally::Errors)) + end_count(read_error, Tally::Errors)
        <= u64::MAX);
    assert(last.tally(Tally::Errors) == start.errors + count_of(lines, Some(Tally::Errors)));
    assert forall|tally: Tally|
        #![trigger end.tally(tally)]
        end.tally(tally) == start.tally(tally) + count_of(lines, Some(tally)) + end_count(read_error, tally) by {
        assert(last.tally(tally) == start.tally(tally) + count_of(lines, Some(tally)));
    }
    assert(end.tally(Tally::FilesSaved) == end.files_saved);
    assert(end.tally(Tally::FilesDeleted) == end.files_deleted);
    assert(end.tally(Tally::DirsCreated) == end.dirs_created);
    assert(end.tally(Tally::DirsRemoved) == end.dirs_removed);
    assert(end.tally(Tally::Errors) == end.errors);
}

/// The lines alone.
proof fn lemma_lines_are_counted(session: SessionView, lines: Seq<LineView>)
    requires
        forall|tally: Tally|
            #![trigger session.stats.tally(tally)]
            session.stats.tally(tally) + count_of(lines, Some(tally)) <= u64::MAX,
        session.stats.bytes_written + saved_bytes(lines) <= u64::MAX,
    ensures
        ({
            let last = session.after_lines(lines).stats;
            &&& forall|tally: Tally|
                #![trigger last.tally(tally)]
                last.tally(tally) == session.stats.tally(tally) + count_of(lines, Some(tally))
            &&& last.bytes_written == session.stats.bytes_written + saved_bytes(lines)
        }),
    decreases lines.len(),
{
    if lines.len() > 0 {
        let start = session.stats;
        let front = lines.drop_last();
        let before = session.after_lines(front);
        let last = session.after_lines(lines).stats;
        assert forall|tally: Tally|
            #![trigger start.tally(tally)]
            start.tally(tally) + count_of(front, Some(tally)) <= u64::MAX by {
            assert(start.tally(tally) + count_of(lines, Some(tally)) <= u64::MAX);
        }
        lemma_lines_are_counted(session, front);
        if let Some(tally) = tally_of(lines.last()) {
            assert(start.tally(tally) + count_of(lines, Some(tally)) <= u64::MAX);
            assert(before.stats.tally(tally) < u64::MAX);
        }
        lemma_line_is_counted(before, lines.last());
        assert forall|tally: Tally|
            #![trigger last.tally(tally)]
            last.tally(tally) == start.tally(tally) + count_of(lines, Some(tally)) by {
            assert(before.stats.tally(tally) == start.tally(tally) + count_of(front, Some(tally)));
        }
    }
}

/// Each line adds to one tally or to none.
proof fn lemma_counts_add_up(lines: Seq<LineView>)
    ensures
        count_of(lines, Some(Tally::FilesSaved)) + count_of(lines, Some(Tally::FilesDeleted)) + count_of(
            lines,
            Some(Tally::DirsCreated),
        ) + count_of(lines, Some(Tally::DirsRemoved)) + count_of(lines, Some(Tally::Errors)) + count_of(lines, None)
            == lines.len(),
    decreases lines.len(),
{
    if lines.len() > 0 {
        lemma_counts_add_up(lines.drop_last());
    }
}

proof fn lemma_bytes_are_of_saved_files(lines: Seq<LineView>)
    ensures
        count_of(lines, Some(Tally::FilesSaved)) == 0 ==> saved_bytes(lines) == 0,
    decreases lines.len(),
{
    if lines.len() > 0 {
        lemma_bytes_are_of_saved_files(lines.drop_last());
    }
}

/// One line.
proof fn lemma_line_is_counted(session: SessionView, line: LineView)
    requires
        tally_of(line) matches Some(tally) ==> session.stats.tally(tally) < u64::MAX,
        saved_size(line) matches Some(bytes) ==> session.stats.bytes_written + bytes <= u64::MAX,
    ensures
        ({
            let start = session.stats;
            let end = session.after_line(line).stats;
            &&& forall|tally: Tally|
                #![trigger end.tally(tally)]
                end.tally(tally) == start.tally(tally) + (if tally_of(line) == Some(tally) {
                    1int
                } else {
                    0
                })
            &&& end.bytes_written == start.bytes_written + match saved_size(line) {
                Some(bytes) => bytes as int,
                None => 0,
            }
        }),
{
}

/// The session after some messages.
pub open spec fn after_messages(session: SessionView, messages: Seq<Option<MessageView>>) -> SessionView
    decreases messages.len(),
{
    if messages.len() == 0 {
        session
    } else {
        after_messages(session, messages.drop_last()).after_message(messages.last())
    }
}

/// The number of messages that are errors.
pub open spec fn error_count(messages: Seq<Option<MessageView>>) -> nat {
    messages.filter(|message: Option<MessageView>| SessionView::is_error(message)).len()
}

/// Messages alone change no tally but that of errors, and each error is
/// counted once.
pub proof fn every_error_is_counted(session: SessionView, messages: Seq<Option<MessageView>>)
    requires
        session.stats.errors + error_count(messages) <= u64::MAX,
    ensures
        after_messages(session, messages).stats == (SessionStats {
            errors: (session.stats.errors + error_count(messages)) as u64,
            ..session.stats
        }),
    decreases messages.len(),
{
    reveal(Seq::filter);
    if messages.len() > 0 {
        every_error_is_counted(session, messages.drop_last());
    }
}

} // verus!
