//! The messages of the protocol.

use vstd::prelude::*;
use crate::file_scanner::{FileInfo, FileInfoView};
use crate::manifest::Manifest;

verus! {

/// What the two sides tell each other.
pub enum SyncMessage {
    /// Sent by the client, first of all.
    Auth { token: String },
    /// Sent by the client, as are all but the last of those below.
    FileInfo(FileInfo),
    /// The content of the file follows, piece by piece.
    FileContentStream { path: String },
    DeleteFile { path: String },
    CreateDir { path: String },
    RemoveDir { path: String },
    SyncComplete,
    /// Sent by the server: what it has.
    Manifest(Manifest),
}

/// What a [`SyncMessage`] says.
pub enum MessageView {
    Auth { token: Seq<char> },
    FileInfo(FileInfoView),
    FileContentStream { path: Seq<char> },
    DeleteFile { path: Seq<char> },
    CreateDir { path: Seq<char> },
    RemoveDir { path: Seq<char> },
    SyncComplete,
    Manifest(Map<Seq<char>, Option<Seq<char>>>),
}

impl View for SyncMessage {
    type V = MessageView;

    open spec fn view(&self) -> MessageView {
        match *self {
            SyncMessage::Auth { token } => MessageView::Auth { token: token@ },
            SyncMessage::FileInfo(info) => MessageView::FileInfo(info@),
            SyncMessage::FileContentStream { path } => MessageView::FileContentStream { path: path@ },
            SyncMessage::DeleteFile { path } => MessageView::DeleteFile { path: path@ },
            SyncMessage::CreateDir { path } => MessageView::CreateDir { path: path@ },
            SyncMessage::RemoveDir { path } => MessageView::RemoveDir { path: path@ },
            SyncMessage::SyncComplete => MessageView::SyncComplete,
            SyncMessage::Manifest(manifest) => MessageView::Manifest(manifest@),
        }
    }
}

pub open spec fn message_views(messages: Seq<SyncMessage>) -> Seq<MessageView> {
    messages.map_values(|message: SyncMessage| message@)
}

} // verus!
