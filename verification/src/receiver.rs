//! The reception of one file: what becomes of each length and each block that
//! arrives, until the stream of the file is over.

use vstd::prelude::*;
use crate::digest::{content_hash, FileHasher};
use crate::file_scanner::RECEIVED_FILES;
use crate::manifest::text_of;
use crate::network::{build_safe_path, place_of, places_by_text};
use crate::paths::is_contained;
use crate::text::{decimal, to_decimal};
use crate::wire::{be_bytes, be_round_trip, be_value, carries, decompress_chunk, framed, holds, is_allocatable,
    is_sendable, lz4_decompressed, size_in_front, CorruptChunk, MAX_CHUNK_LEN};

verus! {

/// How the reception of a file ended.
#[derive(Debug, Clone, Copy, PartialEq, Eq, Structural)]
pub enum FileOutcome {
    Saved { bytes: u64 },
    Rejected,
}

/// How a file whose content has come completely is judged: it is kept if the
/// hash of the content is the announced one, or if none was announced.
pub open spec fn judged(expected: Option<Seq<char>>, actual: Seq<char>, bytes: u64) -> FileOutcome {
    if expected is None || expected == Some(actual) {
        FileOutcome::Saved { bytes }
    } else {
        FileOutcome::Rejected
    }
}

/// Judges a file by the hash of its content.
pub fn judge(expected: &Option<String>, actual: &String, bytes: u64) -> (outcome: FileOutcome)
    ensures
        outcome == judged(text_of(*expected), actual@, bytes),
        match outcome {
            FileOutcome::Saved { bytes: all } => all == bytes && (expected matches Some(hash) ==> hash@ == actual@),
            FileOutcome::Rejected => expected matches Some(hash) && hash@ != actual@,
        },
{
    match expected {
        None => FileOutcome::Saved { bytes },
        Some(expected) => {
            if *expected == *actual {
                FileOutcome::Saved { bytes }
            } else {
                FileOutcome::Rejected
            }
        },
    }
}

/// Why a length over the limit closes the connection. While the rest of a
/// stream is discarded the message tells the length and the limit.
pub open spec fn abort_message(saving: bool, len: u32) -> Seq<char> {
    if saving {
        "Chunk length exceeded limit"@
    } else {
        "Chunk length "@ + decimal(len as nat) + " exceeds the "@ + decimal(MAX_CHUNK_LEN as nat) + "-byte limit"@
    }
}

fn tell_abort(saving: bool, len: u32) -> (message: String)
    ensures
        message@ == abort_message(saving, len),
{
    if saving {
        return "Chunk length exceeded limit".to_owned();
    }
    let mut message = "Chunk length ".to_owned();
    message.append(to_decimal(len).as_str());
    message.append(" exceeds the ");
    message.append(to_decimal(MAX_CHUNK_LEN).as_str());
    message.append("-byte limit");
    message
}

/// What to do about a length.
#[derive(Debug)]
pub enum LengthAction {
    /// Read a block of this length.
    ReadBlock { len: u32 },
    /// The stream is over. Remove the file first, if one is named.
    Finish { outcome: FileOutcome, remove: Option<String> },
    /// The stream cannot be trusted: remove the file, if one is named, and
    /// close the connection with this message.
    Abort { remove: Option<String>, message: String },
}

/// What a [`LengthAction`] says.
pub enum LengthActionView {
    ReadBlock { len: u32 },
    Finish { outcome: FileOutcome, remove: Option<Seq<char>> },
    Abort { remove: Option<Seq<char>>, message: Seq<char> },
}

impl View for LengthAction {
    type V = LengthActionView;

    open spec fn view(&self) -> LengthActionView {
        match *self {
            LengthAction::ReadBlock { len } => LengthActionView::ReadBlock { len },
            LengthAction::Finish { outcome, remove } => LengthActionView::Finish { outcome, remove: text_of(remove) },
            LengthAction::Abort { remove, message } => LengthActionView::Abort {
                remove: text_of(remove),
                message: message@,
            },
        }
    }
}

/// What is known in the middle of a reception.
pub struct ReceiverView {
    /// Where the file goes, or `None` if its path was refused.
    pub place: Option<Seq<char>>,
    /// The hash that was announced for the file.
    pub expected: Option<Seq<char>>,
    /// Whether a file was created for the content.
    pub created: bool,
    /// Whether the content is still wanted. If not, the rest of the stream is
    /// discarded.
    pub saving: bool,
    /// The data that has come for the file.
    pub content: Seq<u8>,
}

impl ReceiverView {
    /// Before anything of the stream has come.
    pub open spec fn fresh(path: Seq<char>, expected: Option<Seq<char>>) -> ReceiverView {
        ReceiverView {
            place: if is_contained(path) {
                Some(place_of(path))
            } else {
                None
            },
            expected,
            created: false,
            saving: is_contained(path),
            content: Seq::empty(),
        }
    }

    /// Once it is known whether the file could be created.
    pub open spec fn after_creation(self, done: bool) -> ReceiverView {
        ReceiverView { created: done, saving: done, ..self }
    }

    /// Whether the stream can be read: there is a file for the content, or the
    /// content is not wanted.
    pub open spec fn is_ready(self) -> bool {
        self.saving ==> self.created
    }

    /// What a length leads to.
    pub open spec fn on_length(self, len: u32) -> LengthActionView {
        if len == 0 {
            let outcome = if self.saving {
                judged(self.expected, content_hash(self.content), self.content.len() as u64)
            } else {
                FileOutcome::Rejected
            };
            LengthActionView::Finish {
                outcome,
                remove: if outcome is Rejected && self.created {
                    self.place
                } else {
                    None
                },
            }
        } else if len > MAX_CHUNK_LEN {
            LengthActionView::Abort {
                remove: if self.saving {
                    self.place
                } else {
                    None
                },
                message: abort_message(self.saving, len),
            }
        } else {
            LengthActionView::ReadBlock { len }
        }
    }

    /// After a block whose data is the given one. There is none if the block is
    /// corrupt, or if its data could not be written.
    pub open spec fn after_data(self, data: Option<Seq<u8>>) -> ReceiverView {
        match data {
            Some(data) => ReceiverView { content: self.content + data, ..self },
            None => ReceiverView { saving: false, ..self },
        }
    }

    /// After a block.
    pub open spec fn after_block(self, block: Seq<u8>) -> ReceiverView {
        if self.saving {
            self.after_data(lz4_decompressed(block))
        } else {
            self
        }
    }
}

/// Receives one file.
pub struct Receiver {
    place: Option<String>,
    expected: Option<String>,
    created: bool,
    saving: bool,
    hasher: FileHasher,
    bytes: u64,
}

impl View for Receiver {
    type V = ReceiverView;

    closed spec fn view(&self) -> ReceiverView {
        ReceiverView {
            place: text_of(self.place),
            expected: text_of(self.expected),
            created: self.created,
            saving: self.saving,
            content: self.hasher@,
        }
    }
}

fn copy_text(text: &Option<String>) -> (copy: Option<String>)
    ensures
        text_of(copy) == text_of(*text),
{
    match text {
        Some(text) => Some(text.clone()),
        None => None,
    }
}

impl Receiver {
    /// The number of bytes is that of the content.
    pub closed spec fn wf(self) -> bool {
        self.bytes == self.hasher@.len()
    }

    /// Whether the place and the announced hash are those of before.
    pub open spec fn kept_its_file(self, before: Receiver) -> bool {
        self@.place == before@.place && self@.expected == before@.expected
    }

    /// Starts to receive the content of a file.
    pub fn new(path: &str, expected: Option<String>) -> (receiver: Receiver)
        ensures
            receiver.wf(),
            receiver@ == ReceiverView::fresh(path@, text_of(expected)),
            receiver@.place == (if is_contained(path@) {
                Some("received_files/"@ + path@)
            } else {
                None
            }),
            receiver@.saving == is_contained(path@) && !receiver@.created && receiver@.content.len() == 0,
            match (receiver@.expected, expected) {
                (Some(hash), Some(own)) => hash == own@,
                (None, None) => true,
                _ => false,
            },
    {
        proof {
            places_by_text();
        }
        let place = match build_safe_path(RECEIVED_FILES, path) {
            Ok(place) => Some(place),
            Err(_) => None,
        };
        let saving = place.is_some();
        Receiver { place, expected, created: false, saving, hasher: FileHasher::new(), bytes: 0 }
    }

    /// Where the file is to be created, unless its path was refused.
    pub fn place(&self) -> (place: Option<&String>)
        ensures
            match place {
                Some(place) => self@.place == Some(place@),
                None => self@.place is None,
            },
    {
        self.place.as_ref()
    }

    /// Whether the content is still wanted.
    pub fn is_saving(&self) -> (saving: bool)
        ensures
            saving == self@.saving,
    {
        self.saving
    }

    /// The hash of the content so far.
    pub fn hash(&self) -> (hash: String)
        ensures
            hash@ == content_hash(self@.content),
            hash@.len() == 64,
    {
        self.hasher.finish()
    }

    /// The number of bytes of the content so far.
    pub fn bytes(&self) -> (bytes: u64)
        requires
            self.wf(),
        ensures
            bytes == self@.content.len(),
    {
        self.bytes
    }

    /// Takes note whether the file could be created.
    pub fn on_creation(&mut self, done: bool)
        requires
            old(self).wf(),
            old(self)@.saving,
        ensures
            final(self).wf(),
            final(self)@ == old(self)@.after_creation(done),
            final(self)@.created == done && final(self)@.saving == done,
            final(self).kept_its_file(*old(self)) && final(self)@.content == old(self)@.content,
    {
        self.created = done;
        self.saving = done;
    }

    /// Takes the next length.
    pub fn on_length(&self, len: u32) -> (action: LengthAction)
        requires
            self.wf(),
            self@.is_ready(),
        ensures
            action@ == self@.on_length(len),
            match action {
                LengthAction::ReadBlock { len: own } => own == len && 0 < len <= 1048576,
                LengthAction::Finish { outcome: FileOutcome::Saved { bytes }, remove } => {
                    &&& len == 0 && self@.saving && remove is None
                    &&& bytes == self@.content.len()
                    &&& self@.expected is None || self@.expected == Some(content_hash(self@.content))
                },
                LengthAction::Finish { outcome: FileOutcome::Rejected, remove } => {
                    &&& len == 0
                    &&& self@.saving ==> self@.expected is Some && self@.expected != Some(content_hash(self@.content))
                    &&& text_of(remove) == (if self@.created {
                        self@.place
                    } else {
                        None
                    })
                },
                LengthAction::Abort { remove, message } => {
                    &&& len > 1048576
                    &&& text_of(remove) == (if self@.saving {
                        self@.place
                    } else {
                        None
                    })
                    &&& self@.saving ==> message@ == "Chunk length exceeded limit"@
                    &&& !self@.saving ==> message@ == "Chunk length "@ + decimal(len as nat) + " exceeds the "@ + decimal(
                        1048576,
                    ) + "-byte limit"@
                },
            },
    {
        if len == 0 {
            let outcome = if self.saving {
                judge(&self.expected, &self.hasher.finish(), self.bytes)
            } else {
                FileOutcome::Rejected
            };
            let rejected = match outcome {
                FileOutcome::Rejected => true,
                FileOutcome::Saved { bytes: _ } => false,
            };
            let remove = if rejected && self.created {
                copy_text(&self.place)
            } else {
                None
            };
            LengthAction::Finish { outcome, remove }
        } else if len > MAX_CHUNK_LEN {
            let remove = if self.saving {
                copy_text(&self.place)
            } else {
                None
            };
            LengthAction::Abort { remove, message: tell_abort(self.saving, len) }
        } else {
            LengthAction::ReadBlock { len }
        }
    }

    /// Takes the next block and returns what is to be written to the file, if
    /// anything. The bytes of the content are counted in 64 bits, and a block
    /// brings at most as many as 32 bits can count.
    pub fn on_block(&mut self, block: &[u8]) -> (write: Option<Vec<u8>>)
        requires
            old(self).wf(),
            old(self)@.is_ready(),
            is_sendable(block@),
            old(self)@.saving ==> is_allocatable(block@) && old(self)@.content.len() + u32::MAX <= u64::MAX,
        ensures
            final(self).wf(),
            final(self)@ == old(self)@.after_block(block@),
            match write {
                Some(data) => old(self)@.saving && lz4_decompressed(block@) == Some(data@) && block@.len() >= 4
                    && data@.len() <= size_in_front(block@),
                None => !old(self)@.saving || lz4_decompressed(block@) is None,
            },
            final(self).kept_its_file(*old(self)) && final(self)@.created == old(self)@.created,
            match write {
                Some(data) => final(self)@.saving && final(self)@.content == old(self)@.content + data@,
                None => !final(self)@.saving && final(self)@.content == old(self)@.content,
            },
    {
        if self.saving {
            self.on_data(decompress_chunk(block))
        } else {
            None
        }
    }

    /// Takes the data of the next block and returns it, if it is to be written
    /// to the file.
    pub fn on_data(&mut self, data: Result<Vec<u8>, CorruptChunk>) -> (write: Option<Vec<u8>>)
        requires
            old(self).wf(),
            old(self)@.saving,
            data matches Ok(data) ==> old(self)@.content.len() + data@.len() <= u64::MAX,
        ensures
            final(self).wf(),
            match data {
                Ok(data) => final(self)@ == old(self)@.after_data(Some(data@)) && write == Some(data),
                Err(_) => final(self)@ == old(self)@.after_data(None) && write is None,
            },
            final(self).kept_its_file(*old(self)) && final(self)@.created == old(self)@.created,
            match data {
                Ok(data) => final(self)@.saving && final(self)@.content == old(self)@.content + data@,
                Err(_) => !final(self)@.saving && final(self)@.content == old(self)@.content,
            },
    {
        match data {
            Ok(data) => {
                self.hasher.absorb(data.as_slice());
                self.bytes = self.bytes + data.len() as u64;
                Some(data)
            },
            Err(_) => {
                self.saving = false;
                None
            },
        }
    }

    /// Takes note that data could not be written to the file. As after a corrupt
    /// block, the rest of the stream is discarded and the file is not kept.
    pub fn on_write_failed(&mut self)
        requires
            old(self).wf(),
            old(self)@.saving,
        ensures
            final(self).wf(),
            final(self)@ == old(self)@.after_data(None),
            final(self).kept_its_file(*old(self)) && final(self)@.created == old(self)@.created,
            !final(self)@.saving && final(self)@.content == old(self)@.content,
    {
        self.saving = false;
    }
}

/// Where the reception of a file leaves the stream that it reads from.
pub enum Reception {
    /// The file is dealt with, and the stream goes on with `rest`.
    Finished { file: ReceiverView, outcome: FileOutcome, remove: Option<Seq<char>>, rest: Seq<u8> },
    /// The connection is closed.
    Aborted { remove: Option<Seq<char>>, message: Seq<char> },
    /// More of the stream is needed.
    Incomplete,
}

/// The reception of a file from a stream: lengths and blocks are taken in turn
/// until the reception is over.
pub open spec fn reception(file: ReceiverView, stream: Seq<u8>) -> Reception
    decreases stream.len(),
{
    if stream.len() < 4 {
        Reception::Incomplete
    } else {
        match file.on_length(be_value(stream.take(4))) {
            LengthActionView::Finish { outcome, remove } => Reception::Finished {
                file,
                outcome,
                remove,
                rest: stream.skip(4),
            },
            LengthActionView::Abort { remove, message } => Reception::Aborted { remove, message },
            LengthActionView::ReadBlock { len } => if stream.len() < 4 + len {
                Reception::Incomplete
            } else {
                reception(file.after_block(stream.subrange(4, 4 + len)), stream.skip(4 + len))
            },
        }
    }
}

/// How far the stream of one file goes.
pub enum StreamEnd {
    /// The end mark was found, and the stream goes on with `rest`.
    Found { rest: Seq<u8> },
    /// A length is over the limit.
    Oversized { len: u32 },
    /// More of the stream is needed.
    Incomplete,
}

/// The end of the stream of one file, whatever its blocks hold.
pub open spec fn stream_end(stream: Seq<u8>) -> StreamEnd
    decreases stream.len(),
{
    if stream.len() < 4 {
        StreamEnd::Incomplete
    } else {
        let len = be_value(stream.take(4));
        if len == 0 {
            StreamEnd::Found { rest: stream.skip(4) }
        } else if len > MAX_CHUNK_LEN {
            StreamEnd::Oversized { len }
        } else if stream.len() < 4 + len {
            StreamEnd::Incomplete
        } else {
            stream_end(stream.skip(4 + len))
        }
    }
}

/// A rejected file leaves the stream where an accepted one does: right behind
/// the end mark. Nothing but a length over the limit closes the connection.
pub proof fn reception_stays_aligned(file: ReceiverView, stream: Seq<u8>)
    ensures
        match stream_end(stream) {
            StreamEnd::Found { rest } => reception(file, stream) is Finished && reception(file, stream)->rest
                == rest,
            StreamEnd::Oversized { len } => reception(file, stream) matches Reception::Aborted { message, .. } && (
            message == abort_message(true, len) || message == abort_message(false, len)),
            StreamEnd::Incomplete => reception(file, stream) is Incomplete,
        },
    decreases stream.len(),
{
    if stream.len() >= 4 {
        let len = be_value(stream.take(4));
        if 0 < len <= MAX_CHUNK_LEN && stream.len() >= 4 + len {
            reception_stays_aligned(file.after_block(stream.subrange(4, 4 + len)), stream.skip(4 + len));
        }
    }
}

/// A file is kept only if its content has the hash that was announced for it,
/// or if none was, and all of it is counted. The file of a rejected content is
/// removed. Along the way the file stays in its place, and its content only
/// grows.
pub proof fn kept_files_are_verified(start: ReceiverView, stream: Seq<u8>)
    requires
        start.is_ready(),
    ensures
        reception(start, stream) matches Reception::Finished { file, outcome, remove, .. } ==> {
            &&& file.place == start.place && file.expected == start.expected && file.created == start.created
            &&& start.content.is_prefix_of(file.content)
            &&& outcome matches FileOutcome::Saved { bytes } ==> {
                &&& start.saving && file.saving
                &&& file.expected is None || file.expected == Some(content_hash(file.content))
                &&& bytes == file.content.len() as u64
                &&& remove is None
            }
            &&& outcome is Rejected ==> remove == (if start.created {
                start.place
            } else {
                None
            })
        },
    decreases stream.len(),
{
    if stream.len() >= 4 {
        let len = be_value(stream.take(4));
        if 0 < len <= MAX_CHUNK_LEN && stream.len() >= 4 + len {
            let next = start.after_block(stream.subrange(4, 4 + len));
            kept_files_are_verified(next, stream.skip(4 + len));
            if let Reception::Finished { file, .. } = reception(start, stream) {
                assert(start.content =~= file.content.subrange(0, start.content.len() as int)) by {
                    assert(next.content =~= file.content.subrange(0, next.content.len() as int));
                }
            }
        } else {
            assert(start.content =~= start.content.subrange(0, start.content.len() as int));
        }
    }
}

/// Of a file that is not wanted nothing is written, and it is rejected.
pub proof fn unwanted_files_are_discarded(start: ReceiverView, stream: Seq<u8>)
    requires
        !start.saving,
    ensures
        reception(start, stream) matches Reception::Finished { file, outcome, .. } ==> file == start
            && outcome is Rejected,
    decreases stream.len(),
{
    if stream.len() >= 4 {
        let len = be_value(stream.take(4));
        if 0 < len <= MAX_CHUNK_LEN && stream.len() >= 4 + len {
            unwanted_files_are_discarded(start, stream.skip(4 + len));
        }
    }
}

/// A block that is corrupt, or that cannot be written, costs the file and
/// nothing else: the file is removed and rejected, and the stream goes on right
/// behind its end mark.
pub proof fn lost_data_costs_only_the_file(file: ReceiverView, stream: Seq<u8>)
    requires
        file.created,
    ensures
        stream_end(stream) matches StreamEnd::Found { rest } ==> reception(file.after_data(None), stream) == (
        Reception::Finished {
            file: file.after_data(None),
            outcome: FileOutcome::Rejected,
            remove: file.place,
            rest,
        }),
{
    let lost = file.after_data(None);
    reception_stays_aligned(lost, stream);
    unwanted_files_are_discarded(lost, stream);
    kept_files_are_verified(lost, stream);
}

/// Whether each frame carries the piece at its place.
pub open spec fn all_carry(frames: Seq<Seq<u8>>, pieces: Seq<Seq<u8>>) -> bool {
    &&& frames.len() == pieces.len()
    &&& forall|i: int| 0 <= i < frames.len() ==> carries(#[trigger] frames[i], pieces[i])
}

/// What the sender of a file puts on the wire: the frames of its pieces, then
/// the end mark.
pub open spec fn sent_stream(frames: Seq<Seq<u8>>) -> Seq<u8> {
    frames.flatten() + be_bytes(0)
}

/// Reading gives back what was written: the content that was received is the
/// content that was sent, however it was cut into pieces, it is judged by its
/// own hash, and the stream goes on right behind it.
pub proof fn received_is_what_was_sent(
    file: ReceiverView,
    pieces: Seq<Seq<u8>>,
    frames: Seq<Seq<u8>>,
    rest: Seq<u8>,
)
    requires
        file.saving,
        all_carry(frames, pieces),
    ensures
        ({
            let content = file.content + pieces.flatten();
            let whole = ReceiverView { content, ..file };
            let outcome = judged(file.expected, content_hash(content), content.len() as u64);
            reception(file, sent_stream(frames) + rest) == (Reception::Finished {
                file: whole,
                outcome,
                remove: if outcome is Rejected && file.created {
                    file.place
                } else {
                    None
                },
                rest,
            })
        }),
    decreases frames.len(),
{
    let stream = sent_stream(frames) + rest;
    if frames.len() == 0 {
        be_round_trip(0);
        assert(stream.take(4) =~= be_bytes(0));
        assert(stream.skip(4) =~= rest);
        assert(file.content + pieces.flatten() =~= file.content);
    } else {
        let frame = frames.first();
        let piece = pieces.first();
        assert(carries(frames[0], pieces[0]));
        let block = choose|block: Seq<u8>| #[trigger]
            framed(block) == frame && is_sendable(block) && holds(block, piece);
        let len = block.len() as u32;
        be_round_trip(len);
        let tail = frames.drop_first();
        assert(stream =~= be_bytes(len) + block + (sent_stream(tail) + rest));
        assert(stream.take(4) =~= be_bytes(len));
        assert(stream.subrange(4, 4 + len) =~= block);
        assert(stream.skip(4 + len) =~= sent_stream(tail) + rest);
        let next = file.after_block(block);
        assert(next == ReceiverView { content: file.content + piece, ..file });
        assert forall|i: int| 0 <= i < tail.len() implies carries(#[trigger] tail[i], pieces.drop_first()[i]) by {
            assert(carries(frames[i + 1], pieces[i + 1]));
        }
        received_is_what_was_sent(next, pieces.drop_first(), tail, rest);
        assert(next.content + pieces.drop_first().flatten() =~= file.content + pieces.flatten());
    }
}

/// A file that arrives as it was announced is saved, and the stream goes on
/// right behind it.
pub proof fn honest_transfer_is_saved(
    path: Seq<char>,
    pieces: Seq<Seq<u8>>,
    frames: Seq<Seq<u8>>,
    rest: Seq<u8>,
)
    requires
        is_contained(path),
        all_carry(frames, pieces),
    ensures
        ({
            let content = pieces.flatten();
            let start = ReceiverView::fresh(path, Some(content_hash(content))).after_creation(true);
            reception(start, sent_stream(frames) + rest) == (Reception::Finished {
                file: ReceiverView { content, ..start },
                outcome: FileOutcome::Saved { bytes: content.len() as u64 },
                remove: None,
                rest,
            })
        }),
{
    let start = ReceiverView::fresh(path, Some(content_hash(pieces.flatten()))).after_creation(true);
    received_is_what_was_sent(start, pieces, frames, rest);
    assert(start.content + pieces.flatten() =~= pieces.flatten());
}

} // verus!
