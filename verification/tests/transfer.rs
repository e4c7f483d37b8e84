use faalsink::digest::FileHasher;
use faalsink::file_scanner::{build_manifest, WalkedEntry, RECEIVED_FILES};
use faalsink::receiver::{judge, FileOutcome, LengthAction, Receiver};
use faalsink::wire::{
    check_allocatable, decode_length, decompress_chunk, encode_piece, frame_block, CorruptChunk, MAX_CHUNK_LEN,
    PIECE_SIZE,
};

fn hash_of(content: &[u8]) -> String {
    let mut hasher = FileHasher::new();
    hasher.absorb(content);
    hasher.finish()
}

fn send(content: &[u8], size: usize) -> Vec<u8> {
    let mut stream = Vec::new();
    for piece in content.chunks(size) {
        stream.extend(encode_piece(piece));
    }
    stream.extend(encode_piece(&[]));
    stream
}

enum Ended {
    Finished { outcome: FileOutcome, removed: bool, written: Vec<u8>, rest: Vec<u8> },
    Aborted { removed: bool, message: String },
}

fn receive(mut receiver: Receiver, stream: &[u8]) -> Ended {
    let mut written = Vec::new();
    let mut at = 0;
    loop {
        let len = decode_length(stream[at..at + 4].try_into().unwrap());
        at += 4;
        match receiver.on_length(len) {
            LengthAction::ReadBlock { len } => {
                let block = &stream[at..at + len as usize];
                at += len as usize;
                if let Some(data) = receiver.on_block(block) {
                    written.extend(data);
                }
            }
            LengthAction::Finish { outcome, remove } => {
                let rest = stream[at..].to_vec();
                return Ended::Finished { outcome, removed: remove.is_some(), written, rest };
            }
            LengthAction::Abort { remove, message } => return Ended::Aborted { removed: remove.is_some(), message },
        }
    }
}

fn receiver_for(path: &str, hash: Option<String>) -> Receiver {
    let mut receiver = Receiver::new(path, hash);
    if receiver.place().is_some() {
        receiver.on_creation(true);
    }
    receiver
}

fn sample(len: usize) -> Vec<u8> {
    (0..len).map(|i| (i * i / 7 % 251) as u8).collect()
}

#[test]
fn hash_of_nothing() {
    assert_eq!(FileHasher::new().finish(), "af1349b9f5f9a1a6a0404dea36dcc9499bcb25c9adc112b7cc9a93cae41f3262");
}

#[test]
fn hash_is_that_of_the_whole_content() {
    let content = sample(200_000);
    let mut hasher = FileHasher::new();
    for piece in content.chunks(65536) {
        hasher.absorb(piece);
    }
    assert_eq!(hasher.finish(), blake3::hash(&content).to_string());
    assert_eq!(hash_of(&content), hasher.finish());
    assert_eq!(hash_of(b"abc"), "6437b3ac38465133ffb63b75273a8db548c558465d79db03fd359c6cd5bd9d85");
}

#[test]
fn different_hashes_have_different_texts() {
    let texts = [hash_of(b""), hash_of(b"a"), hash_of(b"b")];
    assert_ne!(texts[0], texts[1]);
    assert_ne!(texts[1], texts[2]);
    for text in texts {
        assert_eq!(text.len(), 64);
        assert!(text.chars().all(|c| matches!(c, '0'..='9' | 'a'..='f')));
    }
}

#[test]
fn length_travels_with_the_most_significant_byte_first() {
    assert_eq!(decode_length(&[0, 1, 2, 3]), 0x0001_0203);
    assert_eq!(decode_length(&[0xff, 0xfe, 0xfd, 0xfc]), 0xfffe_fdfc);
    assert_eq!(encode_piece(&[]), vec![0, 0, 0, 0]);
}

#[test]
fn frame_is_length_and_block() {
    let frame = encode_piece(b"hello");
    let len = decode_length(frame[..4].try_into().unwrap());
    assert_eq!(len as usize, frame.len() - 4);
    assert_ne!(&frame[4..], b"hello");
    assert_eq!(lz4_flex::decompress_size_prepended(&frame[4..]).unwrap(), b"hello");
    assert_eq!(decompress_chunk(&frame[4..]).unwrap(), b"hello");
}

#[test]
fn block_is_framed_as_it_is() {
    assert_eq!(frame_block(vec![7, 8, 9]), vec![0, 0, 0, 3, 7, 8, 9]);
    assert_eq!(frame_block(vec![1; 0x1_0203])[..5], [0, 1, 2, 3, 1]);
}

#[test]
fn largest_piece_stays_under_the_limit() {
    let mut noise: u32 = 1;
    let piece: Vec<u8> = (0..PIECE_SIZE)
        .map(|_| {
            noise = noise.wrapping_mul(1664525).wrapping_add(1013904223);
            (noise >> 24) as u8
        })
        .collect();
    let frame = encode_piece(&piece);
    assert!(frame.len() - 4 <= MAX_CHUNK_LEN as usize);
    assert_eq!(decompress_chunk(&frame[4..]).unwrap(), piece);
}

#[test]
fn corrupt_block_is_told() {
    assert!(matches!(decompress_chunk(&[1, 2]), Err(CorruptChunk)));
    assert!(matches!(decompress_chunk(&[5, 0, 0, 0, 0xf0]), Err(CorruptChunk)));
}

#[test]
fn small_sizes_can_be_allocated() {
    assert!(check_allocatable(&[]));
    assert!(check_allocatable(&[0xff, 0xff, 0xff]));
    assert!(check_allocatable(&[0xff, 0xff, 0xff, 0x7f, 0]));
    assert_eq!(check_allocatable(&[0, 0, 0, 0x80]), isize::MAX as u64 >= 0x8000_0000);
}

#[test]
fn received_content_is_what_was_sent() {
    for len in [0, 1, 12, 13, 65536, 65537, 200_000] {
        let content = sample(len);
        for size in [1000, PIECE_SIZE] {
            let mut stream = send(&content, size);
            stream.extend(b"\"SyncComplete\"\n");
            match receive(receiver_for("a/b", Some(hash_of(&content))), &stream) {
                Ended::Finished { outcome, removed, written, rest } => {
                    assert_eq!(outcome, FileOutcome::Saved { bytes: len as u64 });
                    assert!(!removed);
                    assert_eq!(written, content);
                    assert_eq!(rest, b"\"SyncComplete\"\n");
                }
                Ended::Aborted { .. } => panic!("aborted"),
            }
        }
    }
}

#[test]
fn content_without_announced_hash_is_saved() {
    match receive(receiver_for("a", None), &send(b"data", 3)) {
        Ended::Finished { outcome, removed, .. } => {
            assert_eq!(outcome, FileOutcome::Saved { bytes: 4 });
            assert!(!removed);
        }
        Ended::Aborted { .. } => panic!("aborted"),
    }
}

#[test]
fn hash_mismatch_removes_the_file() {
    match receive(receiver_for("a", Some(hash_of(b"other"))), &send(b"data", 64)) {
        Ended::Finished { outcome, removed, written, .. } => {
            assert_eq!(outcome, FileOutcome::Rejected);
            assert!(removed);
            assert_eq!(written, b"data");
        }
        Ended::Aborted { .. } => panic!("aborted"),
    }
}

#[test]
fn refused_path_is_drained() {
    let mut stream = send(&sample(100_000), PIECE_SIZE);
    stream.extend(b"next");
    let receiver = Receiver::new("../a", None);
    assert!(receiver.place().is_none());
    assert!(!receiver.is_saving());
    match receive(receiver, &stream) {
        Ended::Finished { outcome, removed, written, rest } => {
            assert_eq!(outcome, FileOutcome::Rejected);
            assert!(!removed);
            assert!(written.is_empty());
            assert_eq!(rest, b"next");
        }
        Ended::Aborted { .. } => panic!("aborted"),
    }
}

#[test]
fn file_that_cannot_be_created_is_drained() {
    let mut stream = send(b"data", 64);
    stream.extend(b"next");
    let mut receiver = Receiver::new("a", None);
    assert_eq!(receiver.place().map(|place| place.as_str()), Some("received_files/a"));
    receiver.on_creation(false);
    match receive(receiver, &stream) {
        Ended::Finished { outcome, removed, written, rest } => {
            assert_eq!(outcome, FileOutcome::Rejected);
            assert!(!removed);
            assert!(written.is_empty());
            assert_eq!(rest, b"next");
        }
        Ended::Aborted { .. } => panic!("aborted"),
    }
}

#[test]
fn corrupt_block_drains_the_rest_and_removes_the_file() {
    let mut stream = encode_piece(b"good");
    stream.extend([0, 0, 0, 5, 9, 0, 0, 0, 0xf0]);
    stream.extend(encode_piece(b"more"));
    stream.extend(encode_piece(&[]));
    stream.extend(b"next");
    match receive(receiver_for("a", None), &stream) {
        Ended::Finished { outcome, removed, written, rest } => {
            assert_eq!(outcome, FileOutcome::Rejected);
            assert!(removed);
            assert_eq!(written, b"good");
            assert_eq!(rest, b"next");
        }
        Ended::Aborted { .. } => panic!("aborted"),
    }
}

#[test]
fn failed_write_drains_the_rest_and_removes_the_file() {
    let mut receiver = receiver_for("a", Some(hash_of(b"lost")));
    assert_eq!(receiver.on_block(&encode_piece(b"lost")[4..]), Some(b"lost".to_vec()));
    receiver.on_write_failed();
    assert!(!receiver.is_saving());
    let mut stream = encode_piece(b"more");
    stream.extend(encode_piece(&[]));
    stream.extend(b"next");
    match receive(receiver, &stream) {
        Ended::Finished { outcome, removed, written, rest } => {
            assert_eq!(outcome, FileOutcome::Rejected);
            assert!(removed);
            assert_eq!(written, b"");
            assert_eq!(rest, b"next");
        }
        Ended::Aborted { .. } => panic!("aborted"),
    }
}

#[test]
fn length_over_the_limit_closes_the_connection() {
    let over = (MAX_CHUNK_LEN + 1).to_be_bytes();
    match receive(receiver_for("a", None), &over) {
        Ended::Aborted { removed, message } => {
            assert!(removed);
            assert_eq!(message, "Chunk length exceeded limit");
        }
        Ended::Finished { .. } => panic!("finished"),
    }
    match receive(Receiver::new("/a", None), &over) {
        Ended::Aborted { removed, message } => {
            assert!(!removed);
            assert_eq!(message, "Chunk length 1048577 exceeds the 1048576-byte limit");
        }
        Ended::Finished { .. } => panic!("finished"),
    }
}

#[test]
fn length_over_the_limit_behind_a_corrupt_block_leaves_the_file() {
    let mut stream = vec![0, 0, 0, 1, 0xf0];
    stream.extend(u32::MAX.to_be_bytes());
    match receive(receiver_for("a", None), &stream) {
        Ended::Aborted { removed, message } => {
            assert!(!removed);
            assert_eq!(message, "Chunk length 4294967295 exceeds the 1048576-byte limit");
        }
        Ended::Finished { .. } => panic!("finished"),
    }
}

#[test]
fn receiver_hashes_what_it_wrote() {
    let mut receiver = receiver_for("a", None);
    assert_eq!(receiver.hash(), hash_of(b""));
    receiver.on_block(&encode_piece(b"ab")[4..]);
    receiver.on_block(&encode_piece(b"c")[4..]);
    assert_eq!(receiver.hash(), "6437b3ac38465133ffb63b75273a8db548c558465d79db03fd359c6cd5bd9d85");
    assert_eq!(receiver.hash().len(), 64);
    assert_eq!(receiver.on_block(&[1, 2]), None);
    assert_eq!(receiver.hash(), hash_of(b"abc"));
}

#[test]
fn saved_file_is_listed_with_the_announced_hash() {
    let content = sample(100_000);
    let hash = hash_of(&content);
    let receiver = receiver_for("d/f.txt", Some(hash.clone()));
    let place = receiver.place().unwrap().clone();
    let written = match receive(receiver, &send(&content, PIECE_SIZE)) {
        Ended::Finished { outcome: FileOutcome::Saved { .. }, written, .. } => written,
        _ => panic!("not saved"),
    };
    let entries = vec![
        WalkedEntry::Directory { path: "received_files".to_string(), size: 4096 },
        WalkedEntry::Directory { path: "received_files/d".to_string(), size: 4096 },
        WalkedEntry::File { path: place, size: written.len() as u64, hash: Some(hash_of(&written)) },
    ];
    let manifest = build_manifest(RECEIVED_FILES, entries);
    assert_eq!(manifest.get("d/f.txt"), Some(&Some(hash)));
}

#[test]
fn length_at_the_limit_is_read() {
    let receiver = receiver_for("a", None);
    assert!(matches!(receiver.on_length(MAX_CHUNK_LEN), LengthAction::ReadBlock { len: 1048576 }));
    assert!(matches!(receiver.on_length(1), LengthAction::ReadBlock { len: 1 }));
}

#[test]
fn data_is_written_and_counted() {
    let mut receiver = receiver_for("a", None);
    assert_eq!(receiver.on_data(Ok(vec![1, 2, 3])), Some(vec![1, 2, 3]));
    assert_eq!(receiver.bytes(), 3);
    assert_eq!(receiver.on_data(Err(CorruptChunk)), None);
    assert_eq!(receiver.on_block(&encode_piece(b"x")[4..]), None);
    assert_eq!(receiver.bytes(), 3);
}

#[test]
fn files_are_judged_by_their_hash() {
    let hash = "h".to_string();
    assert_eq!(judge(&None, &hash, 7), FileOutcome::Saved { bytes: 7 });
    assert_eq!(judge(&Some("h".to_string()), &hash, 7), FileOutcome::Saved { bytes: 7 });
    assert_eq!(judge(&Some("H".to_string()), &hash, 7), FileOutcome::Rejected);
}
