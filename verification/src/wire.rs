//! How the content of a file travels: in pieces, each compressed and preceded
//! by its length, with a length of zero after the last.

use vstd::prelude::*;

verus! {

/// Pieces are never longer than 64 KB before compression, and compression
/// never expands them by much. A length beyond this is that of a corrupt
/// stream, or a hostile one.
pub const MAX_CHUNK_LEN: u32 = 1024 * 1024;

/// The most that is sent in one piece.
pub const PIECE_SIZE: usize = 65536;

/// The error with which the `lz4_flex` crate reports data that it cannot
/// decompress.
#[verifier::external_type_specification]
#[verifier::external_body]
pub struct ExDecompressError(lz4_flex::block::DecompressError);

/// What an LZ4 block with its size in front decompresses to, if it is valid.
pub uninterp spec fn lz4_decompressed(block: Seq<u8>) -> Option<Seq<u8>>;

/// The size that stands in front of a block, the least significant byte first.
pub open spec fn size_in_front(block: Seq<u8>) -> int {
    block[0] + block[1] * 0x100 + block[2] * 0x1_0000 + block[3] * 0x100_0000
}

/// `lz4_flex::compress_prepend_size` makes a block which
/// `lz4_flex::decompress_size_prepended` turns back into the same data. The
/// size of the data stands in front, in four bytes. The block is longer than
/// that, and no longer than the buffer that the function reserves for the
/// worst case.
#[verifier::external_body]
fn compress(data: &[u8]) -> (block: Vec<u8>)
    requires
        data@.len() <= 0x10_0000,
    ensures
        lz4_decompressed(block@) == Some(data@),
        size_in_front(block@) == data@.len(),
        4 < block@.len() <= 4 + 20 + data@.len() * 110 / 100,
{
    lz4_flex::compress_prepend_size(data)
}

/// Whether there can be an allocation of the size that stands in front of a
/// block, if one does. On a machine of 64 bits there always can.
pub open spec fn is_allocatable(block: Seq<u8>) -> bool {
    block.len() >= 4 ==> size_in_front(block) <= isize::MAX
}

/// Whether a block can be decompressed on this machine.
pub fn check_allocatable(block: &[u8]) -> (can: bool)
    ensures
        can == is_allocatable(block@),
        can <==> (block@.len() >= 4 ==> block@[0] + block@[1] * 0x100 + block@[2] * 0x1_0000 + block@[3] * 0x100_0000
            <= isize::MAX),
{
    if block.len() < 4 {
        return true;
    }
    let size: u64 = block[0] as u64 + block[1] as u64 * 0x100 + block[2] as u64 * 0x1_0000 + block[3] as u64
        * 0x100_0000;
    size <= isize::MAX as u64
}

/// `lz4_flex::decompress_size_prepended` returns the data of a valid block,
/// which is no longer than the size in front says, and an error for any other
/// block, among them those too short for a size. The result depends on the
/// block alone. The function allocates as much as the size in front says before
/// it looks any further.
#[verifier::external_body]
fn decompress(block: &[u8]) -> (data: Result<Vec<u8>, lz4_flex::block::DecompressError>)
    requires
        block@.len() <= 0x10_0000,
        is_allocatable(block@),
    ensures
        match data {
            Ok(data) => lz4_decompressed(block@) == Some(data@) && block@.len() >= 4 && data@.len()
                <= size_in_front(block@),
            Err(_) => lz4_decompressed(block@) is None,
        },
{
    lz4_flex::decompress_size_prepended(block)
}

/// A block that is not valid compressed data.
#[derive(Debug)]
pub struct CorruptChunk;

/// The data of a block.
pub fn decompress_chunk(block: &[u8]) -> (data: Result<Vec<u8>, CorruptChunk>)
    requires
        block@.len() <= MAX_CHUNK_LEN,
        is_allocatable(block@),
    ensures
        match data {
            Ok(data) => lz4_decompressed(block@) == Some(data@) && block@.len() >= 4 && data@.len()
                <= size_in_front(block@),
            Err(_) => lz4_decompressed(block@) is None,
        },
{
    match decompress(block) {
        Ok(data) => Ok(data),
        Err(_) => Err(CorruptChunk),
    }
}

/// A number in four bytes, the most significant first.
pub open spec fn be_bytes(n: u32) -> Seq<u8> {
    seq![
        (n / 0x100_0000) as u8,
        (n / 0x1_0000 % 0x100) as u8,
        (n / 0x100 % 0x100) as u8,
        (n % 0x100) as u8,
    ]
}

/// The number that four bytes stand for, the most significant first.
pub open spec fn be_value(bytes: Seq<u8>) -> u32 {
    (bytes[0] * 0x100_0000 + bytes[1] * 0x1_0000 + bytes[2] * 0x100 + bytes[3]) as u32
}

/// Reading gives back the length that was written.
pub proof fn be_round_trip(n: u32)
    ensures
        be_value(be_bytes(n)) == n,
        be_bytes(n).len() == 4,
        n == be_bytes(n)[0] * 0x100_0000 + be_bytes(n)[1] * 0x1_0000 + be_bytes(n)[2] * 0x100 + be_bytes(n)[3],
{
}

/// The length that stands in front of a piece.
pub fn decode_length(bytes: &[u8; 4]) -> (len: u32)
    ensures
        len == be_value(bytes@),
        len == bytes@[0] * 0x100_0000 + bytes@[1] * 0x1_0000 + bytes@[2] * 0x100 + bytes@[3],
{
    bytes[0] as u32 * 0x100_0000 + bytes[1] as u32 * 0x1_0000 + bytes[2] as u32 * 0x100 + bytes[3] as u32
}

/// A block on the wire: its length, then itself.
pub open spec fn framed(block: Seq<u8>) -> Seq<u8> {
    be_bytes(block.len() as u32) + block
}

/// A block that a receiver takes: neither empty, which would end the stream,
/// nor over the limit.
pub open spec fn is_sendable(block: Seq<u8>) -> bool {
    0 < block.len() <= MAX_CHUNK_LEN
}

/// Whether a block holds the given data, and says its size in front.
pub open spec fn holds(block: Seq<u8>, data: Seq<u8>) -> bool {
    lz4_decompressed(block) == Some(data) && block.len() >= 4 && size_in_front(block) == data.len()
}

/// Whether a frame carries the given data, as a sendable block.
pub open spec fn carries(frame: Seq<u8>, data: Seq<u8>) -> bool {
    exists|block: Seq<u8>| #[trigger] framed(block) == frame && is_sendable(block) && holds(block, data)
}

/// The frame to send for what one read of the file returned: the data,
/// compressed, or the end of the stream if the read returned nothing.
pub fn encode_piece(data: &[u8]) -> (frame: Vec<u8>)
    requires
        data@.len() <= PIECE_SIZE,
    ensures
        data@.len() == 0 ==> frame@ == be_bytes(0),
        data@.len() > 0 ==> carries(frame@, data@),
        // The first four bytes say how many follow, and those hold the data.
        data@.len() == 0 ==> frame@ == seq![0u8, 0, 0, 0],
        data@.len() > 0 ==> {
            &&& frame@.len() > 4
            &&& frame@.len() - 4 == frame@[0] * 0x100_0000 + frame@[1] * 0x1_0000 + frame@[2] * 0x100 + frame@[3]
            &&& lz4_decompressed(frame@.skip(4)) == Some(data@)
        },
{
    if data.len() == 0 {
        let end = encode_length(0);
        assert(end@ =~= seq![0u8, 0, 0, 0]);
        return end;
    }
    let block = compress(data);
    let frame = frame_block(block);
    assert(framed(block@) == frame@);
    assert(frame@.skip(4) =~= block@);
    frame
}

/// A block as it travels.
pub fn frame_block(block: Vec<u8>) -> (frame: Vec<u8>)
    requires
        is_sendable(block@),
    ensures
        frame@ == framed(block@),
        frame@.len() == 4 + block@.len(),
        frame@.skip(4) == block@,
        block@.len() == frame@[0] * 0x100_0000 + frame@[1] * 0x1_0000 + frame@[2] * 0x100 + frame@[3],
{
    let ghost sent = block@;
    let mut block = block;
    let mut frame = encode_length(block.len() as u32);
    frame.append(&mut block);
    assert(frame@.skip(4) =~= sent);
    frame
}

/// A length as it travels.
fn encode_length(len: u32) -> (bytes: Vec<u8>)
    ensures
        bytes@ == be_bytes(len),
{
    let mut bytes: Vec<u8> = Vec::new();
    bytes.push((len / 0x100_0000) as u8);
    bytes.push((len / 0x1_0000 % 0x100) as u8);
    bytes.push((len / 0x100 % 0x100) as u8);
    bytes.push((len % 0x100) as u8);
    bytes
}

} // verus!
