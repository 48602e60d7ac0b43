//! Content-addressed storage of message pieces: each piece is identified by a
//! 64-bit prefix of its BLAKE3 hash and stored zstd-compressed.

use vstd::prelude::*;

verus! {

/// Pieces are compressed at zstd's highest level.
pub const ZSTD_COMPRESSION_LEVEL: i32 = 22;

/// The first eight bytes of BLAKE3's extendable output for `data`.
pub uninterp spec fn blake3_xof_prefix8(data: Seq<u8>) -> Seq<u8>;

/// What zstd's one-shot compressor produces for `data` at `level`.
pub uninterp spec fn zstd_compressed(data: Seq<u8>, level: i32) -> Seq<u8>;

/// What zstd's stream decoder produces for the frames in `data`.
pub uninterp spec fn zstd_decoded(data: Seq<u8>) -> Seq<u8>;

/// Little-endian value of eight bytes, as a two's complement `i64`.
pub open spec fn i64_from_le_bytes(b: Seq<u8>) -> i64 {
    (b[0] as int + b[1] as int * 0x100 + b[2] as int * 0x1_0000 + b[3] as int * 0x100_0000 + b[4] as int
        * 0x1_0000_0000 + b[5] as int * 0x100_0000_0000 + b[6] as int * 0x1_0000_0000_0000 + b[7] as int
        * 0x100_0000_0000_0000) as i64
}

/// Big-endian value of eight bytes, as a two's complement `i64`.
pub open spec fn i64_from_be_bytes(b: Seq<u8>) -> i64 {
    i64_from_le_bytes(b.reverse())
}

/// Value of eight bytes in the byte order of the machine the code runs on.
pub open spec fn i64_from_native_bytes(b: Seq<u8>) -> i64 {
    match vstd::endian::endianness() {
        vstd::endian::Endian::Little => i64_from_le_bytes(b),
        vstd::endian::Endian::Big => i64_from_be_bytes(b),
    }
}

/// Calls `blake3::Hasher::new`, `update` with `data`, `finalize_xof` and
/// `OutputReader::fill` on an 8-byte buffer: the result is the first eight
/// bytes of the BLAKE3 output for `data`, named `blake3_xof_prefix8`.
#[verifier::external_body]
fn blake3_xof8(data: &[u8]) -> (out: [u8; 8])
    ensures
        out@ == blake3_xof_prefix8(data@),
{
    let mut hasher = blake3::Hasher::new();
    hasher.update(data);
    let mut buf = [0u8; 8];
    hasher.finalize_xof().fill(&mut buf);
    buf
}

/// Calls `i64::from_ne_bytes`, which reads the bytes in the machine's byte order.
#[verifier::external_body]
fn i64_from_ne_bytes(b: [u8; 8]) -> (v: i64)
    ensures
        v == i64_from_native_bytes(b@),
{
    i64::from_ne_bytes(b)
}

/// Calls `zstd::bulk::compress`: the output is what zstd produces for `data`
/// at `level`. The output buffer is sized by `compress_bound`, so the only
/// failure left is running out of memory, which stops the program.
#[verifier::external_body]
fn zstd_bulk_compress(data: &[u8], level: i32) -> (r: Option<Vec<u8>>)
    requires
        1 <= level <= 22,
    ensures
        r is Some,
        r matches Some(c) ==> c@ == zstd_compressed(data@, level),
{
    zstd::bulk::compress(data, level).ok()
}

/// `data` is a frame zstd's compressor produced for some input at some level.
pub open spec fn is_zstd_frame(data: Seq<u8>) -> bool {
    exists|orig: Seq<u8>, level: i32| #[trigger] zstd_compressed(orig, level) == data
}

/// Calls `zstd::stream::copy_decode` into an empty vector. On success the
/// output is the decoding of `data`; zstd is lossless, so when `data` is what
/// the compressor produced for some input, decoding succeeds and gives that
/// input. On other bytes it may fail.
#[verifier::external_body]
fn zstd_copy_decode(data: &[u8]) -> (r: Option<Vec<u8>>)
    ensures
        is_zstd_frame(data@) ==> r is Some,
        r matches Some(d) ==> d@ == zstd_decoded(data@),
        r matches Some(d) ==> forall|orig: Seq<u8>, level: i32|
            #[trigger] zstd_compressed(orig, level) == data@ ==> d@ == orig,
{
    let mut out: Vec<u8> = Vec::new();
    match zstd::stream::copy_decode(data, &mut out) {
        Ok(()) => Some(out),
        Err(_) => None,
    }
}

/// The 64-bit key a piece of content is stored under: the first eight bytes of
/// its BLAKE3 hash, in the machine's byte order.
pub fn hash_bytes(bytes: &[u8]) -> (h: i64)
    ensures
        h == i64_from_native_bytes(blake3_xof_prefix8(bytes@)),
{
    let buf = blake3_xof8(bytes);
    i64_from_ne_bytes(buf)
}

/// The stored (compressed) form of a piece of content; always `Some`.
pub fn compress_content(content: &[u8]) -> (r: Option<Vec<u8>>)
    ensures
        r is Some,
        r matches Some(c) ==> c@ == zstd_compressed(content@, ZSTD_COMPRESSION_LEVEL),
{
    zstd_bulk_compress(content, ZSTD_COMPRESSION_LEVEL)
}

/// Appends the decoded form of a stored piece to `out`; returns `false`, leaving
/// `out` as it was, when decoding fails, which it never does on a piece the
/// compressor produced.
pub fn load_content(compressed: &[u8], out: &mut Vec<u8>) -> (ok: bool)
    ensures
        is_zstd_frame(compressed@) ==> ok,
        ok ==> final(out)@ == old(out)@ + zstd_decoded(compressed@),
        ok ==> forall|orig: Seq<u8>, level: i32|
            #[trigger] zstd_compressed(orig, level) == compressed@ ==> final(out)@ == old(out)@ + orig,
        !ok ==> final(out)@ == old(out)@,
{
    match zstd_copy_decode(compressed) {
        Some(mut d) => {
            out.append(&mut d);
            true
        },
        None => false,
    }
}

} // verus!
