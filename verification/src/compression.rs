//! zstd compression of stored bytes, at level 3.
use vstd::prelude::*;

verus! {

/// The zstd frame that `zstd::encode_all` makes of the bytes at level 3.
pub uninterp spec fn zstd_frame(data: Seq<u8>) -> Seq<u8>;

/// What `zstd::decode_all` reads out of a frame, where it can.
pub uninterp spec fn zstd_content(frame: Seq<u8>) -> Option<Seq<u8>>;

/// `zstd::encode_all` at level 3 over the bytes. Claimed: it succeeds
/// (reading a slice and writing a `Vec` cannot fail; only running out of
/// memory can stop it, and that aborts), the frame is a function of the
/// bytes alone, and decoding it gives the bytes back (zstd is lossless).
#[verifier::external_body]
fn zstd_encode(data: &[u8]) -> (r: Result<Vec<u8>, std::io::Error>)
    ensures
        r is Ok,
        r matches Ok(v) ==> v@ == zstd_frame(data@) && zstd_content(v@) == Some(data@),
{
    zstd::encode_all(data, 3)
}

/// `zstd::decode_all` over the bytes. Claimed: it succeeds exactly on a
/// valid frame, whose content it returns (`zstd_content` names that
/// content, none for bytes that are not a valid frame); reading a slice and
/// writing a `Vec` add no other way to fail.
#[verifier::external_body]
fn zstd_decode(data: &[u8]) -> (r: Result<Vec<u8>, std::io::Error>)
    ensures
        zstd_content(data@) is Some ==> r is Ok,
        r matches Ok(v) ==> zstd_content(data@) == Some(v@),
{
    zstd::decode_all(data)
}

/// What `compress` returns for the bytes: the zstd frame of them, whose
/// content is the bytes.
pub open spec fn compressed(data: Seq<u8>, r: Result<Vec<u8>, std::io::Error>) -> bool {
    &&& r is Ok
    &&& r->Ok_0@ == zstd_frame(data)
    &&& zstd_content(r->Ok_0@) == Some(data)
}

/// What `decompress` returns for the bytes: their content where they are a
/// valid frame; an error otherwise.
pub open spec fn decompressed(frame: Seq<u8>, r: Result<Vec<u8>, std::io::Error>) -> bool {
    &&& zstd_content(frame) is Some ==> r is Ok
    &&& r is Ok ==> zstd_content(frame) == Some(r->Ok_0@)
}

/// The zstd frame of the bytes at level 3; decoding it gives them back.
pub fn compress(data: &[u8]) -> (r: Result<Vec<u8>, std::io::Error>)
    ensures
        compressed(data@, r),
{
    zstd_encode(data)
}

/// The bytes a zstd frame holds; refused for bytes that are not a valid
/// frame.
pub fn decompress(data: &[u8]) -> (r: Result<Vec<u8>, std::io::Error>)
    ensures
        decompressed(data@, r),
{
    zstd_decode(data)
}

/// Decompressing what a compression returned succeeds and gives back the
/// original bytes: for `c` what `compress(x)` returns and `d` what
/// `decompress` returns for its frame, `d` is `Ok(x)`.
pub proof fn law_decompress_inverts_compress(
    data: Seq<u8>,
    c: Result<Vec<u8>, std::io::Error>,
    d: Result<Vec<u8>, std::io::Error>,
)
    requires
        compressed(data, c),
        decompressed(c->Ok_0@, d),
    ensures
        d is Ok,
        d->Ok_0@ == data,
{
}

} // verus!
