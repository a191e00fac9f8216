use vstd::prelude::*;

verus! {

/// The zstd frame that `zstd::encode_all` makes of `data` at compression level `level`.
pub uninterp spec fn zstd_frame(data: Seq<u8>, level: i32) -> Seq<u8>;

/// Calls `zstd::encode_all` on `data`. It reads an in-memory slice into a `Vec`, and
/// zstd clamps an out-of-range level, so it gives the frame for every input.
#[verifier::external_body]
pub(crate) fn zstd_compress(data: &[u8], level: i32) -> (r: Option<Vec<u8>>)
    ensures
        r is Some,
        r matches Some(f) ==> f@ == zstd_frame(data@, level),
{
    zstd::encode_all(data, level).ok()
}

/// What reading at most `limit` bytes out of a zstd decoder over `frame` gives: the bytes
/// read, or `None` where the decoder reports an error first.
pub uninterp spec fn zstd_decoded(frame: Seq<u8>, limit: u64) -> Option<Seq<u8>>;

/// Reads at most `limit` bytes out of `zstd::stream::read::Decoder` over `frame`.
/// Decoding is deterministic, so the outcome is `zstd_decoded` of the arguments. zstd is
/// lossless: a frame that `encode_all` made of some data always decodes, and what is read
/// is the first `limit` bytes of that data (all of it where it is shorter). Of other input
/// only the length bound is stated.
#[verifier::external_body]
pub(crate) fn zstd_decompress_prefix(frame: &[u8], limit: u64) -> (r: Option<Vec<u8>>)
    ensures
        r matches Some(v) ==> zstd_decoded(frame@, limit) == Some(v@),
        r is None ==> zstd_decoded(frame@, limit) is None,
        r matches Some(v) ==> v@.len() <= limit,
        r is None ==> forall|d: Seq<u8>, l: i32| frame@ != #[trigger] zstd_frame(d, l),
        r matches Some(v) ==> forall|d: Seq<u8>, l: i32|
            frame@ == #[trigger] zstd_frame(d, l) ==> v@ == d.take(
                if d.len() <= limit { d.len() as int } else { limit as int },
            ),
{
    let mut decoder = zstd::stream::read::Decoder::new(frame).ok()?;
    let mut out = Vec::new();
    std::io::copy(&mut std::io::Read::take(&mut decoder, limit), &mut out).ok()?;
    Some(out)
}

} // verus!
