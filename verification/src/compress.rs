//! Compression of Arrow IPC bytes before they are sent to the viewer.

use vstd::prelude::*;

verus! {

/// What `flate2::write::GzEncoder` with `Compression::fast()` gives for
/// `data`: the gzip stream it writes, or the text of the error it reports.
pub uninterp spec fn gzip_fast(data: Seq<u8>) -> Result<Seq<u8>, Seq<char>>;

/// The header such a stream begins with: the gzip magic, deflate, no flags,
/// no time stamp, the fast-level marker and "unknown" as the system.
pub open spec fn gzip_fast_header() -> Seq<u8> {
    seq![0x1fu8, 0x8bu8, 8u8, 0u8, 0u8, 0u8, 0u8, 0u8, 4u8, 255u8]
}

/// Compresses `data` with `flate2::write::GzEncoder` at `Compression::fast()`
/// into a `Vec`, through `Write::write_all` and `GzEncoder::finish`. The
/// outcome depends on the data alone: compression is deterministic, and the
/// crate writes no time stamp and a fixed system byte so that streams are
/// reproducible. A stream's header is the fixed one and its last four bytes
/// hold the length of the data modulo 2^32, little-endian, as the crate's
/// `try_finish` writes them; an error is passed on as its text. Whether an
/// error can occur is left to the name.
#[verifier::external_body]
fn gzip_fast_encode(data: &[u8]) -> (r: Result<Vec<u8>, String>)
    ensures
        match r {
            Ok(v) => {
                &&& gzip_fast(data@) == Ok::<Seq<u8>, Seq<char>>(v@)
                &&& v@.len() >= 18
                &&& v@.take(10) == gzip_fast_header()
                &&& v@[v@.len() - 4] as int == data@.len() % 256
                &&& v@[v@.len() - 3] as int == (data@.len() / 256) % 256
                &&& v@[v@.len() - 2] as int == (data@.len() / 65536) % 256
                &&& v@[v@.len() - 1] as int == (data@.len() / 16777216) % 256
            },
            Err(e) => gzip_fast(data@) == Err::<Seq<u8>, Seq<char>>(e@),
        },
{
    let mut encoder = flate2::write::GzEncoder::new(Vec::new(), flate2::Compression::fast());
    std::io::Write::write_all(&mut encoder, data).map_err(|e| e.to_string())?;
    encoder.finish().map_err(|e| e.to_string())
}

/// Compresses Arrow IPC bytes with fast gzip: the stream `gzip_fast` names,
/// which holds the fixed header and ends with the length of the data modulo
/// 2^32, little-endian; an encoder error is passed on as its text.
pub fn compress_arrow_ipc(ipc_bytes: &[u8]) -> (r: Result<Vec<u8>, String>)
    ensures
        match gzip_fast(ipc_bytes@) {
            Ok(z) => r matches Ok(v) && {
                &&& v@ == z
                &&& v@.len() >= 18
                &&& v@.take(10) == gzip_fast_header()
                &&& v@[v@.len() - 4] as int == ipc_bytes@.len() % 256
                &&& v@[v@.len() - 3] as int == (ipc_bytes@.len() / 256) % 256
                &&& v@[v@.len() - 2] as int == (ipc_bytes@.len() / 65536) % 256
                &&& v@[v@.len() - 1] as int == (ipc_bytes@.len() / 16777216) % 256
            },
            Err(m) => r matches Err(e) && e@ == m,
        },
{
    gzip_fast_encode(ipc_bytes)
}

/// The name of the compression in use.
pub const COMPRESSION_NAME: &'static str = "Gzip(fast)";

/// Compression is in use.
pub const COMPRESSION_ENABLED: bool = true;

} // verus!
