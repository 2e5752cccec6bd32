//! Compression of response bodies.

use vstd::prelude::*;

verus! {

/// The gzip member that flate2's `GzEncoder` writes for `data` at the default
/// level, with its default header.
pub uninterp spec fn gzip_of(data: Seq<u8>) -> Seq<u8>;

/// Relies on flate2's `GzEncoder` (`new`, `write_all`, `finish`) over a `Vec`:
/// the bytes it yields are the gzip encoding of `data`. The encoder reports
/// errors only from the writer beneath it, and writing into a `Vec` does not
/// fail, so neither `expect` can fire.
#[verifier::external_body]
pub fn compress_body(data: &[u8]) -> (r: Vec<u8>)
    ensures
        r@ == gzip_of(data@),
{
    let mut encoder = flate2::write::GzEncoder::new(Vec::new(), flate2::Compression::default());
    std::io::Write::write_all(&mut encoder, data).expect("writing into a Vec");
    encoder.finish().expect("writing into a Vec")
}

} // verus!
