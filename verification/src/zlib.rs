//! Zlib decompression.

use crate::error::{decimal, push_decimal, Error, ErrorView};
use crate::stream::view_bytes;
use std::io::Read;
use vstd::prelude::*;

verus! {

/// What a zlib stream inflates to, or the message of the decoder that
/// rejects it.
pub uninterp spec fn inflated(comp: Seq<u8>) -> Result<Seq<u8>, Seq<char>>;

/// Inflates a whole zlib stream with `flate2::read::ZlibDecoder`, read to its
/// end.  Taken on trust: the outcome, bytes or message, depends on the
/// compressed bytes alone.
#[verifier::external_body]
fn inflate(comp: &[u8]) -> (r: Result<Vec<u8>, String>)
    ensures
        inflated(comp@) == match r {
            Ok(out) => Ok::<Seq<u8>, Seq<char>>(out@),
            Err(msg) => Err::<Seq<u8>, Seq<char>>(msg@),
        },
{
    let mut out = Vec::new();
    match flate2::read::ZlibDecoder::new(comp).read_to_end(&mut out) {
        Ok(_) => Ok(out),
        Err(e) => Err(e.to_string()),
    }
}

/// Outcome of decompression into exactly `unzipsize` bytes, given what the
/// decoder returned.
pub open spec fn spec_check_unzipped(
    r: Result<Seq<u8>, Seq<char>>,
    unzipsize: nat,
) -> Result<Seq<u8>, ErrorView> {
    match r {
        Ok(out) => if out.len() == unzipsize {
            Ok(out)
        } else {
            Err(
                ErrorView::Corrupt(
                    "unzip size mismatch (expected "@ + decimal(unzipsize) + ", got "@ + decimal(
                        out.len(),
                    ) + ")"@,
                ),
            )
        },
        Err(msg) => Err(ErrorView::Corrupt("unzip failed: "@ + msg)),
    }
}

/// Check what the decoder returned against the size that was expected.
pub fn check_unzipped(inflated: Result<Vec<u8>, String>, unzipsize: u64) -> (r: Result<
    Vec<u8>,
    Error,
>)
    ensures
        view_bytes(r) == spec_check_unzipped(
            match inflated {
                Ok(out) => Ok(out@),
                Err(msg) => Err(msg@),
            },
            unzipsize as nat,
        ),
{
    match inflated {
        Ok(out) => {
            if out.len() as u64 == unzipsize {
                return Ok(out);
            }
            let mut msg = String::from_str("unzip size mismatch (expected ");
            push_decimal(&mut msg, unzipsize);
            msg.append(", got ");
            push_decimal(&mut msg, out.len() as u64);
            msg.append(")");
            Err(Error::Corrupt(msg))
        },
        Err(e) => {
            let mut msg = String::from_str("unzip failed: ");
            msg.append(e.as_str());
            Err(Error::Corrupt(msg))
        },
    }
}

/// `comp` decompressed into exactly `unzipsize` bytes.
pub open spec fn spec_unzip(comp: Seq<u8>, unzipsize: nat) -> Result<Seq<u8>, ErrorView> {
    spec_check_unzipped(inflated(comp), unzipsize)
}

/// Zlib-decompress `comp` into exactly `unzipsize` bytes.
pub fn unzip(comp: &[u8], unzipsize: u64) -> (r: Result<Vec<u8>, Error>)
    ensures
        view_bytes(r) == spec_unzip(comp@, unzipsize as nat),
{
    check_unzipped(inflate(comp), unzipsize)
}

} // verus!
