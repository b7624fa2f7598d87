//! The stream that a file is read from.

use crate::error::{Error, ErrorView};
use vstd::prelude::*;

verus! {

/// Contents of a stream: the bytes at an absolute position, or nothing where
/// they cannot be read.
pub type Stream = spec_fn(u64, usize) -> Option<Seq<u8>>;

/// Bytes that a read returned, if it did not fail.
pub open spec fn bytes_read(r: Result<Vec<u8>, std::io::Error>) -> Option<Seq<u8>> {
    match r {
        Ok(v) => Some(v@),
        Err(_) => None,
    }
}

/// The contents that `read` gives access to.
pub open spec fn stream<R: Fn(u64, usize) -> Result<Vec<u8>, std::io::Error>>(read: R) -> Stream {
    |pos: u64, len: usize|
        if exists|r: Result<Vec<u8>, std::io::Error>| read.ensures((pos, len), r) {
            bytes_read(choose|r: Result<Vec<u8>, std::io::Error>| read.ensures((pos, len), r))
        } else {
            None
        }
}

/// Errors with which reads can fail.
pub type Failures = spec_fn(std::io::Error) -> bool;

/// The errors that `read` returns.
pub open spec fn failures<R: Fn(u64, usize) -> Result<Vec<u8>, std::io::Error>>(
    read: R,
) -> Failures {
    |e: std::io::Error|
        exists|pos: u64, len: usize| #[trigger]
            read.ensures((pos, len), Err::<Vec<u8>, std::io::Error>(e))
}

/// If `e` is an I/O error, it is one with which a read failed.
pub open spec fn is_handed_on(e: Error, failures: Failures) -> bool {
    match e {
        Error::Io(e) => failures(e),
        _ => true,
    }
}

/// `read` can be asked for any range, returns as many bytes as it is asked
/// for or fails, and answers one question always alike.
pub open spec fn is_stream<R: Fn(u64, usize) -> Result<Vec<u8>, std::io::Error>>(
    read: R,
) -> bool {
    &&& forall|pos: u64, len: usize| #[trigger] read.requires((pos, len))
    &&& forall|pos: u64, len: usize, r: Result<Vec<u8>, std::io::Error>| #[trigger]
        read.ensures((pos, len), r) ==> {
            &&& bytes_read(r) == stream(read)(pos, len)
            &&& r is Ok ==> r->Ok_0@.len() == len
        }
}

/// The `len` bytes at `pos`, or the error for a read that fails.
pub open spec fn raw_at(f: Stream, pos: u64, len: usize) -> Result<Seq<u8>, ErrorView> {
    match f(pos, len) {
        Some(b) => Ok(b),
        None => Err(ErrorView::Io),
    }
}

/// A result over a byte vector, with the bytes and the error by their views.
pub open spec fn view_bytes(r: Result<Vec<u8>, Error>) -> Result<Seq<u8>, ErrorView> {
    match r {
        Ok(v) => Ok(v@),
        Err(e) => Err(e@),
    }
}

/// Read `len` raw bytes from an absolute file offset.
pub(crate) fn read_raw<R: Fn(u64, usize) -> Result<Vec<u8>, std::io::Error>>(
    read: &R,
    pos: u64,
    len: usize,
) -> (r: Result<Vec<u8>, Error>)
    requires
        is_stream(*read),
    ensures
        view_bytes(r) == raw_at(stream(*read), pos, len),
        r is Ok ==> r->Ok_0@.len() == len,
        r is Err ==> exists|e: std::io::Error| #[trigger]
            read.ensures((pos, len), Err::<Vec<u8>, std::io::Error>(e)) && r->Err_0 == Error::Io(e),
        r is Err ==> is_handed_on(r->Err_0, failures(*read)),
{
    match read(pos, len) {
        Ok(b) => Ok(b),
        Err(e) => Err(Error::Io(e)),
    }
}

} // verus!
