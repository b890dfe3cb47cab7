//! Acquisition: turning input bytes, optionally gzip-compressed, into an
//! event source. Opening files is a caller's concern; the library takes the
//! bytes.

use vstd::prelude::*;

use crate::LinkParserError;
use crate::events::{source_bytes, source_from_bytes, source_read, stream_wf, xml_events,
    EventSource};

verus! {

/// What gzip decompression yields for these bytes, `None` when they are not a
/// valid gzip stream.
pub uninterp spec fn gunzip_of(bytes: Seq<u8>) -> Option<Seq<u8>>;

/// The markup bytes an input denotes: the input itself, or what it
/// decompresses to when the caller says it is compressed.
pub open spec fn acquired_bytes(data: Seq<u8>, compressed: bool) -> Option<Seq<u8>> {
    if compressed {
        gunzip_of(data)
    } else {
        Some(data)
    }
}

/// Relies on flate2's `GzDecoder`, drained with `Read::read_to_end`: gzip
/// decompression of an in-memory stream, a function of the bytes alone;
/// `None` when they are not a valid gzip stream.
#[verifier::external_body]
fn gunzip(data: &[u8]) -> (r: Option<Vec<u8>>)
    ensures
        match r {
            Some(out) => gunzip_of(data@) == Some(out@),
            None => gunzip_of(data@) is None,
        },
{
    let mut out = Vec::new();
    match std::io::Read::read_to_end(&mut flate2::bufread::GzDecoder::new(data), &mut out) {
        Ok(_) => Some(out),
        Err(_) => None,
    }
}

/// Creates a new event source for the given input bytes, decompressing them
/// first when `compressed` says so. Fails with `Acquisition` exactly when
/// decompression was asked for and the bytes are not a valid gzip stream.
pub fn from_bytes(data: Vec<u8>, compressed: bool) -> (r: Result<EventSource, LinkParserError>)
    ensures
        match acquired_bytes(data@, compressed) {
            Some(bytes) => r matches Ok(s) && source_bytes(s) == bytes && source_read(s) == 0
                && stream_wf(xml_events(bytes)),
            None => r == Err::<EventSource, LinkParserError>(LinkParserError::Acquisition),
        },
{
    if compressed {
        match gunzip(data.as_slice()) {
            Some(out) => Ok(source_from_bytes(out)),
            None => Err(LinkParserError::Acquisition),
        }
    } else {
        Ok(source_from_bytes(data))
    }
}

} // verus!
