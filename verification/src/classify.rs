//! The extension classifier: a file name's extension decides its role in
//! the change feed and how its bytes are encoded, before any byte of the
//! file is read. Matching is a case-sensitive suffix comparison against
//! the literal extension strings, compound ones first.

use vstd::prelude::*;

use crate::bytes::{ends_with, is_suffix_of};

verus! {

/// The role a file plays in the change feed: a full snapshot, an
/// incremental delta, or a list of removed identifiers.
#[derive(Clone, Copy, Debug, PartialEq, Eq, Structural)]
pub enum ReaderType {
    Chunk,
    Delta,
    Delete,
}

/// How a file's bytes are encoded on disk.
#[derive(Clone, Copy, Debug, PartialEq, Eq, Structural)]
pub enum Encoding {
    Raw,
    Gzip,
}

/// The bytes of `".gz"`.
pub open spec fn ext_gz() -> Seq<u8> {
    seq![46u8, 103u8, 122u8]
}

/// The bytes of `".html"`.
pub open spec fn ext_html() -> Seq<u8> {
    seq![46u8, 104u8, 116u8, 109u8, 108u8]
}

/// The bytes of `".html-changed"`.
pub open spec fn ext_html_changed() -> Seq<u8> {
    seq![46u8, 104u8, 116u8, 109u8, 108u8, 45u8, 99u8, 104u8, 97u8, 110u8, 103u8, 101u8, 100u8]
}

/// The bytes of `".deleted"`.
pub open spec fn ext_deleted() -> Seq<u8> {
    seq![46u8, 100u8, 101u8, 108u8, 101u8, 116u8, 101u8, 100u8]
}

/// The role assigned to a file name: `.gz` and `.html` carry snapshots,
/// `.html-changed` carries a delta, `.deleted` lists removals; any other
/// name has no role and is excluded from the pipeline.
pub open spec fn spec_classify(name: Seq<u8>) -> Option<ReaderType> {
    if is_suffix_of(ext_html_changed(), name) {
        Some(ReaderType::Delta)
    } else if is_suffix_of(ext_deleted(), name) {
        Some(ReaderType::Delete)
    } else if is_suffix_of(ext_gz(), name) {
        Some(ReaderType::Chunk)
    } else if is_suffix_of(ext_html(), name) {
        Some(ReaderType::Chunk)
    } else {
        None
    }
}

/// Classify a file name (as bytes) by its extension.
pub fn classify(name: &[u8]) -> (r: Option<ReaderType>)
    ensures
        r == spec_classify(name@),
{
    // ".html-changed"
    let html_changed: [u8; 13] = [46, 104, 116, 109, 108, 45, 99, 104, 97, 110, 103, 101, 100];
    // ".deleted"
    let deleted: [u8; 8] = [46, 100, 101, 108, 101, 116, 101, 100];
    // ".gz"
    let gz: [u8; 3] = [46, 103, 122];
    // ".html"
    let html: [u8; 5] = [46, 104, 116, 109, 108];
    proof {
        assert(html_changed@ =~= ext_html_changed());
        assert(deleted@ =~= ext_deleted());
        assert(gz@ =~= ext_gz());
        assert(html@ =~= ext_html());
    }
    if ends_with(name, html_changed.as_slice()) {
        Some(ReaderType::Delta)
    } else if ends_with(name, deleted.as_slice()) {
        Some(ReaderType::Delete)
    } else if ends_with(name, gz.as_slice()) {
        Some(ReaderType::Chunk)
    } else if ends_with(name, html.as_slice()) {
        Some(ReaderType::Chunk)
    } else {
        None
    }
}

/// The encoding a recognized file name declares: `.gz` means
/// gzip-compressed, anything else is raw text.
pub open spec fn spec_encoding_of(name: Seq<u8>) -> Encoding {
    if is_suffix_of(ext_gz(), name) {
        Encoding::Gzip
    } else {
        Encoding::Raw
    }
}

/// Derive the byte encoding from a file name.
pub fn encoding_of(name: &[u8]) -> (r: Encoding)
    ensures
        r == spec_encoding_of(name@),
{
    // ".gz"
    let gz: [u8; 3] = [46, 103, 122];
    proof {
        assert(gz@ =~= ext_gz());
    }
    if ends_with(name, gz.as_slice()) {
        Encoding::Gzip
    } else {
        Encoding::Raw
    }
}

} // verus!
