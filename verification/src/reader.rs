//! Streaming document source: one record per line of a byte stream.
//!
//! [`DocReader`] pulls documents out of a byte sequence, one line at a
//! time. Each pull yields a document, a per-record error (the sequence
//! continues with the next line), or end of stream. [`items_of`] is the
//! spec-level meaning of a whole byte stream: the list of what each of
//! its lines denotes.
//!
//! The gzip variant decodes any number of concatenated gzip members up
//! front and reads the result exactly as the plain reader would, so a
//! compressed stream yields the same document sequence as its
//! uncompressed equivalent.

use vstd::prelude::*;

use crate::doc::{Document, DocumentV};
use crate::error::Error;
use crate::json::p_doc;
use vstd::utf8::{decode_utf8, valid_utf8};

verus! {

/// What one line of bytes denotes: a document, or nothing if the line
/// is not UTF-8 or not a valid record.
pub open spec fn line_item(line: Seq<u8>) -> Option<DocumentV> {
    if valid_utf8(line) {
        p_doc(decode_utf8(line))
    } else {
        None
    }
}

/// Position of the first line feed at or after `pos`, or the end.
pub open spec fn line_end(bytes: Seq<u8>, pos: int) -> int
    decreases bytes.len() - pos when 0 <= pos <= bytes.len()
{
    if pos >= bytes.len() {
        pos
    } else if bytes[pos] == 10 {
        pos
    } else {
        line_end(bytes, pos + 1)
    }
}

pub proof fn lemma_line_end_bounds(bytes: Seq<u8>, pos: int)
    requires
        0 <= pos <= bytes.len(),
    ensures
        pos <= line_end(bytes, pos) <= bytes.len(),
    decreases bytes.len() - pos,
{
    if pos < bytes.len() && bytes[pos] != 10 {
        lemma_line_end_bounds(bytes, pos + 1);
    }
}

/// The items denoted by the lines of `bytes` from `pos` on. A final
/// line needs no terminating line feed; an empty tail denotes nothing.
pub open spec fn items_from(bytes: Seq<u8>, pos: int) -> Seq<Option<DocumentV>>
    decreases bytes.len() - pos when 0 <= pos <= bytes.len() via items_from_dec
{
    if pos >= bytes.len() {
        Seq::empty()
    } else {
        let e = line_end(bytes, pos);
        let np = if e < bytes.len() {
            e + 1
        } else {
            e
        };
        seq![line_item(bytes.subrange(pos, e))] + items_from(bytes, np)
    }
}

#[via_fn]
proof fn items_from_dec(bytes: Seq<u8>, pos: int) {
    if 0 <= pos < bytes.len() {
        lemma_line_end_bounds(bytes, pos);
    }
}

/// The items denoted by a whole byte stream.
pub open spec fn items_of(bytes: Seq<u8>) -> Seq<Option<DocumentV>> {
    items_from(bytes, 0)
}

proof fn lemma_line_end_at(bytes: Seq<u8>, pos: int, j: int)
    requires
        0 <= pos <= j <= bytes.len(),
        forall|t: int| pos <= t < j ==> bytes[t] != 10,
        j == bytes.len() || bytes[j] == 10,
    ensures
        line_end(bytes, pos) == j,
    decreases j - pos,
{
    if pos < j {
        lemma_line_end_at(bytes, pos + 1, j);
    }
}

/// Relies on `String::from_utf8`: succeeds exactly on valid UTF-8 and
/// then decodes it.
#[verifier::external_body]
fn bytes_to_string(v: Vec<u8>) -> (r: Option<String>)
    ensures
        (match r {
            Some(s) => valid_utf8(v@) && s@ == decode_utf8(v@),
            None => !valid_utf8(v@),
        }),
{
    match String::from_utf8(v) {
        Ok(s) => Some(s),
        Err(_) => None,
    }
}

/// Names what flate2's `MultiGzDecoder` yields for given input bytes:
/// the concatenation of all decoded gzip members, or nothing if the
/// input is not a well-formed sequence of gzip members.
pub uninterp spec fn gunzip_of(b: Seq<u8>) -> Option<Seq<u8>>;

/// Relies on flate2's `MultiGzDecoder` (through `read_to_end`): decodes
/// any number of concatenated gzip members; the outcome is a function
/// of the input bytes alone.
#[verifier::external_body]
fn gunzip(bytes: &Vec<u8>) -> (r: Option<Vec<u8>>)
    ensures
        (match r {
            Some(v) => gunzip_of(bytes@) == Some(v@),
            None => gunzip_of(bytes@) is None,
        }),
{
    let mut dec = flate2::bufread::MultiGzDecoder::new(&bytes[..]);
    let mut out = Vec::new();
    match std::io::Read::read_to_end(&mut dec, &mut out) {
        Ok(_) => Some(out),
        Err(_) => None,
    }
}

/// Document reader over one in-memory byte stream.
#[derive(Debug)]
pub struct DocReader {
    bytes: Vec<u8>,
    pos: usize,
}

impl DocReader {
    pub closed spec fn wf(&self) -> bool {
        self.pos <= self.bytes@.len()
    }

    /// The items this reader has yet to yield.
    pub closed spec fn remaining(&self) -> Seq<Option<DocumentV>> {
        items_from(self.bytes@, self.pos as int)
    }

    /// Create a reader over the given bytes.
    pub fn new(bytes: Vec<u8>) -> (r: Self)
        ensures
            r.wf(),
            r.remaining() == items_of(bytes@),
    {
        DocReader { bytes, pos: 0 }
    }

    /// Create a reader over gzip-compressed bytes. Succeeds exactly
    /// when the bytes decode as gzip members, and then reads the
    /// decoded stream; so it yields the same document sequence as
    /// [`DocReader::new`] on the equivalent uncompressed content.
    pub fn from_gzip(bytes: Vec<u8>) -> (r: Result<Self, Error>)
        ensures
            (match r {
                Ok(dr) => gunzip_of(bytes@) is Some && dr.wf() && dr.remaining() == items_of(
                    gunzip_of(bytes@)->0,
                ),
                Err(e) => gunzip_of(bytes@) is None && e is IoFailure,
            }),
    {
        match gunzip(&bytes) {
            Some(plain) => Ok(DocReader::new(plain)),
            None => Err(Error::IoFailure("invalid gzip stream".to_owned())),
        }
    }

    /// Pull the next item: a document, a per-record error for one bad
    /// line (reading then resumes at the following line), or `None` at
    /// clean end of stream.
    pub fn next(&mut self) -> (r: Option<Result<Document, Error>>)
        requires
            old(self).wf(),
        ensures
            final(self).wf(),
            (match r {
                None => old(self).remaining().len() == 0 && final(self).remaining()
                    == old(self).remaining(),
                Some(item) => old(self).remaining().len() > 0 && final(self).remaining()
                    == old(self).remaining().drop_first() && (match item {
                    Ok(d) => old(self).remaining()[0] == Some(d@),
                    Err(e) => old(self).remaining()[0] is None && e is MalformedRecord,
                }),
            }),
    {
        if self.pos == self.bytes.len() {
            return None;
        }
        let start = self.pos;
        let mut j = start;
        while j < self.bytes.len() && self.bytes[j] != 10
            invariant
                start <= j <= self.bytes@.len(),
                forall|t: int| start <= t < j ==> self.bytes@[t] != 10,
            decreases self.bytes@.len() - j,
        {
            j += 1;
        }
        proof {
            lemma_line_end_at(self.bytes@, start as int, j as int);
        }
        let mut line: Vec<u8> = Vec::new();
        let mut k = start;
        while k < j
            invariant
                start <= k <= j <= self.bytes@.len(),
                line@ =~= self.bytes@.subrange(start as int, k as int),
            decreases j - k,
        {
            line.push(self.bytes[k]);
            k += 1;
        }
        proof {
            assert(line@ =~= self.bytes@.subrange(start as int, j as int));
        }
        let np = if j < self.bytes.len() {
            j + 1
        } else {
            j
        };
        self.pos = np;
        let ghost old_rem = items_from(self.bytes@, start as int);
        proof {
            assert(old_rem == seq![line_item(self.bytes@.subrange(start as int, j as int))]
                + items_from(self.bytes@, np as int));
            assert(old_rem.drop_first() =~= items_from(self.bytes@, np as int));
        }
        match bytes_to_string(line) {
            Some(text) => {
                match crate::json::parse_document(text.as_str()) {
                    Ok(d) => Some(Ok(d)),
                    Err(e) => Some(Err(e)),
                }
            }
            None => Some(Err(Error::MalformedRecord("line is not UTF-8".to_owned()))),
        }
    }
}

} // verus!
