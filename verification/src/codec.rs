//! The FASTA text format itself: reading records from bytes and writing header
//! and sequence lines to bytes are left to the `seq_io` crate. The functions
//! of this module make those calls; their contracts are taken on trust.

use vstd::prelude::*;
use vstd::utf8::*;

verus! {

/// One record of a FASTA text: its header line without the leading `>`, and
/// its sequence with the line breaks removed.
#[derive(Debug)]
pub struct FastaRecord {
    pub head: Vec<u8>,
    pub seq: Vec<u8>,
}

impl FastaRecord {
    /// The record as a pair of byte sequences: header, then sequence.
    pub open spec fn parts(self) -> (Seq<u8>, Seq<u8>) {
        (self.head@, self.seq@)
    }
}

/// The records as pairs of byte sequences, in order.
pub open spec fn record_parts(records: Seq<FastaRecord>) -> Seq<(Seq<u8>, Seq<u8>)> {
    Seq::new(records.len(), |i: int| records[i].parts())
}

/// What `seq_io`'s FASTA reader makes of a text: the records it yields before
/// the end of the text or its first error, and whether it reached the end
/// without an error.
pub uninterp spec fn parsed_fasta(data: Seq<u8>) -> (Seq<(Seq<u8>, Seq<u8>)>, bool);

/// What `String::from_utf8_lossy` makes of a byte string.
pub uninterp spec fn lossy_text(bytes: Seq<u8>) -> Seq<char>;

/// Runs `seq_io::fasta::Reader::next` over `data` until the reader is
/// exhausted or reports an error. Trusted: the result is the reader's own, and
/// reading from memory it depends on the bytes alone.
#[verifier::external_body]
pub(crate) fn parse_records(data: &[u8]) -> (out: (Vec<FastaRecord>, bool))
    ensures
        record_parts(out.0@) == parsed_fasta(data@).0,
        out.1 == parsed_fasta(data@).1,
{
    let mut reader = seq_io::fasta::Reader::new(data);
    let mut records: Vec<FastaRecord> = Vec::new();
    while let Some(item) = reader.next() {
        match item {
            Ok(rec) => records.push(
                FastaRecord { head: seq_io::BaseRecord::head(&rec).to_vec(), seq: rec.owned_seq() },
            ),
            Err(_) => return (records, false),
        }
    }
    (records, true)
}

/// Calls `seq_io::fasta::write_head` on a buffer in memory. Trusted: it
/// appends `>`, the header and a line feed, and appending to a vector does
/// not fail.
#[verifier::external_body]
pub(crate) fn write_head(out: &mut Vec<u8>, head: &[u8])
    ensures
        final(out)@ == old(out)@ + seq![62u8] + head@ + seq![10u8],
{
    seq_io::fasta::write_head(&mut *out, head).expect("a vector takes every write");
}

/// Calls `seq_io::fasta::write_seq` on a buffer in memory. Trusted: it
/// appends the sequence on one line and a line feed, and appending to a
/// vector does not fail.
#[verifier::external_body]
pub(crate) fn write_seq(out: &mut Vec<u8>, seq: &[u8])
    ensures
        final(out)@ == old(out)@ + seq@ + seq![10u8],
{
    seq_io::fasta::write_seq(&mut *out, seq).expect("a vector takes every write");
}

/// Calls `String::from_utf8_lossy`. Trusted: well-formed UTF-8 is decoded as
/// it stands; of other input only that the result depends on the bytes alone.
#[verifier::external_body]
pub(crate) fn text_of(bytes: &[u8]) -> (s: String)
    ensures
        s@ == lossy_text(bytes@),
        valid_utf8(bytes@) ==> s@ == decode_utf8(bytes@),
{
    String::from_utf8_lossy(bytes).into_owned()
}

} // verus!
