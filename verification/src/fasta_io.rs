//! The alignment store: a multiple sequence alignment held as a row-major
//! matrix of symbols, with one header per row.

use vstd::prelude::*;
use vstd::slice::slice_subrange;
use vstd::slice::slice_to_vec;
use crate::codec::FastaRecord;
use crate::codec::lossy_text;
use crate::codec::parse_records;
use crate::codec::parsed_fasta;
use crate::codec::record_parts;
use crate::codec::text_of;
use crate::codec::write_head;
use crate::codec::write_seq;
use crate::extract_sites::SnpPos;
use crate::extract_sites::lemma_scan_depends_on_content;
use crate::extract_sites::position_lines;
use crate::extract_sites::qualifying_columns;

verus! {

/// Why an alignment could not be loaded or written.
#[derive(Debug, PartialEq, Eq)]
pub enum FastaError {
    /// The source could not be opened.
    ErrorOpeningFasta,
    /// The record stream is malformed, or holds no alignment at all.
    ErrorReadingFasta,
    /// A record's sequence is not as long as the first one's: the expected
    /// length, the id of the offending record, and its length.
    SequenceMismatch(usize, String, usize),
    /// An output file could not be created: its path.
    ErrorCreatingOutFasta(String),
    /// A header could not be written: the header.
    ErrorWritingHead(String),
    /// A sequence could not be written: the header of its row.
    ErrorWritingSequence(String),
    /// A position could not be written: the column index.
    ErrorWritingPos(usize),
}

/// An alignment of `rows()` sequences of `columns()` symbols each, stored row
/// after row, and the header of each row.
#[derive(Debug)]
pub struct FastaFile {
    fasta_sites: Vec<u8>,
    seqlen: usize,
    num_seqs: usize,
    headers: Vec<Vec<u8>>,
}

/// The two artifacts of a projection, each as the bytes of its file.
#[derive(Debug)]
pub struct ReducedAlignment {
    /// The position list: one line per retained column.
    pub positions: Vec<u8>,
    /// The reduced alignment as FASTA text.
    pub fasta: Vec<u8>,
}

/// Where the id of a header ends: at its first space from `from` on, or at
/// the end of the header.
pub open spec fn id_end(head: Seq<u8>, from: nat) -> nat
    decreases head.len() - from,
{
    if from >= head.len() || head[from as int] == 32 {
        from
    } else {
        id_end(head, from + 1)
    }
}

/// The id of a record: its header up to the first space.
pub open spec fn id_of(head: Seq<u8>) -> Seq<u8> {
    head.subrange(0, id_end(head, 0) as int)
}

/// The sequences of the records before index `n` all have the length of the
/// first one.
pub open spec fn lengths_agree(records: Seq<(Seq<u8>, Seq<u8>)>, n: int) -> bool {
    forall|j: int| 0 < j < n && j < records.len() ==> (#[trigger] records[j]).1.len() == records[0].1.len()
}

/// The sequences of the first `n` records, one after the other.
pub open spec fn joined(records: Seq<(Seq<u8>, Seq<u8>)>, n: nat) -> Seq<u8>
    decreases n,
{
    if n == 0 {
        Seq::empty()
    } else {
        joined(records, (n - 1) as nat) + records[n - 1].1
    }
}

/// The records as FASTA text: for each record a line with `>` and its
/// header, then its sequence on one line.
pub open spec fn fasta_text(records: Seq<(Seq<u8>, Seq<u8>)>) -> Seq<u8>
    decreases records.len(),
{
    if records.len() == 0 {
        Seq::empty()
    } else {
        fasta_text(records.drop_last()) + seq![62u8] + records.last().0 + seq![10u8]
            + records.last().1 + seq![10u8]
    }
}

/// Joined rows of one length `width` form a row-major matrix.
pub proof fn lemma_joined_matrix(records: Seq<(Seq<u8>, Seq<u8>)>, n: nat, width: nat)
    requires
        n <= records.len(),
        forall|j: int| 0 <= j < n ==> (#[trigger] records[j]).1.len() == width,
    ensures
        joined(records, n).len() == n * width,
        forall|r: int|
            0 <= r < n ==> #[trigger] joined(records, n).subrange(r * width, r * width + width)
                == records[r].1,
    decreases n,
{
    if n > 0 {
        let m = (n - 1) as nat;
        lemma_joined_matrix(records, m, width);
        assert(n * width == m * width + width) by (nonlinear_arith)
            requires
                n == m + 1,
        ;
        assert forall|r: int| 0 <= r < n implies #[trigger] joined(records, n).subrange(
            r * width,
            r * width + width,
        ) == records[r].1 by {
            assert(r * width + width <= n * width) by (nonlinear_arith)
                requires
                    0 <= r < n,
            ;
            assert(0 <= r * width) by (nonlinear_arith)
                requires
                    0 <= r,
            ;
            if r < m {
                assert(r * width + width <= m * width) by (nonlinear_arith)
                    requires
                        0 <= r < m,
                ;
                assert(joined(records, n).subrange(r * width, r * width + width) =~= joined(
                    records,
                    m,
                ).subrange(r * width, r * width + width));
            } else {
                assert(joined(records, n).subrange(r * width, r * width + width)
                    =~= records[r].1);
            }
        }
    } else {
        assert(n * width == 0) by (nonlinear_arith)
            requires
                n == 0,
        ;
    }
}

impl FastaFile {
    /// The symbols of the alignment, row after row.
    pub closed spec fn sites(&self) -> Seq<u8> {
        self.fasta_sites@
    }

    /// The number of columns: the length of every sequence.
    pub closed spec fn columns(&self) -> nat {
        self.seqlen as nat
    }

    /// The number of rows: the number of sequences.
    pub closed spec fn rows(&self) -> nat {
        self.num_seqs as nat
    }

    /// The header of each row, in row order.
    pub closed spec fn header_seq(&self) -> Seq<Seq<u8>> {
        Seq::new(self.headers@.len(), |i: int| self.headers@[i]@)
    }

    /// The invariant of an alignment: at least one row and one column, as
    /// many symbols as the matrix has cells, and one header per row.
    pub open spec fn wf(&self) -> bool {
        &&& self.rows() >= 1
        &&& self.columns() >= 1
        &&& self.sites().len() == self.rows() * self.columns()
        &&& self.header_seq().len() == self.rows()
    }

    /// The symbol in row `r`, column `c`.
    pub open spec fn site(&self, r: int, c: int) -> u8 {
        self.sites()[r * self.columns() + c]
    }

    /// Row `r` of the matrix.
    pub open spec fn row(&self, r: int) -> Seq<u8> {
        self.sites().subrange(r * self.columns(), r * self.columns() + self.columns())
    }

    /// The numbers of rows and columns are machine words.
    pub proof fn lemma_shape_fits(&self)
        ensures
            self.rows() <= usize::MAX,
            self.columns() <= usize::MAX,
    {
    }

    /// The cell `(r, c)` of the matrix lies inside the buffer, and is the
    /// `c`-th symbol of row `r`.
    pub proof fn lemma_site_in_row(&self, r: int, c: int)
        requires
            self.wf(),
            0 <= r < self.rows(),
            0 <= c < self.columns(),
        ensures
            0 <= r * self.columns() + c < self.sites().len(),
            self.row(r).len() == self.columns(),
            self.row(r)[c] == self.site(r, c),
    {
        let w = self.columns() as int;
        let n = self.rows() as int;
        assert(0 <= r * w && r * w + w <= n * w) by (nonlinear_arith)
            requires
                0 <= r < n,
                0 <= w,
        ;
    }

    /// Whether loading `records` ends in `result`, where `complete` says that
    /// the record stream was read to its end without an error.
    ///
    /// A record whose sequence is not as long as the first one's is reported,
    /// the first such record first. Otherwise a stream that broke off, that
    /// holds no record, or whose sequences are empty is malformed. Otherwise
    /// the alignment has the records' sequences as its rows and their headers
    /// as its headers, in order.
    pub open spec fn loads_as(
        records: Seq<(Seq<u8>, Seq<u8>)>,
        complete: bool,
        result: Result<FastaFile, FastaError>,
    ) -> bool {
        match result {
            Ok(file) => {
                &&& complete
                &&& records.len() >= 1
                &&& records[0].1.len() >= 1
                &&& lengths_agree(records, records.len() as int)
                &&& file.wf()
                &&& file.rows() == records.len()
                &&& file.columns() == records[0].1.len()
                &&& file.sites() == joined(records, records.len())
                &&& forall|r: int| 0 <= r < records.len() ==> #[trigger] file.row(r) == records[r].1
                &&& forall|r: int|
                    0 <= r < records.len() ==> #[trigger] file.header_seq()[r] == records[r].0
            },
            Err(FastaError::SequenceMismatch(expected, id, actual)) => {
                exists|i: int|
                    {
                        &&& 0 < i < records.len()
                        &&& lengths_agree(records, i)
                        &&& (#[trigger] records[i]).1.len() != records[0].1.len()
                        &&& expected == records[0].1.len()
                        &&& id@ == lossy_text(id_of(records[i].0))
                        &&& actual == records[i].1.len()
                    }
            },
            Err(FastaError::ErrorReadingFasta) => {
                &&& lengths_agree(records, records.len() as int)
                &&& (!complete || records.len() == 0 || records[0].1.len() == 0)
            },
            Err(_) => false,
        }
    }

    /// Builds the alignment from FASTA text held in memory.
    pub fn read_fasta(data: &[u8]) -> (result: Result<FastaFile, FastaError>)
        ensures
            FastaFile::loads_as(parsed_fasta(data@).0, parsed_fasta(data@).1, result),
    {
        let (records, complete) = parse_records(data);
        FastaFile::from_records(records, complete)
    }

    /// Builds the alignment from records already parsed; `complete` says that
    /// the record stream was read to its end without an error.
    pub fn from_records(records: Vec<FastaRecord>, complete: bool) -> (result: Result<
        FastaFile,
        FastaError,
    >)
        ensures
            FastaFile::loads_as(record_parts(records@), complete, result),
    {
        let ghost parts = record_parts(records@);
        let count = records.len();
        let mut fasta_sites: Vec<u8> = Vec::new();
        let mut headers: Vec<Vec<u8>> = Vec::new();
        let mut seqlen: usize = 0;
        let mut i: usize = 0;
        while i < count
            invariant
                count == records.len(),
                parts == record_parts(records@),
                i <= count,
                i > 0 ==> seqlen == parts[0].1.len(),
                forall|j: int| 0 <= j < i ==> (#[trigger] parts[j]).1.len() == seqlen,
                fasta_sites@ == joined(parts, i as nat),
                headers@.len() == i,
                forall|j: int| 0 <= j < i ==> (#[trigger] headers@[j])@ == parts[j].0,
            decreases count - i,
        {
            let record = &records[i];
            assert(parts[i as int] == record.parts());
            let len = record.seq.len();
            if i == 0 {
                seqlen = len;
            } else if len != seqlen {
                let id = text_of(record_id(record.head.as_slice()));
                assert(lengths_agree(parts, i as int));
                return Err(FastaError::SequenceMismatch(seqlen, id, len));
            }
            let mut row = slice_to_vec(record.seq.as_slice());
            fasta_sites.append(&mut row);
            headers.push(slice_to_vec(record.head.as_slice()));
            i += 1;
        }
        assert(lengths_agree(parts, count as int));
        if !complete || count == 0 || seqlen == 0 {
            return Err(FastaError::ErrorReadingFasta);
        }
        let file = FastaFile { fasta_sites, seqlen, num_seqs: count, headers };
        proof {
            lemma_joined_matrix(parts, count as nat, seqlen as nat);
        }
        Ok(file)
    }

    /// Row `r` cut down to the given columns, in their order. A column whose
    /// cell would lie outside the buffer is passed over.
    pub open spec fn projected_row(&self, r: int, columns: Seq<usize>) -> Seq<u8>
        decreases columns.len(),
    {
        if columns.len() == 0 {
            Seq::empty()
        } else {
            let before = self.projected_row(r, columns.drop_last());
            let index = r * self.columns() + columns.last();
            if 0 <= index < self.sites().len() {
                before.push(self.sites()[index])
            } else {
                before
            }
        }
    }

    /// The records of the reduced alignment: for each row its header and the
    /// row cut down to the given columns.
    pub open spec fn reduced_records(&self, columns: Seq<usize>) -> Seq<(Seq<u8>, Seq<u8>)> {
        Seq::new(
            self.header_seq().len(),
            |r: int| (self.header_seq()[r], self.projected_row(r, columns)),
        )
    }

    /// Where every column lies inside the matrix, a projected row holds one
    /// symbol per column: the symbol of that row in that column.
    pub proof fn lemma_projected_row(&self, r: int, columns: Seq<usize>)
        requires
            self.wf(),
            0 <= r < self.rows(),
            forall|i: int| 0 <= i < columns.len() ==> columns[i] < self.columns(),
        ensures
            self.projected_row(r, columns).len() == columns.len(),
            forall|i: int|
                0 <= i < columns.len() ==> #[trigger] self.projected_row(r, columns)[i]
                    == self.site(r, columns[i] as int),
        decreases columns.len(),
    {
        if columns.len() > 0 {
            self.lemma_projected_row(r, columns.drop_last());
            self.lemma_site_in_row(r, columns.last() as int);
        }
    }

    /// Loading the records of the reduced alignment succeeds and gives a
    /// matrix with as many rows under the same headers, whose column `i` is
    /// column `columns[i]` of this alignment.
    pub proof fn lemma_reduced_records_reload(
        &self,
        columns: Seq<usize>,
        result: Result<FastaFile, FastaError>,
    )
        requires
            self.wf(),
            columns.len() >= 1,
            forall|i: int| 0 <= i < columns.len() ==> columns[i] < self.columns(),
            FastaFile::loads_as(self.reduced_records(columns), true, result),
        ensures
            result is Ok,
            result.unwrap().wf(),
            result.unwrap().rows() == self.rows(),
            result.unwrap().columns() == columns.len(),
            result.unwrap().header_seq() == self.header_seq(),
            forall|r: int, i: int|
                0 <= r < self.rows() && 0 <= i < columns.len() ==> #[trigger] result.unwrap().site(
                    r,
                    i,
                ) == self.site(r, columns[i] as int),
    {
        let records = self.reduced_records(columns);
        assert forall|r: int| 0 <= r < self.rows() implies (#[trigger] records[r]).1.len()
            == columns.len() by {
            self.lemma_projected_row(r, columns);
        }
        match result {
            Ok(reloaded) => {
                assert(reloaded.header_seq() =~= self.header_seq()) by {
                    assert forall|r: int| 0 <= r < self.rows() implies reloaded.header_seq()[r]
                        == self.header_seq()[r] by {
                        assert(records[r].0 == self.header_seq()[r]);
                    }
                }
                assert forall|r: int, i: int|
                    0 <= r < self.rows() && 0 <= i < columns.len() implies #[trigger] reloaded.site(
                    r,
                    i,
                ) == self.site(r, columns[i] as int) by {
                    reloaded.lemma_site_in_row(r, i);
                    self.lemma_projected_row(r, columns);
                    assert(reloaded.row(r) == records[r].1);
                }
            },
            Err(_) => {
                assert(records[0].1.len() == columns.len());
            },
        }
    }

    /// Alignments with the same symbols in rows of the same length project
    /// alike.
    pub proof fn lemma_projection_depends_on_content(
        &self,
        other: FastaFile,
        r: int,
        columns: Seq<usize>,
    )
        requires
            self.sites() == other.sites(),
            self.columns() == other.columns(),
        ensures
            self.projected_row(r, columns) == other.projected_row(r, columns),
        decreases columns.len(),
    {
        if columns.len() > 0 {
            self.lemma_projection_depends_on_content(other, r, columns.drop_last());
        }
    }

    /// Two loads of one record stream end alike. Where they succeed, the two
    /// alignments have the same content, so that every scan finds the same
    /// columns in both and every projection gives the same records; where
    /// they fail, they report the same.
    pub proof fn lemma_loads_agree(
        records: Seq<(Seq<u8>, Seq<u8>)>,
        complete: bool,
        first: Result<FastaFile, FastaError>,
        second: Result<FastaFile, FastaError>,
    )
        requires
            FastaFile::loads_as(records, complete, first),
            FastaFile::loads_as(records, complete, second),
        ensures
            match (first, second) {
                (Ok(a), Ok(b)) => {
                    &&& a.sites() == b.sites()
                    &&& a.rows() == b.rows()
                    &&& a.columns() == b.columns()
                    &&& a.header_seq() == b.header_seq()
                    &&& forall|min_alleles: i32| #[trigger]
                        qualifying_columns(a, min_alleles) == qualifying_columns(b, min_alleles)
                    &&& forall|columns: Seq<usize>| #[trigger]
                        a.reduced_records(columns) == b.reduced_records(columns)
                },
                (
                    Err(FastaError::SequenceMismatch(expected_a, id_a, actual_a)),
                    Err(FastaError::SequenceMismatch(expected_b, id_b, actual_b)),
                ) => expected_a == expected_b && id_a@ == id_b@ && actual_a == actual_b,
                (Err(FastaError::ErrorReadingFasta), Err(FastaError::ErrorReadingFasta)) => true,
                _ => false,
            },
    {
        match (first, second) {
            (Ok(a), Ok(b)) => {
                assert(a.header_seq() =~= b.header_seq());
                assert forall|min_alleles: i32| #[trigger]
                    qualifying_columns(a, min_alleles) == qualifying_columns(b, min_alleles) by {
                    lemma_scan_depends_on_content(a, b, min_alleles, a.columns());
                }
                assert forall|columns: Seq<usize>| #[trigger]
                    a.reduced_records(columns) == b.reduced_records(columns) by {
                    assert forall|r: int| 0 <= r < a.header_seq().len() implies a.projected_row(
                        r,
                        columns,
                    ) == b.projected_row(r, columns) by {
                        a.lemma_projection_depends_on_content(b, r, columns);
                    }
                    assert(a.reduced_records(columns) =~= b.reduced_records(columns));
                }
            },
            (
                Err(FastaError::SequenceMismatch(expected_a, id_a, actual_a)),
                Err(FastaError::SequenceMismatch(expected_b, id_b, actual_b)),
            ) => {
                let i = choose|i: int|
                    {
                        &&& 0 < i < records.len()
                        &&& lengths_agree(records, i)
                        &&& (#[trigger] records[i]).1.len() != records[0].1.len()
                        &&& expected_a == records[0].1.len()
                        &&& id_a@ == lossy_text(id_of(records[i].0))
                        &&& actual_a == records[i].1.len()
                    };
                let j = choose|j: int|
                    {
                        &&& 0 < j < records.len()
                        &&& lengths_agree(records, j)
                        &&& (#[trigger] records[j]).1.len() != records[0].1.len()
                        &&& expected_b == records[0].1.len()
                        &&& id_b@ == lossy_text(id_of(records[j].0))
                        &&& actual_b == records[j].1.len()
                    };
                assert(i == j);
            },
            _ => {},
        }
    }

    /// Row `row` cut down to the qualifying columns, in ascending column
    /// order. A column whose cell would lie outside the buffer is passed over.
    pub fn project_row(&self, row: usize, snp_pos: &SnpPos) -> (symbols: Vec<u8>)
        ensures
            symbols@ == self.projected_row(row as int, snp_pos@),
    {
        let columns = snp_pos.snp_pos();
        let base = row.checked_mul(self.seqlen);
        let mut symbols: Vec<u8> = Vec::new();
        let mut k: usize = 0;
        while k < columns.len()
            invariant
                columns@ == snp_pos@,
                k <= columns@.len(),
                base == row.checked_mul(self.seqlen),
                symbols@ == self.projected_row(row as int, columns@.take(k as int)),
            decreases columns@.len() - k,
        {
            assert(columns@.take(k + 1).drop_last() =~= columns@.take(k as int));
            assert(self.fasta_sites@.len() == self.fasta_sites.len());
            if let Some(start) = base {
                if let Some(index) = start.checked_add(columns[k]) {
                    if index < self.fasta_sites.len() {
                        symbols.push(self.fasta_sites[index]);
                    }
                }
            }
            k += 1;
        }
        assert(columns@.take(k as int) =~= columns@);
        symbols
    }

    /// The position list and the reduced alignment: every row in its place
    /// and under its own header, cut down to the qualifying columns.
    pub fn write_fasta(&self, snp_pos: &SnpPos) -> (out: ReducedAlignment)
        requires
            snp_pos.wf(),
        ensures
            out.positions@ == position_lines(snp_pos@),
            out.fasta@ == fasta_text(self.reduced_records(snp_pos@)),
    {
        let positions = snp_pos.position_text();
        let mut fasta: Vec<u8> = Vec::new();
        let mut i: usize = 0;
        while i < self.headers.len()
            invariant
                i <= self.headers@.len(),
                fasta@ == fasta_text(self.reduced_records(snp_pos@).take(i as int)),
            decreases self.headers@.len() - i,
        {
            assert(self.reduced_records(snp_pos@).take(i + 1).drop_last()
                =~= self.reduced_records(snp_pos@).take(i as int));
            write_head(&mut fasta, self.headers[i].as_slice());
            let symbols = self.project_row(i, snp_pos);
            write_seq(&mut fasta, symbols.as_slice());
            i += 1;
        }
        assert(self.reduced_records(snp_pos@).take(i as int) =~= self.reduced_records(snp_pos@));
        ReducedAlignment { positions, fasta }
    }

    /// The symbols of the alignment, row after row.
    pub fn fasta_sites(&self) -> (sites: &Vec<u8>)
        ensures
            sites@ == self.sites(),
    {
        &self.fasta_sites
    }

    /// The number of columns.
    pub fn seqlen(&self) -> (columns: usize)
        ensures
            columns == self.columns(),
    {
        self.seqlen
    }

    /// The number of rows.
    pub fn num_seqs(&self) -> (rows: usize)
        ensures
            rows == self.rows(),
    {
        self.num_seqs
    }

    /// The header of each row, in row order.
    pub fn headers(&self) -> (headers: &Vec<Vec<u8>>)
        ensures
            headers@.len() == self.header_seq().len(),
            forall|r: int| 0 <= r < headers@.len() ==> (#[trigger] headers@[r])@ == self.header_seq()[r],
    {
        &self.headers
    }
}

/// The id of a record: its header up to the first space.
pub fn record_id(head: &[u8]) -> (id: &[u8])
    ensures
        id@ == id_of(head@),
{
    let mut end: usize = 0;
    while end < head.len() && head[end] != 32
        invariant
            end <= head@.len(),
            id_end(head@, 0) == id_end(head@, end as nat),
        decreases head@.len() - end,
    {
        end += 1;
    }
    slice_subrange(head, 0, end)
}

} // verus!
