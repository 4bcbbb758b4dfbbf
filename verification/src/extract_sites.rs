//! The site scanner: which columns of an alignment are variant sites.
//!
//! The test is a reference-divergence threshold. The symbol of the first row
//! is the reference of its column, and a column qualifies when at least
//! `threshold(min_alleles)` of the other rows differ from it. Rows that
//! differ from the reference count together, whatever symbols they hold.

use vstd::prelude::*;
use crate::decimal::append_numeral;
use crate::decimal::lemma_numeral_value;
use crate::decimal::numeral;
use crate::decimal::numeral_value;
use crate::fasta_io::FastaFile;

verus! {

/// Why a scan gave no result.
#[derive(Debug, PartialEq, Eq)]
pub enum ExtractionError {
    /// No site in the alignment meets the threshold.
    EmptySNPVector,
}

/// The qualifying columns of a scan: column indices, counted from 0.
#[derive(Debug)]
pub struct SnpPos {
    snp_pos: Vec<usize>,
}

/// How many of the rows `1..n` differ from row 0 in column `c`.
pub open spec fn divergent_rows(file: FastaFile, c: int, n: nat) -> nat
    decreases n,
{
    if n <= 1 {
        0
    } else {
        divergent_rows(file, c, (n - 1) as nat) + if file.site(n - 1, c) != file.site(0, c) {
            1nat
        } else {
            0nat
        }
    }
}

/// The number of divergent rows that a column needs: `min_alleles`, and at
/// least one, since a column without any divergent row is no variant site.
pub open spec fn threshold(min_alleles: i32) -> nat {
    if min_alleles < 1 {
        1
    } else {
        min_alleles as nat
    }
}

/// Whether column `c` is a variant site.
pub open spec fn qualifies(file: FastaFile, c: int, min_alleles: i32) -> bool {
    divergent_rows(file, c, file.rows()) >= threshold(min_alleles)
}

/// The variant sites among the columns before `n`, in ascending order.
pub open spec fn qualifying_below(file: FastaFile, min_alleles: i32, n: nat) -> Seq<usize>
    decreases n,
{
    if n == 0 {
        Seq::empty()
    } else {
        let before = qualifying_below(file, min_alleles, (n - 1) as nat);
        if qualifies(file, n - 1, min_alleles) {
            before.push((n - 1) as usize)
        } else {
            before
        }
    }
}

/// The variant sites of the alignment, in ascending order.
pub open spec fn qualifying_columns(file: FastaFile, min_alleles: i32) -> Seq<usize> {
    qualifying_below(file, min_alleles, file.columns())
}

/// Each index is greater than the one before it.
pub open spec fn strictly_ascending(columns: Seq<usize>) -> bool {
    forall|i: int, j: int| 0 <= i < j < columns.len() ==> columns[i] < columns[j]
}

/// The position list as text: for each column its index counted from 1, as
/// a decimal numeral on a line of its own.
pub open spec fn position_lines(columns: Seq<usize>) -> Seq<u8>
    decreases columns.len(),
{
    if columns.len() == 0 {
        Seq::empty()
    } else {
        position_lines(columns.drop_last()) + position_numeral(columns.last()) + seq![10u8]
    }
}

/// The numeral that stands for a column in the position list: its index
/// counted from 1.
pub open spec fn position_numeral(column: usize) -> Seq<u8> {
    numeral((column + 1) as nat)
}

/// The count of divergent rows does not fall as more rows are counted.
pub proof fn lemma_divergent_rows_grow(file: FastaFile, c: int, m: nat, n: nat)
    requires
        m <= n,
    ensures
        divergent_rows(file, c, m) <= divergent_rows(file, c, n),
        divergent_rows(file, c, n) <= if n == 0 { 0 } else { n - 1 },
    decreases n,
{
    if n > 1 {
        if m < n {
            lemma_divergent_rows_grow(file, c, m, (n - 1) as nat);
        } else {
            lemma_divergent_rows_grow(file, c, (n - 1) as nat, (n - 1) as nat);
        }
    }
}

/// The variant sites before column `n` are the indices below `n` that
/// qualify, each once, in strictly ascending order.
pub proof fn lemma_qualifying_below(file: FastaFile, min_alleles: i32, n: nat)
    requires
        n <= usize::MAX,
    ensures
        strictly_ascending(qualifying_below(file, min_alleles, n)),
        qualifying_below(file, min_alleles, n).len() <= n,
        forall|i: int|
            0 <= i < qualifying_below(file, min_alleles, n).len() ==> {
                let c = #[trigger] qualifying_below(file, min_alleles, n)[i];
                c < n && qualifies(file, c as int, min_alleles)
            },
        forall|c: int|
            0 <= c < n && qualifies(file, c, min_alleles) ==> qualifying_below(
                file,
                min_alleles,
                n,
            ).contains(c as usize),
    decreases n,
{
    if n > 0 {
        let m = (n - 1) as nat;
        lemma_qualifying_below(file, min_alleles, m);
        let before = qualifying_below(file, min_alleles, m);
        let now = qualifying_below(file, min_alleles, n);
        assert forall|c: int| 0 <= c < n && qualifies(file, c, min_alleles) implies now.contains(
            c as usize,
        ) by {
            if c < m {
                let i = choose|i: int| 0 <= i < before.len() && before[i] == c as usize;
                assert(now[i] == c as usize);
            } else {
                assert(now[now.len() - 1] == c as usize);
            }
        }
    }
}

/// A column in which no row among the first `n` differs from the first row
/// has no divergent row among them.
pub proof fn lemma_no_divergence(file: FastaFile, c: int, n: nat)
    requires
        forall|r: int| 0 <= r < n ==> #[trigger] file.site(r, c) == file.site(0, c),
    ensures
        divergent_rows(file, c, n) == 0,
    decreases n,
{
    if n > 1 {
        lemma_no_divergence(file, c, (n - 1) as nat);
    }
}

/// Where at most the column `only` qualifies, the variant sites before
/// column `n` are that column alone, or none.
pub proof fn lemma_qualifying_single(file: FastaFile, min_alleles: i32, only: int, n: nat)
    requires
        0 <= only,
        forall|c: int| 0 <= c < n && c != only ==> !qualifies(file, c, min_alleles),
    ensures
        qualifying_below(file, min_alleles, n) == if only < n && qualifies(
            file,
            only,
            min_alleles,
        ) {
            seq![only as usize]
        } else {
            Seq::<usize>::empty()
        },
    decreases n,
{
    if n > 0 {
        lemma_qualifying_single(file, min_alleles, only, (n - 1) as nat);
        if only == n - 1 && qualifies(file, only, min_alleles) {
            assert(qualifying_below(file, min_alleles, n) =~= seq![only as usize]);
        }
    }
}

/// An alignment whose rows are all the same has no variant site, whatever
/// the threshold: a scan of it fails.
pub proof fn lemma_identical_rows_no_site(file: FastaFile, min_alleles: i32)
    requires
        file.wf(),
        forall|r: int| 0 <= r < file.rows() ==> #[trigger] file.row(r) == file.row(0),
    ensures
        qualifying_columns(file, min_alleles).len() == 0,
{
    assert forall|c: int| 0 <= c < file.columns() implies !qualifies(file, c, min_alleles) by {
        assert forall|r: int| 0 <= r < file.rows() implies #[trigger] file.site(r, c) == file.site(
            0,
            c,
        ) by {
            file.lemma_site_in_row(r, c);
            file.lemma_site_in_row(0, c);
        }
        lemma_no_divergence(file, c, file.rows());
    }
    lemma_qualifying_single(file, min_alleles, 0, file.columns());
}

/// Where one column has `k >= 1` rows that differ from the first row and no
/// other column has any, a scan with a threshold of `k` gives exactly that
/// column, and a scan with a threshold of `k + 1` gives none.
pub proof fn lemma_single_divergent_column(file: FastaFile, column: int, at: i32, above: i32)
    requires
        file.wf(),
        0 <= column < file.columns(),
        divergent_rows(file, column, file.rows()) >= 1,
        forall|c: int|
            0 <= c < file.columns() && c != column ==> divergent_rows(file, c, file.rows()) == 0,
        threshold(at) == divergent_rows(file, column, file.rows()),
        threshold(above) == divergent_rows(file, column, file.rows()) + 1,
    ensures
        qualifying_columns(file, at) == seq![column as usize],
        qualifying_columns(file, above).len() == 0,
{
    file.lemma_shape_fits();
    lemma_qualifying_single(file, at, column, file.columns());
    lemma_qualifying_single(file, above, column, file.columns());
}

/// A column that meets a threshold meets every lower one: raising the
/// threshold never adds a variant site.
pub proof fn lemma_lower_threshold_keeps_sites(file: FastaFile, c: int, lower: i32, higher: i32)
    requires
        lower <= higher,
        qualifies(file, c, higher),
    ensures
        qualifies(file, c, lower),
{
}

/// In the position list each numeral denotes its column's index plus one,
/// and the numbers denoted are strictly ascending.
pub proof fn lemma_position_values(columns: Seq<usize>)
    requires
        strictly_ascending(columns),
    ensures
        forall|i: int|
            0 <= i < columns.len() ==> numeral_value(#[trigger] position_numeral(columns[i]))
                == columns[i] + 1,
        forall|i: int, j: int|
            0 <= i < j < columns.len() ==> numeral_value(#[trigger] position_numeral(columns[i]))
                < numeral_value(#[trigger] position_numeral(columns[j])),
{
    assert forall|i: int| 0 <= i < columns.len() implies numeral_value(
        #[trigger] position_numeral(columns[i]),
    ) == columns[i] + 1 by {
        lemma_numeral_value((columns[i] + 1) as nat);
    }
}

/// Alignments with the same symbols in the same shape have the same variant
/// sites.
pub proof fn lemma_scan_depends_on_content(
    first: FastaFile,
    second: FastaFile,
    min_alleles: i32,
    n: nat,
)
    requires
        first.sites() == second.sites(),
        first.columns() == second.columns(),
        first.rows() == second.rows(),
    ensures
        qualifying_below(first, min_alleles, n) == qualifying_below(second, min_alleles, n),
    decreases n,
{
    if n > 0 {
        lemma_scan_depends_on_content(first, second, min_alleles, (n - 1) as nat);
        lemma_divergence_depends_on_content(first, second, n - 1, first.rows());
    }
}

/// Alignments with the same symbols in the same shape have the same count of
/// divergent rows in every column.
pub proof fn lemma_divergence_depends_on_content(
    first: FastaFile,
    second: FastaFile,
    c: int,
    n: nat,
)
    requires
        first.sites() == second.sites(),
        first.columns() == second.columns(),
    ensures
        divergent_rows(first, c, n) == divergent_rows(second, c, n),
    decreases n,
{
    if n > 1 {
        lemma_divergence_depends_on_content(first, second, c, (n - 1) as nat);
    }
}

impl View for SnpPos {
    type V = Seq<usize>;

    closed spec fn view(&self) -> Seq<usize> {
        self.snp_pos@
    }
}

impl SnpPos {
    /// The invariant of a scan's result: at least one column, in strictly
    /// ascending order, each with a position counted from 1 that fits the
    /// machine word.
    pub open spec fn wf(&self) -> bool {
        &&& self@.len() >= 1
        &&& strictly_ascending(self@)
        &&& self@.last() < usize::MAX
    }

    /// Scans every column of the alignment and keeps those in which at least
    /// `threshold(min_alleles)` rows differ from the first row. Fails when no
    /// column qualifies.
    pub fn get_snp_positions(fastafile: &FastaFile, min_alleles: i32) -> (result: Result<
        SnpPos,
        ExtractionError,
    >)
        requires
            fastafile.wf(),
        ensures
            result is Ok <==> exists|c: int|
                0 <= c < fastafile.columns() && qualifies(*fastafile, c, min_alleles),
            result matches Ok(snps) ==> {
                &&& snps.wf()
                &&& snps@ == qualifying_columns(*fastafile, min_alleles)
                &&& forall|c: int|
                    0 <= c < fastafile.columns() ==> (snps@.contains(c as usize) <==> qualifies(
                        *fastafile,
                        c,
                        min_alleles,
                    ))
            },
    {
        let sites = fastafile.fasta_sites();
        let columns = fastafile.seqlen();
        let rows = fastafile.num_seqs();
        let needed: usize = if min_alleles < 1 {
            1
        } else {
            min_alleles as usize
        };
        let mut snp_pos: Vec<usize> = Vec::new();
        let mut i: usize = 0;
        while i < columns
            invariant
                fastafile.wf(),
                sites@ == fastafile.sites(),
                columns == fastafile.columns(),
                rows == fastafile.rows(),
                needed == threshold(min_alleles),
                i <= columns,
                snp_pos@ == qualifying_below(*fastafile, min_alleles, i as nat),
            decreases columns - i,
        {
            let mut found = false;
            let mut num_alleles: usize = 0;
            let mut j: usize = 1;
            while j < rows && !found
                invariant
                    fastafile.wf(),
                    sites@ == fastafile.sites(),
                        columns == fastafile.columns(),
                    rows == fastafile.rows(),
                    i < columns,
                    1 <= j <= rows,
                    num_alleles == divergent_rows(*fastafile, i as int, j as nat),
                    found == (num_alleles >= needed),
                decreases rows - j + if found { 0int } else { 1int },
            {
                proof {
                    fastafile.lemma_site_in_row(0, i as int);
                    fastafile.lemma_site_in_row(j as int, i as int);
                    lemma_divergent_rows_grow(*fastafile, i as int, j as nat, j as nat);
                    assert(0 <= j * columns) by (nonlinear_arith);
                    assert(j * columns + i < sites@.len() == sites.len());
                }
                if sites[i] != sites[j * columns + i] {
                    num_alleles += 1;
                    if num_alleles >= needed {
                        found = true;
                    }
                }
                j += 1;
            }
            proof {
                lemma_divergent_rows_grow(*fastafile, i as int, j as nat, rows as nat);
            }
            if found {
                snp_pos.push(i);
            }
            i += 1;
        }
        proof {
            lemma_qualifying_below(*fastafile, min_alleles, columns as nat);
        }
        if snp_pos.len() == 0 {
            assert forall|c: int| 0 <= c < columns implies !qualifies(
                *fastafile,
                c,
                min_alleles,
            ) by {
                if qualifies(*fastafile, c, min_alleles) {
                    assert(snp_pos@.contains(c as usize));
                }
            }
            Err(ExtractionError::EmptySNPVector)
        } else {
            assert(qualifies(*fastafile, snp_pos@[0] as int, min_alleles));
            assert forall|c: int| 0 <= c < columns && snp_pos@.contains(c as usize) implies qualifies(
                *fastafile,
                c,
                min_alleles,
            ) by {
                let i = choose|i: int| 0 <= i < snp_pos@.len() && snp_pos@[i] == c as usize;
                assert(snp_pos@[i] as int == c);
            }
            Ok(SnpPos { snp_pos })
        }
    }

    /// The qualifying columns, counted from 0, in ascending order.
    pub fn snp_pos(&self) -> (columns: &[usize])
        ensures
            columns@ == self@,
    {
        self.snp_pos.as_slice()
    }

    /// The position list as text: one line per qualifying column, holding
    /// its index counted from 1.
    pub fn position_text(&self) -> (text: Vec<u8>)
        requires
            self.wf(),
        ensures
            text@ == position_lines(self@),
    {
        let mut text: Vec<u8> = Vec::new();
        let mut i: usize = 0;
        while i < self.snp_pos.len()
            invariant
                self.wf(),
                i <= self.snp_pos@.len(),
                text@ == position_lines(self.snp_pos@.take(i as int)),
            decreases self.snp_pos@.len() - i,
        {
            let column = self.snp_pos[i];
            assert(column <= self@.last());
            assert(self.snp_pos@.take(i + 1).drop_last() =~= self.snp_pos@.take(i as int));
            append_numeral(&mut text, column + 1);
            text.push(10u8);
            i += 1;
        }
        assert(self.snp_pos@.take(i as int) =~= self.snp_pos@);
        text
    }
}

} // verus!
