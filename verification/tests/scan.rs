use snp_extractor::extract_sites::ExtractionError;
use snp_extractor::extract_sites::SnpPos;
use snp_extractor::fasta_io::FastaFile;

fn load(text: &str) -> FastaFile {
    FastaFile::read_fasta(text.as_bytes()).unwrap()
}

fn columns(file: &FastaFile, min_alleles: i32) -> Option<Vec<usize>> {
    match SnpPos::get_snp_positions(file, min_alleles) {
        Ok(snps) => Some(snps.snp_pos().to_vec()),
        Err(ExtractionError::EmptySNPVector) => None,
    }
}

#[test]
fn identical_rows_have_no_site() {
    let file = load(">a\nACGTAC\n>b\nACGTAC\n>c\nACGTAC\n");
    for min_alleles in [-3, 0, 1, 2, 3, 100] {
        assert_eq!(
            SnpPos::get_snp_positions(&file, min_alleles).err(),
            Some(ExtractionError::EmptySNPVector)
        );
    }
}

#[test]
fn a_single_row_has_no_site() {
    let file = load(">a\nACGT\n");
    assert_eq!(columns(&file, 1), None);
    assert_eq!(columns(&file, 0), None);
}

#[test]
fn column_with_k_divergent_rows_meets_k_and_not_k_plus_one() {
    let file = load(">a\nAAAA\n>b\nAATA\n>c\nAATA\n>d\nAAAA\n>e\nAAGA\n");
    assert_eq!(columns(&file, 3), Some(vec![2]));
    assert_eq!(columns(&file, 4), None);
}

#[test]
fn four_by_five_example() {
    let file = load(">r0\nAAAAA\n>r1\nAAAAA\n>r2\nAAAAT\n>r3\nAAAAT\n");
    assert_eq!(columns(&file, 2), Some(vec![4]));
    assert_eq!(columns(&file, 3), None);
}

#[test]
fn last_column_is_scanned() {
    let file = load(">a\nAC\n>b\nAG\n");
    assert_eq!(columns(&file, 1), Some(vec![1]));
}

#[test]
fn first_column_is_scanned() {
    let file = load(">a\nAC\n>b\nTC\n");
    assert_eq!(columns(&file, 1), Some(vec![0]));
}

#[test]
fn sites_come_out_in_ascending_order() {
    let file = load(">a\nAAAAAA\n>b\nTATATA\n>c\nTAAATA\n");
    assert_eq!(columns(&file, 1), Some(vec![0, 2, 4]));
    assert_eq!(columns(&file, 2), Some(vec![0, 4]));
}

#[test]
fn threshold_below_one_counts_as_one() {
    let file = load(">a\nACGT\n>b\nACGA\n>c\nACGT\n");
    assert_eq!(columns(&file, 0), Some(vec![3]));
    assert_eq!(columns(&file, -7), Some(vec![3]));
    assert_eq!(columns(&file, 1), Some(vec![3]));
    assert_eq!(columns(&file, 2), None);
}

#[test]
fn different_alleles_count_together_against_the_reference() {
    let file = load(">a\nA\n>b\nC\n>c\nG\n>d\nA\n");
    assert_eq!(columns(&file, 2), Some(vec![0]));
    assert_eq!(columns(&file, 3), None);
}

#[test]
fn rows_equal_to_each_other_but_not_to_the_first_all_count() {
    let file = load(">a\nA\n>b\nT\n>c\nT\n>d\nT\n");
    assert_eq!(columns(&file, 3), Some(vec![0]));
}

#[test]
fn threshold_above_the_row_count_finds_nothing() {
    let file = load(">a\nA\n>b\nT\n");
    assert_eq!(columns(&file, i32::MAX), None);
}

#[test]
fn higher_threshold_keeps_fewer_sites() {
    let file = load(">a\nAAAA\n>b\nTTTA\n>c\nTTAA\n>d\nTAAA\n");
    assert_eq!(columns(&file, 1), Some(vec![0, 1, 2]));
    assert_eq!(columns(&file, 2), Some(vec![0, 1]));
    assert_eq!(columns(&file, 3), Some(vec![0]));
    assert_eq!(columns(&file, 4), None);
}
