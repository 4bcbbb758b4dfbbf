use snp_extractor::decimal::append_numeral;
use snp_extractor::extract_sites::SnpPos;
use snp_extractor::fasta_io::FastaFile;

fn load(text: &str) -> FastaFile {
    FastaFile::read_fasta(text.as_bytes()).unwrap()
}

fn numeral(n: usize) -> String {
    let mut out = Vec::new();
    append_numeral(&mut out, n);
    String::from_utf8(out).unwrap()
}

#[test]
fn four_by_five_example_is_projected() {
    let file = load(">r0\nAAAAA\n>r1\nAAAAA\n>r2\nAAAAT\n>r3\nAAAAT\n");
    let snps = SnpPos::get_snp_positions(&file, 2).unwrap();
    let out = file.write_fasta(&snps);
    assert_eq!(out.positions, b"5\n".to_vec());
    assert_eq!(out.fasta, b">r0\nA\n>r1\nA\n>r2\nT\n>r3\nT\n".to_vec());
}

#[test]
fn positions_are_one_based_and_ascending() {
    let file = load(">a\nAAAAAAAAAAAA\n>b\nTAAATAAAATAT\n");
    let snps = SnpPos::get_snp_positions(&file, 1).unwrap();
    assert_eq!(snps.snp_pos(), &[0, 4, 9, 11]);
    assert_eq!(snps.position_text(), b"1\n5\n10\n12\n".to_vec());
    let text = String::from_utf8(snps.position_text()).unwrap();
    let values: Vec<usize> = text.lines().map(|line| line.parse().unwrap()).collect();
    for (value, column) in values.iter().zip(snps.snp_pos()) {
        assert_eq!(*value, column + 1);
    }
    for pair in values.windows(2) {
        assert!(pair[0] < pair[1]);
    }
}

#[test]
fn rows_keep_their_headers_and_order() {
    let file = load(">z last name\nACGT\n>a\nAGGA\n>m\nACGA\n");
    let snps = SnpPos::get_snp_positions(&file, 1).unwrap();
    assert_eq!(snps.snp_pos(), &[1, 3]);
    let out = file.write_fasta(&snps);
    assert_eq!(out.fasta, b">z last name\nCT\n>a\nGA\n>m\nCA\n".to_vec());
    assert_eq!(out.positions, b"2\n4\n".to_vec());
}

#[test]
fn projected_row_holds_the_cells_of_its_own_row() {
    let file = load(">a\nABCDE\n>b\nFGHIJ\n>c\nKLMNO\n");
    let snps = SnpPos::get_snp_positions(&file, 2).unwrap();
    assert_eq!(snps.snp_pos(), &[0, 1, 2, 3, 4]);
    assert_eq!(file.project_row(0, &snps), b"ABCDE".to_vec());
    assert_eq!(file.project_row(1, &snps), b"FGHIJ".to_vec());
    assert_eq!(file.project_row(2, &snps), b"KLMNO".to_vec());
}

#[test]
fn reduced_alignment_loads_back_as_the_chosen_columns() {
    let file = load(">r0 x\nACGTACGT\n>r1\nACCTACGA\n>r2\nTCGTACGA\n>r3\nACGTAGGT\n");
    let snps = SnpPos::get_snp_positions(&file, 1).unwrap();
    let chosen = snps.snp_pos().to_vec();
    assert_eq!(chosen, vec![0, 2, 5, 7]);
    let out = file.write_fasta(&snps);
    let again = FastaFile::read_fasta(&out.fasta).unwrap();
    assert_eq!(again.num_seqs(), file.num_seqs());
    assert_eq!(again.seqlen(), chosen.len());
    assert_eq!(again.headers(), file.headers());
    for r in 0..file.num_seqs() {
        for (i, c) in chosen.iter().enumerate() {
            assert_eq!(
                again.fasta_sites()[r * again.seqlen() + i],
                file.fasta_sites()[r * file.seqlen() + c]
            );
        }
    }
}

#[test]
fn two_runs_give_the_same_bytes() {
    let text = b">r0\nACGTACGT\n>r1\nACCTACGA\n>r2\nTCGTACGA\n";
    let first = FastaFile::read_fasta(text).unwrap();
    let second = FastaFile::read_fasta(text).unwrap();
    let first_out = first.write_fasta(&SnpPos::get_snp_positions(&first, 1).unwrap());
    let second_out = second.write_fasta(&SnpPos::get_snp_positions(&second, 1).unwrap());
    assert_eq!(first_out.positions, second_out.positions);
    assert_eq!(first_out.fasta, second_out.fasta);
    assert_eq!(first_out.positions, b"1\n3\n8\n".to_vec());
}

#[test]
fn cell_outside_the_buffer_is_passed_over() {
    let wide = load(">a\nAAAA\n>b\nAATT\n");
    let snps = SnpPos::get_snp_positions(&wide, 1).unwrap();
    assert_eq!(snps.snp_pos(), &[2, 3]);
    let narrow = load(">a\nCG\n>b\nTA\n");
    assert_eq!(narrow.project_row(0, &snps), b"TA".to_vec());
    assert_eq!(narrow.project_row(1, &snps), Vec::<u8>::new());
    assert_eq!(narrow.project_row(usize::MAX, &snps), Vec::<u8>::new());
    let out = narrow.write_fasta(&snps);
    assert_eq!(out.fasta, b">a\nTA\n>b\n\n".to_vec());
    assert_eq!(out.positions, b"3\n4\n".to_vec());
}

#[test]
fn numerals_are_plain_decimal() {
    assert_eq!(numeral(0), "0");
    assert_eq!(numeral(7), "7");
    assert_eq!(numeral(10), "10");
    assert_eq!(numeral(109), "109");
    assert_eq!(numeral(65535), "65535");
    assert_eq!(numeral(usize::MAX), usize::MAX.to_string());
}

#[test]
fn position_of_a_far_column_has_all_its_digits() {
    let mut first = vec![b'A'; 1234];
    let mut second = vec![b'A'; 1234];
    second[999] = b'T';
    second[1233] = b'T';
    let mut text = b">a\n".to_vec();
    text.append(&mut first);
    text.extend_from_slice(b"\n>b\n");
    text.append(&mut second);
    text.push(b'\n');
    let file = FastaFile::read_fasta(&text).unwrap();
    let snps = SnpPos::get_snp_positions(&file, 1).unwrap();
    assert_eq!(snps.position_text(), b"1000\n1234\n".to_vec());
}
