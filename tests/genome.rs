use rosalind::genome::{
    count_nucleotides, dna_codon_table, dna_to_rna, find_subsequence, hamming_distance,
    open_reading_frames, reading_frame, reverse_complement, translate_exons,
};

#[test]
fn counts_each_nucleotide() {
    let s = "AGCTTTTCATTCTGACTGCAACGGGCAATATGTCTCTGTGTGGATTAAAAAAAGAGTGTCTGATAGCAGC";
    assert_eq!(count_nucleotides(s), (20, 17, 12, 21));
    assert_eq!(count_nucleotides("AXG"), (1, 1, 0, 0));
    assert_eq!(count_nucleotides(""), (0, 0, 0, 0));
}

#[test]
fn rna_replaces_thymine() {
    assert_eq!(dna_to_rna("GATGGAACTTGACTACGTAAATT"), "GAUGGAACUUGACUACGUAAAUU");
}

#[test]
fn reverse_complement_of_strand() {
    assert_eq!(reverse_complement("AAAACCCGGT"), "ACCGGGTTTT");
    assert_eq!(reverse_complement("AXC"), "GXT");
}

#[test]
fn hamming_counts_mismatches() {
    assert_eq!(hamming_distance("GAGCCTACTAACGGGAT", "CATCGTAATGACGGCCT"), 7);
    assert_eq!(hamming_distance("AAAA", "AT"), 1);
}

#[test]
fn codon_table_lookups() {
    let t = dna_codon_table();
    assert_eq!(t.get("ATG"), Some('M'));
    assert_eq!(t.get("TAA"), Some('_'));
    assert_eq!(t.get("TGG"), Some('W'));
    assert_eq!(t.get("GGC"), Some('G'));
    assert_eq!(t.get("AT"), None);
    assert_eq!(t.get("AUG"), None);
}

#[test]
fn reading_frame_needs_start_and_stop() {
    let t = dna_codon_table();
    assert_eq!(reading_frame("ATGGCCTAA", &t), Some("MA".to_string()));
    assert_eq!(reading_frame("ATGGCC", &t), None);
    assert_eq!(reading_frame("GCCATGTAA", &t), None);
}

#[test]
fn open_reading_frames_of_sample() {
    let t = dna_codon_table();
    let dna = "AGCCATGTAGCTAACTCAGGTTACATGGGGATGACCCCGCGACTTGGATTAGAGTCTCTTTTGGAATAAGCCTGAATGATCCGAGTAGCATCTCAG";
    let mut frames = open_reading_frames(dna, t);
    frames.sort();
    let mut expected = vec!["MLLGSFRLIPKETLIQVAGSSPCNLS", "M", "MGMTPRLGLESLLE", "MTPRLGLESLLE"];
    expected.sort();
    assert_eq!(frames, expected);
}

#[test]
fn exons_translate_after_splicing() {
    let t = dna_codon_table();
    let dna = "ATGGTCTACATAGCTGACAAACAGCACGTAGCAATCGGTCGAATCTCGAGAGGCATATGGTCACATGATCGGTCGAGCGTGTTTCAAAGTTTGCGCCTAG";
    let introns = vec!["ATCGGTCGAA", "ATCGGTCGAGCGTGT"];
    assert_eq!(translate_exons(dna, introns, t), "MVYIADKQHVASREAYGHMFKVCA");
}

#[test]
fn subsequence_positions() {
    assert_eq!(find_subsequence("ACGTACGTGACG", "GTA"), vec![3, 4, 5]);
    assert_eq!(find_subsequence("AAA", "C"), Vec::<usize>::new());
}

#[test]
fn fasta_records_in_order() {
    let data = ">Rosalind_1\nACGT\n  TT \n>Rosalind_2\r\nGG\r\nCA\n";
    let records = rosalind::genome::parse_fasta(data);
    assert_eq!(
        records,
        vec![
            ("Rosalind_1".to_string(), "ACGTTT".to_string()),
            ("Rosalind_2".to_string(), "GGCA".to_string()),
        ]
    );
}

#[test]
fn fasta_repeated_label_starts_over() {
    let records = rosalind::genome::parse_fasta(">a\nAC\n>b\nT\n>a\nG");
    assert_eq!(
        records,
        vec![("a".to_string(), "G".to_string()), ("b".to_string(), "T".to_string())]
    );
}

#[test]
fn fasta_lines_before_a_label_go_under_empty_label() {
    let records = rosalind::genome::parse_fasta("AC\n>b\nG");
    assert_eq!(
        records,
        vec![(String::new(), "AC".to_string()), ("b".to_string(), "G".to_string())]
    );
    assert!(rosalind::genome::parse_fasta("").is_empty());
}
