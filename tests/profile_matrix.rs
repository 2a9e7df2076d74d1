use rosalind::profile_matrix::{transpose, vec_to_string, Nucleotide, ProfileError, ProfileMatrix};

fn strings(v: &[&str]) -> Vec<String> {
    v.iter().map(|s| s.to_string()).collect()
}

#[test]
fn test_transpose() {
    let input = vec![vec![1, 2, 3], vec![4, 5, 6], vec![7, 8, 9]];
    let expected = vec![vec![1, 4, 7], vec![2, 5, 8], vec![3, 6, 9]];

    let actual = transpose(input);

    assert_eq!(expected, actual);
}

#[test]
fn consensus_of_majority_columns() {
    let data = strings(&["ATCC", "ATGC", "ATCC"]);
    let m = ProfileMatrix::new(&data).unwrap();
    assert_eq!(m.len(), 4);
    assert_eq!(m.consensus_string(), "ATCC");
}

#[test]
fn counts_per_column() {
    let data = strings(&["ATCC", "ATGC", "ATCC"]);
    let m = ProfileMatrix::new(&data).unwrap();
    assert_eq!(m.index(Nucleotide::A), &vec![3, 0, 0, 0]);
    assert_eq!(m.index(Nucleotide::C), &vec![0, 0, 2, 3]);
    assert_eq!(m.index(Nucleotide::G), &vec![0, 0, 1, 0]);
    assert_eq!(m.index(Nucleotide::T), &vec![0, 3, 0, 0]);
}

#[test]
fn unequal_lengths_are_a_dimension_error() {
    let data = strings(&["AT", "ATG"]);
    assert_eq!(ProfileMatrix::new(&data).err(), Some(ProfileError::DimensionError));
}

#[test]
fn no_sequences_is_a_dimension_error() {
    let data: Vec<String> = Vec::new();
    assert_eq!(ProfileMatrix::new(&data).err(), Some(ProfileError::DimensionError));
}

#[test]
fn foreign_symbol_is_rejected() {
    let data = strings(&["ATN", "ATG"]);
    assert_eq!(ProfileMatrix::new(&data).err(), Some(ProfileError::InvalidSymbolError));
}

#[test]
fn ties_go_to_the_first_nucleotide() {
    let data = strings(&["AT", "CA", "GT", "TA"]);
    let m = ProfileMatrix::new(&data).unwrap();
    assert_eq!(m.consensus_string(), "AA");
}

#[test]
fn consensus_twice_is_the_same() {
    let data = strings(&["GATTACA", "TAGACCA", "ATACAGA"]);
    let m = ProfileMatrix::new(&data).unwrap();
    let first = m.consensus_string();
    let second = m.consensus_string();
    assert_eq!(first, second);
}

#[test]
fn vec_to_string_keeps_order() {
    assert_eq!(vec_to_string(vec!['A', 'C', 'G']), "ACG");
}

#[test]
fn nucleotide_symbols() {
    assert_eq!(Nucleotide::G.symbol(), 'G');
}

#[test]
fn numbers_in_decimal() {
    assert_eq!(rosalind::profile_matrix::format_numbers(&vec![0, 7, 10, 1234]), "0 7 10 1234 ");
    assert_eq!(rosalind::profile_matrix::format_numbers(&vec![]), "");
}

#[test]
fn profile_as_text() {
    let data = strings(&["ATCC", "ATGC", "ATCC"]);
    let m = ProfileMatrix::new(&data).unwrap();
    assert_eq!(m.to_text(), "A: 3 0 0 0 \nC: 0 0 2 3 \nG: 0 0 1 0 \nT: 0 3 0 0 \n");
}
