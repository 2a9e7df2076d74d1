use rosalind::protein_motif::{Motif, ParseError, ProteinMotif};

#[test]
fn single_literal_matches_everywhere() {
    let m = ProteinMotif::compile("A").unwrap();
    assert_eq!(m.find_motif("AAAA"), vec![1, 2, 3, 4]);
}

#[test]
fn glycosylation_motif_rejects_excluded_symbol() {
    let m = ProteinMotif::compile("N{P}[ST]{P}").unwrap();
    assert_eq!(m.len(), 4);
    assert!(!m.find_motif("AAAANPSPAA").contains(&5));
    assert_eq!(m.find_motif("AAAANPSPAA"), Vec::<usize>::new());
}

#[test]
fn glycosylation_motif_finds_match() {
    let m = ProteinMotif::compile("N{P}[ST]{P}").unwrap();
    assert_eq!(m.find_motif("MNASAPNGTQ"), vec![2, 7]);
}

#[test]
fn sequence_shorter_than_motif_has_no_match() {
    let m = ProteinMotif::compile("N{P}[ST]{P}").unwrap();
    assert_eq!(m.find_motif("NAS"), Vec::<usize>::new());
}

#[test]
fn empty_pattern_matches_every_position() {
    let m = ProteinMotif::compile("").unwrap();
    assert_eq!(m.len(), 0);
    assert_eq!(m.find_motif("AB"), vec![1, 2, 3]);
}

#[test]
fn new_then_parse() {
    let mut m = ProteinMotif::new("A[BC]{D}");
    assert_eq!(m.parse(), Ok(()));
    assert_eq!(m.len(), 3);
    assert!(matches!(m.tokens_vec()[0], Motif::Char('A')));
    assert!(matches!(&m.tokens_vec()[1], Motif::Either(v) if v == &vec!['B', 'C']));
    assert!(matches!(m.tokens_vec()[2], Motif::Not('D')));
}

#[test]
fn compile_twice_gives_same_tokens() {
    let a = ProteinMotif::compile("N{P}[ST]{P}").unwrap();
    let b = ProteinMotif::compile("N{P}[ST]{P}").unwrap();
    assert_eq!(format!("{:?}", a.tokens_vec()), format!("{:?}", b.tokens_vec()));
}

#[test]
fn unterminated_class() {
    assert_eq!(ProteinMotif::compile("N[ST").err(), Some(ParseError::UnterminatedClass));
}

#[test]
fn class_over_limit() {
    assert_eq!(ProteinMotif::compile("[ABCDE]").err(), Some(ParseError::ClassTooLong));
    assert!(ProteinMotif::compile("[ABCD]").is_ok());
}

#[test]
fn unterminated_exclusion() {
    assert_eq!(ProteinMotif::compile("N{P").err(), Some(ParseError::UnterminatedExclusion));
    assert_eq!(ProteinMotif::compile("N{PS}").err(), Some(ParseError::UnterminatedExclusion));
    assert_eq!(ProteinMotif::compile("{").err(), Some(ParseError::UnterminatedExclusion));
}

#[test]
fn token_predicates() {
    assert!(Motif::Either(vec!['S', 'T']).matches('T'));
    assert!(!Motif::Either(vec!['S', 'T']).matches('A'));
    assert!(Motif::Not('P').matches('A'));
    assert!(!Motif::Not('P').matches('P'));
    assert!(Motif::Char('N').matches('N'));
}

#[test]
fn non_ascii_symbol_is_rejected() {
    assert_eq!(ProteinMotif::compile("N{é}").err(), Some(ParseError::NonAsciiSymbol));
    assert_eq!(ProteinMotif::compile("Ná").err(), Some(ParseError::NonAsciiSymbol));
}

#[test]
fn windows_count_symbols_not_bytes() {
    let m = ProteinMotif::compile("N").unwrap();
    assert_eq!(m.find_motif("éNéN"), vec![2, 4]);
}
