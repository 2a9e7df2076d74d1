//! Small bioinformatics routines: nucleotide statistics, FASTA decoding,
//! codon translation, protein motif matching and profile matrices.
pub mod text;
pub mod protein_motif;
pub mod genome;
pub mod profile_matrix;
pub mod strext;
