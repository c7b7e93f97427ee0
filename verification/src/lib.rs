//! Verified core of a sparse-LDA topic-modelling toolkit: the binary corpus
//! format, corpus construction from count matrices, the integer state of the
//! fixed-phi Gibbs inference sampler, stoplist parsing, and the parsing of the
//! command-line arguments and TSV files read by the result viewer.
pub mod corpus;
pub mod dtm;
pub mod format;
pub mod format_laws;
pub mod matrix;
pub mod sampler;
pub mod show;
pub mod stoplist;
pub mod text;
