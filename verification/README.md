# rust_mallet (verified core)

The verified library behind a sparse-LDA topic-modelling toolkit.

- `src/format.rs`, `src/format_laws.rs`: the binary corpus file (`CRP2`),
  its reader and writer, and the proofs that each undoes the other.
- `src/corpus.rs`: the corpus, its well-formedness, token totals, document texts.
- `src/dtm.rs`: a corpus from a document-term count matrix; document naming.
- `src/sampler.rs`: the integer state of fixed-phi Gibbs inference for one document.
- `src/show.rs`: the viewer's command line and its tab-separated input tables.
- `src/stoplist.rs`, `src/matrix.rs`, `src/text.rs`: stoplists, matrix reads, text helpers.
- `app/`: the `show` program and the Python extension module (I/O, floating point).
