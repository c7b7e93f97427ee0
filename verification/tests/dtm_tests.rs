use rust_mallet::corpus::Corpus;
use rust_mallet::dtm::{string_doc_names, DtmError};

#[test]
fn builds_documents_from_counts() {
    let x = vec![vec![2, 0, 1], vec![0, 0, 0], vec![0, 3, 1]];
    let c = Corpus::from_dtm(&x, None).unwrap();
    assert_eq!(c.id_to_word, vec!["0", "1", "2"]);
    assert_eq!(c.docs, vec![vec![0, 0, 2], vec![1, 1, 1, 2]]);
    assert_eq!(c.doc_names, vec!["doc_0", "doc_2"]);
    assert_eq!(c.doc_labels, vec!["", ""]);
    assert_eq!(c.total_freqs, vec![2, 3, 2]);
    assert_eq!(c.doc_freqs, vec![1, 1, 2]);
}

#[test]
fn uses_the_given_vocabulary() {
    let x = vec![vec![1, 1]];
    let c = Corpus::from_dtm(&x, Some(vec!["cat".to_string(), "dog".to_string()])).unwrap();
    assert_eq!(c.id_to_word, vec!["cat", "dog"]);
    assert_eq!(c.doc_text(0), "cat dog");
}

#[test]
fn empty_matrix_is_refused() {
    assert_eq!(Corpus::from_dtm(&vec![], None).err(), Some(DtmError::Empty));
}

#[test]
fn vocabulary_length_must_match() {
    let x = vec![vec![1, 1]];
    assert_eq!(
        Corpus::from_dtm(&x, Some(vec!["a".to_string()])).err(),
        Some(DtmError::VocabularyLength { vocab_len: 1, n_words: 2 })
    );
}

#[test]
fn ragged_row_is_reported() {
    let x = vec![vec![1, 1], vec![1, 1], vec![1], vec![1, 2, 3]];
    assert_eq!(
        Corpus::from_dtm(&x, None).err(),
        Some(DtmError::RowLength { row: 2, len: 1, expected: 2 })
    );
}

#[test]
fn all_empty_rows_give_no_documents() {
    let c = Corpus::from_dtm(&vec![vec![0, 0], vec![0, 0]], None).unwrap();
    assert_eq!(c.num_docs(), 0);
    assert_eq!(c.num_types(), 2);
    assert_eq!(c.doc_freqs, vec![0, 0]);
}

#[test]
fn dtm_corpus_saves_and_loads() {
    let c = Corpus::from_dtm(&vec![vec![1, 2], vec![3, 0]], None).unwrap();
    let back = Corpus::from_bytes(&c.to_bytes().unwrap()).unwrap();
    assert_eq!(back.docs, c.docs);
    assert_eq!(back.doc_names, c.doc_names);
}

#[test]
fn string_documents_are_named() {
    let names = string_doc_names(3, &Some(vec!["first".to_string()]));
    assert_eq!(names, vec!["first", "doc_1", "doc_2"]);
    assert_eq!(string_doc_names(2, &None), vec!["doc_0", "doc_1"]);
}
