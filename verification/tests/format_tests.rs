use rust_mallet::corpus::Corpus;
use rust_mallet::format::FormatError;

fn sample() -> Corpus {
    Corpus {
        id_to_word: vec!["alpha".to_string(), "béta".to_string()],
        docs: vec![vec![0, 1, 1], vec![1]],
        doc_names: vec!["d0".to_string(), "d1".to_string()],
        doc_labels: vec!["x".to_string(), String::new()],
        doc_freqs: vec![1, 2],
        total_freqs: vec![1, 3],
    }
}

fn same(a: &Corpus, b: &Corpus) -> bool {
    a.id_to_word == b.id_to_word
        && a.docs == b.docs
        && a.doc_names == b.doc_names
        && a.doc_labels == b.doc_labels
        && a.doc_freqs == b.doc_freqs
        && a.total_freqs == b.total_freqs
}

#[test]
fn save_then_load_gives_back_the_corpus() {
    let c = sample();
    let bytes = c.to_bytes().unwrap();
    let back = Corpus::from_bytes(&bytes).unwrap();
    assert!(same(&c, &back));
}

#[test]
fn load_then_save_gives_back_the_bytes() {
    let bytes = sample().to_bytes().unwrap();
    let again = Corpus::from_bytes(&bytes).unwrap().to_bytes().unwrap();
    assert_eq!(bytes, again);
}

#[test]
fn header_layout_is_little_endian() {
    let c = Corpus {
        id_to_word: vec!["a".to_string()],
        docs: vec![vec![0]],
        doc_names: vec!["n".to_string()],
        doc_labels: vec![String::new()],
        doc_freqs: vec![1],
        total_freqs: vec![258],
    };
    let b = c.to_bytes().unwrap();
    let expected: Vec<u8> = vec![
        b'C', b'R', b'P', b'2', 1, 0, 0, 0, 1, 0, 0, 0, // magic, types, docs
        1, 0, b'a', 1, 0, 0, 0, 2, 1, 0, 0, // word "a", df 1, tf 258
        1, 0, b'n', 0, 0, 1, 0, 0, 0, 0, 0, 0, 0, // name "n", label "", 1 token: 0
    ];
    assert_eq!(b, expected);
}

#[test]
fn utf8_word_length_counts_bytes() {
    let b = sample().to_bytes().unwrap();
    // the second word "béta" is 5 bytes long
    let pos = 4 + 4 + 4 + (2 + 5 + 4 + 4);
    assert_eq!(&b[pos..pos + 2], &[5, 0]);
}

#[test]
fn bad_magic_is_reported() {
    assert_eq!(Corpus::from_bytes(b"CRP1\0\0\0\0\0\0\0\0").err(), Some(FormatError::BadMagic));
    assert_eq!(Corpus::from_bytes(b"CR").err(), Some(FormatError::BadMagic));
}

#[test]
fn truncated_file_is_malformed() {
    let b = sample().to_bytes().unwrap();
    for cut in 4..b.len() {
        assert_eq!(Corpus::from_bytes(&b[..cut]).err(), Some(FormatError::Malformed));
    }
}

#[test]
fn trailing_bytes_are_malformed() {
    let mut b = sample().to_bytes().unwrap();
    b.push(0);
    assert_eq!(Corpus::from_bytes(&b).err(), Some(FormatError::Malformed));
}

#[test]
fn token_outside_vocabulary_is_malformed() {
    let mut b = sample().to_bytes().unwrap();
    let last = b.len() - 4;
    b[last] = 2; // the last token id becomes 2, with only 2 words
    assert_eq!(Corpus::from_bytes(&b).err(), Some(FormatError::Malformed));
}

#[test]
fn invalid_utf8_is_malformed() {
    let mut b = sample().to_bytes().unwrap();
    b[14] = 0xff; // first byte of "alpha"
    assert_eq!(Corpus::from_bytes(&b).err(), Some(FormatError::Malformed));
}

#[test]
fn empty_corpus_round_trips() {
    let c = Corpus {
        id_to_word: vec![],
        docs: vec![],
        doc_names: vec![],
        doc_labels: vec![],
        doc_freqs: vec![],
        total_freqs: vec![],
    };
    let b = c.to_bytes().unwrap();
    assert_eq!(b, b"CRP2\0\0\0\0\0\0\0\0".to_vec());
    assert!(same(&c, &Corpus::from_bytes(&b).unwrap()));
}

#[test]
fn overlong_string_does_not_fit() {
    let mut c = sample();
    c.doc_names[0] = "x".repeat(65536);
    assert!(c.to_bytes().is_none());
    c.doc_names[0] = "x".repeat(65535);
    assert!(c.to_bytes().is_some());
}

#[test]
fn counts_and_texts() {
    let c = sample();
    assert_eq!(c.num_docs(), 2);
    assert_eq!(c.num_types(), 2);
    assert_eq!(c.total_tokens(), 4);
    assert_eq!(c.doc_text(0), "alpha béta béta");
    let texts = c.doc_texts();
    assert_eq!(texts, vec![
        ("d0".to_string(), "alpha béta béta".to_string()),
        ("d1".to_string(), "béta".to_string()),
    ]);
}
