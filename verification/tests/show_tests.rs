use rust_mallet::show::{
    group_by_value, group_labels, parse_doc_topic_header, parse_doc_topic_row, parse_show_args,
    parse_topic_word_line, parse_topic_word_table, ArgsOutcome,
};

fn args(v: &[&str]) -> ArgsOutcome {
    let raw: Vec<String> = v.iter().map(|s| s.to_string()).collect();
    let ok: Vec<bool> = raw.iter().map(|s| s.parse::<f64>().is_ok()).collect();
    parse_show_args(&raw, &ok)
}

#[test]
fn defaults_without_arguments() {
    match args(&[]) {
        ArgsOutcome::Run(a) => {
            assert_eq!(a.topic_word, "topic_word.tsv");
            assert_eq!(a.doc_topic, "doc_topic.tsv");
            assert!(a.corpus.is_none());
            assert_eq!((a.words, a.top_docs, a.top_labels, a.doc_topics), (10, 5, 5, 0));
            assert!(a.threshold.is_none());
        },
        _ => panic!("expected options"),
    }
}

#[test]
fn reads_every_option() {
    match args(&[
        "--topic-word", "tw.tsv", "--doc-topic", "dt.tsv", "--corpus", "c.corp", "--words", "20",
        "--top-docs", "0", "--top-labels", "3", "--doc-topics", "4", "--threshold", "0.25",
    ]) {
        ArgsOutcome::Run(a) => {
            assert_eq!(a.topic_word, "tw.tsv");
            assert_eq!(a.doc_topic, "dt.tsv");
            assert_eq!(a.corpus.as_deref(), Some("c.corp"));
            assert_eq!((a.words, a.top_docs, a.top_labels, a.doc_topics), (20, 0, 3, 4));
            assert_eq!(a.threshold.as_deref(), Some("0.25"));
        },
        _ => panic!("expected options"),
    }
}

#[test]
fn help_unknown_and_bad_values() {
    assert!(matches!(args(&["-h"]), ArgsOutcome::Help));
    assert!(matches!(args(&["--words", "3", "--help"]), ArgsOutcome::Help));
    match args(&["--bogus", "--words"]) {
        ArgsOutcome::Unknown(s) => assert_eq!(s, "--bogus"),
        _ => panic!("expected an unknown argument"),
    }
    assert!(matches!(args(&["--words", "ten"]), ArgsOutcome::BadValue));
    assert!(matches!(args(&["--threshold", "high"]), ArgsOutcome::BadValue));
    assert!(matches!(args(&["--words"]), ArgsOutcome::MissingValue));
}

#[test]
fn topic_word_lines() {
    let r = parse_topic_word_line(&"3\tgovernment\t0.0483".to_string()).unwrap();
    assert_eq!((r.topic, r.word.as_str(), r.prob.as_str()), (3, "government", "0.0483"));
    let r = parse_topic_word_line(&"1\tw\tp\tq".to_string()).unwrap();
    assert_eq!(r.prob, "p\tq");
    assert!(parse_topic_word_line(&"x\tw\t0.1".to_string()).is_none());
    assert!(parse_topic_word_line(&"1\tw".to_string()).is_none());
}

#[test]
fn topic_word_table_skips_header_and_bad_lines() {
    let lines: Vec<String> = ["topic\tword\tprobability", "0\ta\t0.5", "bad", "1\tb\t0.2", "q\tc\t0.1"]
        .iter()
        .map(|s| s.to_string())
        .collect();
    let rows = parse_topic_word_table(&lines);
    assert_eq!(rows.len(), 2);
    assert_eq!((rows[0].topic, rows[0].word.as_str()), (0, "a"));
    assert_eq!((rows[1].topic, rows[1].word.as_str()), (1, "b"));
    assert!(parse_topic_word_table(&vec![]).is_empty());
}

#[test]
fn grouping_by_topic_sorts_topics() {
    let (keys, groups) = group_by_value(&vec![3, 1, 3, 0, 1, 3]);
    assert_eq!(keys, vec![0, 1, 3]);
    assert_eq!(groups, vec![vec![3], vec![1, 4], vec![0, 2, 5]]);
    let (keys, groups) = group_by_value(&vec![]);
    assert!(keys.is_empty() && groups.is_empty());
}

#[test]
fn doc_topic_header_with_and_without_labels() {
    let l = parse_doc_topic_header(&"doc\tlabel\ttopic_0\ttopic_1".to_string());
    assert_eq!((l.first_topic_col, l.num_topics, l.has_labels), (2, 2, true));
    let l = parse_doc_topic_header(&"doc\ttopic_0\ttopic_1\ttopic_2".to_string());
    assert_eq!((l.first_topic_col, l.num_topics, l.has_labels), (1, 3, false));
    let l = parse_doc_topic_header(&"doc".to_string());
    assert_eq!((l.first_topic_col, l.num_topics, l.has_labels), (1, 0, false));
}

#[test]
fn doc_topic_rows() {
    let l = parse_doc_topic_header(&"doc\tlabel\ttopic_0\ttopic_1".to_string());
    let r = parse_doc_topic_row(&l, &"doc001\tpolitics\t0.25\t0.75".to_string()).unwrap();
    assert_eq!(r.name, "doc001");
    assert_eq!(r.label.as_deref(), Some("politics"));
    assert_eq!(r.values, vec!["0.25", "0.75"]);
    assert!(parse_doc_topic_row(&l, &"doc002\tx\t0.5".to_string()).is_none());
    let l = parse_doc_topic_header(&"doc\ttopic_0".to_string());
    let r = parse_doc_topic_row(&l, &"d\t1.0\textra".to_string()).unwrap();
    assert!(r.label.is_none());
    assert_eq!(r.values, vec!["1.0", "extra"]);
}

#[test]
fn labels_grouped_in_first_occurrence_order() {
    let labels: Vec<String> = ["b", "", "a", "b", "c"].iter().map(|s| s.to_string()).collect();
    let (names, members) = group_labels(&labels, 4);
    assert_eq!(names, vec!["b", "a"]);
    assert_eq!(members, vec![vec![0, 3], vec![2]]);
}
