//! What the result viewer reads: its command line, the topic-word table and
//! the document-topic table (tab-separated), before any probability is parsed.
use vstd::prelude::*;
use crate::text::{
    parse_usize_spec, parse_usize, chars_of, strings_view, split_once, split_once_chars, split_all,
    split_all_chars,
};

verus! {

/// Whether `a` holds the same text as `lit`.
pub fn text_is(a: &String, lit: &str) -> (r: bool)
    ensures
        r == (a@ == lit@),
{
    let s = String::from_str(lit);
    *a == s
}

/// The viewer's options. `threshold` is the text given with `--threshold`,
/// already known to parse as a number.
pub struct ShowArgs {
    pub topic_word: String,
    pub doc_topic: String,
    pub corpus: Option<String>,
    pub words: usize,
    pub top_docs: usize,
    pub top_labels: usize,
    pub doc_topics: usize,
    pub threshold: Option<String>,
}

pub struct ShowArgsModel {
    pub topic_word: Seq<char>,
    pub doc_topic: Seq<char>,
    pub corpus: Option<Seq<char>>,
    pub words: usize,
    pub top_docs: usize,
    pub top_labels: usize,
    pub doc_topics: usize,
    pub threshold: Option<Seq<char>>,
}

pub open spec fn opt_view(o: Option<String>) -> Option<Seq<char>> {
    match o {
        Some(s) => Some(s@),
        None => None,
    }
}

impl View for ShowArgs {
    type V = ShowArgsModel;

    open spec fn view(&self) -> ShowArgsModel {
        ShowArgsModel {
            topic_word: self.topic_word@,
            doc_topic: self.doc_topic@,
            corpus: opt_view(self.corpus),
            words: self.words,
            top_docs: self.top_docs,
            top_labels: self.top_labels,
            doc_topics: self.doc_topics,
            threshold: opt_view(self.threshold),
        }
    }
}

/// The options when none is given.
pub open spec fn default_args() -> ShowArgsModel {
    ShowArgsModel {
        topic_word: "topic_word.tsv"@,
        doc_topic: "doc_topic.tsv"@,
        corpus: None,
        words: 10,
        top_docs: 5,
        top_labels: 5,
        doc_topics: 0,
        threshold: None,
    }
}

impl ShowArgs {
    /// The options when none is given.
    pub fn new() -> (a: ShowArgs)
        ensures
            a@ == default_args(),
    {
        ShowArgs {
            topic_word: String::from_str("topic_word.tsv"),
            doc_topic: String::from_str("doc_topic.tsv"),
            corpus: None,
            words: 10,
            top_docs: 5,
            top_labels: 5,
            doc_topics: 0,
            threshold: None,
        }
    }
}

/// How reading the command line ended.
pub enum ArgsOutcome {
    /// All arguments were understood.
    Run(ShowArgs),
    /// `--help` or `-h` was given.
    Help,
    /// An argument that is not an option.
    Unknown(String),
    /// A number option whose value is not a number.
    BadValue,
    /// An option that takes a value came last.
    MissingValue,
}

pub enum ArgsOutcomeModel {
    Run(ShowArgsModel),
    Help,
    Unknown(Seq<char>),
    BadValue,
    MissingValue,
}

impl View for ArgsOutcome {
    type V = ArgsOutcomeModel;

    open spec fn view(&self) -> ArgsOutcomeModel {
        match self {
            ArgsOutcome::Run(a) => ArgsOutcomeModel::Run(a@),
            ArgsOutcome::Help => ArgsOutcomeModel::Help,
            ArgsOutcome::Unknown(s) => ArgsOutcomeModel::Unknown(s@),
            ArgsOutcome::BadValue => ArgsOutcomeModel::BadValue,
            ArgsOutcome::MissingValue => ArgsOutcomeModel::MissingValue,
        }
    }
}

/// The outcome of a number option at `i` whose value is `raw[i + 1]`.
pub open spec fn with_number(
    raw: Seq<Seq<char>>,
    number_ok: Seq<bool>,
    i: int,
    acc: ShowArgsModel,
    which: int,
) -> ArgsOutcomeModel
    decreases raw.len() - i, 0int,
{
    if i + 1 >= raw.len() {
        ArgsOutcomeModel::MissingValue
    } else {
        match parse_usize_spec(raw[i + 1]) {
            None => ArgsOutcomeModel::BadValue,
            Some(v) => parse_args_from(
                raw,
                number_ok,
                i + 2,
                if which == 0 {
                    ShowArgsModel { words: v, ..acc }
                } else if which == 1 {
                    ShowArgsModel { top_docs: v, ..acc }
                } else if which == 2 {
                    ShowArgsModel { top_labels: v, ..acc }
                } else {
                    ShowArgsModel { doc_topics: v, ..acc }
                },
            ),
        }
    }
}

/// Reads the arguments from position `i` on, with the options read so far in
/// `acc`. `number_ok[j]` says whether `raw[j]` parses as a floating-point number.
pub open spec fn parse_args_from(
    raw: Seq<Seq<char>>,
    number_ok: Seq<bool>,
    i: int,
    acc: ShowArgsModel,
) -> ArgsOutcomeModel
    decreases raw.len() - i, 1int,
{
    if i < 0 || i >= raw.len() {
        ArgsOutcomeModel::Run(acc)
    } else {
        let a = raw[i];
        if a == "--topic-word"@ {
            if i + 1 < raw.len() {
                parse_args_from(raw, number_ok, i + 2, ShowArgsModel { topic_word: raw[i + 1], ..acc })
            } else {
                ArgsOutcomeModel::MissingValue
            }
        } else if a == "--doc-topic"@ {
            if i + 1 < raw.len() {
                parse_args_from(raw, number_ok, i + 2, ShowArgsModel { doc_topic: raw[i + 1], ..acc })
            } else {
                ArgsOutcomeModel::MissingValue
            }
        } else if a == "--corpus"@ {
            if i + 1 < raw.len() {
                parse_args_from(
                    raw,
                    number_ok,
                    i + 2,
                    ShowArgsModel { corpus: Some(raw[i + 1]), ..acc },
                )
            } else {
                ArgsOutcomeModel::MissingValue
            }
        } else if a == "--words"@ {
            with_number(raw, number_ok, i, acc, 0)
        } else if a == "--top-docs"@ {
            with_number(raw, number_ok, i, acc, 1)
        } else if a == "--top-labels"@ {
            with_number(raw, number_ok, i, acc, 2)
        } else if a == "--doc-topics"@ {
            with_number(raw, number_ok, i, acc, 3)
        } else if a == "--threshold"@ {
            if i + 1 >= raw.len() {
                ArgsOutcomeModel::MissingValue
            } else if i + 1 < number_ok.len() && number_ok[i + 1] {
                parse_args_from(
                    raw,
                    number_ok,
                    i + 2,
                    ShowArgsModel { threshold: Some(raw[i + 1]), ..acc },
                )
            } else {
                ArgsOutcomeModel::BadValue
            }
        } else if a == "--help"@ || a == "-h"@ {
            ArgsOutcomeModel::Help
        } else {
            ArgsOutcomeModel::Unknown(a)
        }
    }
}

/// The option names are all different.
proof fn lemma_options_distinct()
    ensures
        "--topic-word"@ != "--doc-topic"@,
        "--topic-word"@ != "--corpus"@,
        "--topic-word"@ != "--words"@,
        "--topic-word"@ != "--top-docs"@,
        "--topic-word"@ != "--top-labels"@,
        "--topic-word"@ != "--doc-topics"@,
        "--topic-word"@ != "--threshold"@,
        "--doc-topic"@ != "--corpus"@,
        "--doc-topic"@ != "--words"@,
        "--doc-topic"@ != "--top-docs"@,
        "--doc-topic"@ != "--top-labels"@,
        "--doc-topic"@ != "--doc-topics"@,
        "--doc-topic"@ != "--threshold"@,
        "--corpus"@ != "--words"@,
        "--corpus"@ != "--top-docs"@,
        "--corpus"@ != "--top-labels"@,
        "--corpus"@ != "--doc-topics"@,
        "--corpus"@ != "--threshold"@,
        "--words"@ != "--top-docs"@,
        "--words"@ != "--top-labels"@,
        "--words"@ != "--doc-topics"@,
        "--words"@ != "--threshold"@,
        "--top-docs"@ != "--top-labels"@,
        "--top-docs"@ != "--doc-topics"@,
        "--top-docs"@ != "--threshold"@,
        "--top-labels"@ != "--doc-topics"@,
        "--top-labels"@ != "--threshold"@,
        "--doc-topics"@ != "--threshold"@,
{
    reveal_strlit("--topic-word");
    reveal_strlit("--doc-topic");
    reveal_strlit("--corpus");
    reveal_strlit("--words");
    reveal_strlit("--top-docs");
    reveal_strlit("--top-labels");
    reveal_strlit("--doc-topics");
    reveal_strlit("--threshold");
    assert("--topic-word"@[2] != "--doc-topic"@[2]);
    assert("--topic-word"@[5] != "--top-labels"@[5]);
    assert("--topic-word"@[2] != "--doc-topics"@[2]);
    assert("--topic-word"@[2] != "--threshold"@[3]);
    assert("--doc-topic"@[2] != "--threshold"@[2]);
    assert("--top-labels"@[2] != "--doc-topics"@[2]);
    assert("--doc-topic"@.len() != "--doc-topics"@.len());
    assert("--corpus"@.len() != "--words"@.len());
    assert("--top-docs"@[6] != "--top-labels"@[6]);
}

/// A number option sets its own field, and only that field, to the number
/// after it, and reading goes on after the number.
pub proof fn lemma_number_option(raw: Seq<Seq<char>>, number_ok: Seq<bool>, i: int, acc: ShowArgsModel, v: usize)
    requires
        0 <= i,
        i + 1 < raw.len(),
        parse_usize_spec(raw[i + 1]) == Some(v),
    ensures
        raw[i] == "--words"@ ==> parse_args_from(raw, number_ok, i, acc) == parse_args_from(
            raw,
            number_ok,
            i + 2,
            ShowArgsModel {
                topic_word: acc.topic_word,
                doc_topic: acc.doc_topic,
                corpus: acc.corpus,
                words: v,
                top_docs: acc.top_docs,
                top_labels: acc.top_labels,
                doc_topics: acc.doc_topics,
                threshold: acc.threshold,
            },
        ),
        raw[i] == "--top-docs"@ ==> parse_args_from(raw, number_ok, i, acc) == parse_args_from(
            raw,
            number_ok,
            i + 2,
            ShowArgsModel {
                topic_word: acc.topic_word,
                doc_topic: acc.doc_topic,
                corpus: acc.corpus,
                words: acc.words,
                top_docs: v,
                top_labels: acc.top_labels,
                doc_topics: acc.doc_topics,
                threshold: acc.threshold,
            },
        ),
        raw[i] == "--top-labels"@ ==> parse_args_from(raw, number_ok, i, acc) == parse_args_from(
            raw,
            number_ok,
            i + 2,
            ShowArgsModel {
                topic_word: acc.topic_word,
                doc_topic: acc.doc_topic,
                corpus: acc.corpus,
                words: acc.words,
                top_docs: acc.top_docs,
                top_labels: v,
                doc_topics: acc.doc_topics,
                threshold: acc.threshold,
            },
        ),
        raw[i] == "--doc-topics"@ ==> parse_args_from(raw, number_ok, i, acc) == parse_args_from(
            raw,
            number_ok,
            i + 2,
            ShowArgsModel {
                topic_word: acc.topic_word,
                doc_topic: acc.doc_topic,
                corpus: acc.corpus,
                words: acc.words,
                top_docs: acc.top_docs,
                top_labels: acc.top_labels,
                doc_topics: v,
                threshold: acc.threshold,
            },
        ),
{
    lemma_options_distinct();
    if raw[i] == "--words"@ {
        assert(parse_args_from(raw, number_ok, i, acc) == with_number(raw, number_ok, i, acc, 0));
    } else if raw[i] == "--top-docs"@ {
        assert(parse_args_from(raw, number_ok, i, acc) == with_number(raw, number_ok, i, acc, 1));
    } else if raw[i] == "--top-labels"@ {
        assert(parse_args_from(raw, number_ok, i, acc) == with_number(raw, number_ok, i, acc, 2));
    } else if raw[i] == "--doc-topics"@ {
        assert(parse_args_from(raw, number_ok, i, acc) == with_number(raw, number_ok, i, acc, 3));
    }
}

/// A text option sets its own field, and only that field, to the argument
/// after it.
pub proof fn lemma_text_option(raw: Seq<Seq<char>>, number_ok: Seq<bool>, i: int, acc: ShowArgsModel)
    requires
        0 <= i,
        i + 1 < raw.len(),
    ensures
        raw[i] == "--topic-word"@ ==> parse_args_from(raw, number_ok, i, acc) == parse_args_from(
            raw,
            number_ok,
            i + 2,
            ShowArgsModel {
                topic_word: raw[i + 1],
                doc_topic: acc.doc_topic,
                corpus: acc.corpus,
                words: acc.words,
                top_docs: acc.top_docs,
                top_labels: acc.top_labels,
                doc_topics: acc.doc_topics,
                threshold: acc.threshold,
            },
        ),
        raw[i] == "--doc-topic"@ ==> parse_args_from(raw, number_ok, i, acc) == parse_args_from(
            raw,
            number_ok,
            i + 2,
            ShowArgsModel {
                topic_word: acc.topic_word,
                doc_topic: raw[i + 1],
                corpus: acc.corpus,
                words: acc.words,
                top_docs: acc.top_docs,
                top_labels: acc.top_labels,
                doc_topics: acc.doc_topics,
                threshold: acc.threshold,
            },
        ),
        raw[i] == "--corpus"@ ==> parse_args_from(raw, number_ok, i, acc) == parse_args_from(
            raw,
            number_ok,
            i + 2,
            ShowArgsModel {
                topic_word: acc.topic_word,
                doc_topic: acc.doc_topic,
                corpus: Some(raw[i + 1]),
                words: acc.words,
                top_docs: acc.top_docs,
                top_labels: acc.top_labels,
                doc_topics: acc.doc_topics,
                threshold: acc.threshold,
            },
        ),
        raw[i] == "--threshold"@ && i + 1 < number_ok.len() && number_ok[i + 1] ==> parse_args_from(
            raw,
            number_ok,
            i,
            acc,
        ) == parse_args_from(
            raw,
            number_ok,
            i + 2,
            ShowArgsModel {
                topic_word: acc.topic_word,
                doc_topic: acc.doc_topic,
                corpus: acc.corpus,
                words: acc.words,
                top_docs: acc.top_docs,
                top_labels: acc.top_labels,
                doc_topics: acc.doc_topics,
                threshold: Some(raw[i + 1]),
            },
        ),
{
    lemma_options_distinct();
}

/// A command line of one number option and its value gives the default
/// options with just that option's field changed: `--top-docs n` leaves
/// `--top-labels` at 5, and so on.
pub proof fn lemma_single_number_option(opt: Seq<char>, value: Seq<char>, number_ok: Seq<bool>, v: usize)
    requires
        parse_usize_spec(value) == Some(v),
    ensures
        ({
            let out = parse_args_from(seq![opt, value], number_ok, 0, default_args());
            &&& opt == "--words"@ ==> out == ArgsOutcomeModel::Run(ShowArgsModel { words: v, ..default_args() })
            &&& opt == "--top-docs"@ ==> out == ArgsOutcomeModel::Run(ShowArgsModel { top_docs: v, ..default_args() })
            &&& opt == "--top-labels"@ ==> out == ArgsOutcomeModel::Run(ShowArgsModel { top_labels: v, ..default_args() })
            &&& opt == "--doc-topics"@ ==> out == ArgsOutcomeModel::Run(ShowArgsModel { doc_topics: v, ..default_args() })
            &&& opt == "--top-docs"@ ==> (out matches ArgsOutcomeModel::Run(a) && a.top_docs == v
                && a.top_labels == 5 && a.words == 10 && a.doc_topics == 0)
        }),
{
    let raw = seq![opt, value];
    assert(raw[0] == opt && raw[1] == value);
    lemma_number_option(raw, number_ok, 0, default_args(), v);
}

/// The number given after the option at `i`: `None` when there is no next
/// argument, `Some(None)` when it is not a number.
fn number_at(raw: &Vec<String>, i: usize) -> (res: Option<Option<usize>>)
    requires
        i < raw@.len(),
    ensures
        i + 1 >= raw@.len() ==> res is None,
        i + 1 < raw@.len() ==> res == Some(parse_usize_spec(raw@[i + 1]@)),
{
    if i >= raw.len() - 1 {
        return None;
    }
    Some(parse_usize(&chars_of(raw[i + 1].as_str())))
}

/// Reads the viewer's command line (without the program name). `number_ok[j]`
/// tells whether `raw[j]` parses as a floating-point number.
pub fn parse_show_args(raw: &Vec<String>, number_ok: &Vec<bool>) -> (res: ArgsOutcome)
    requires
        raw@.len() == number_ok@.len(),
    ensures
        res@ == parse_args_from(strings_view(raw@), number_ok@, 0, default_args()),
{
    let ghost r = strings_view(raw@);
    let mut acc = ShowArgs::new();
    let mut i: usize = 0;
    while i < raw.len()
        invariant
            r == strings_view(raw@),
            raw@.len() == number_ok@.len(),
            i <= raw@.len() + 1,
            parse_args_from(r, number_ok@, 0, default_args()) == parse_args_from(r, number_ok@, i as int, acc@),
        decreases raw@.len() + 1 - i,
    {
        let a = &raw[i];
        assert(r[i as int] == a@);
        let has_value = i + 1 < raw.len();
        if has_value {
            assert(r[i + 1] == raw@[i + 1]@);
        }
        if text_is(a, "--topic-word") {
            if !has_value {
                return ArgsOutcome::MissingValue;
            }
            acc.topic_word = raw[i + 1].clone();
        } else if text_is(a, "--doc-topic") {
            if !has_value {
                return ArgsOutcome::MissingValue;
            }
            acc.doc_topic = raw[i + 1].clone();
        } else if text_is(a, "--corpus") {
            if !has_value {
                return ArgsOutcome::MissingValue;
            }
            acc.corpus = Some(raw[i + 1].clone());
        } else if text_is(a, "--words") {
            assert(parse_args_from(r, number_ok@, i as int, acc@) == with_number(r, number_ok@, i as int, acc@, 0));
            match number_at(raw, i) {
                None => return ArgsOutcome::MissingValue,
                Some(None) => return ArgsOutcome::BadValue,
                Some(Some(v)) => acc.words = v,
            }
        } else if text_is(a, "--top-docs") {
            assert(parse_args_from(r, number_ok@, i as int, acc@) == with_number(r, number_ok@, i as int, acc@, 1));
            match number_at(raw, i) {
                None => return ArgsOutcome::MissingValue,
                Some(None) => return ArgsOutcome::BadValue,
                Some(Some(v)) => acc.top_docs = v,
            }
        } else if text_is(a, "--top-labels") {
            assert(parse_args_from(r, number_ok@, i as int, acc@) == with_number(r, number_ok@, i as int, acc@, 2));
            match number_at(raw, i) {
                None => return ArgsOutcome::MissingValue,
                Some(None) => return ArgsOutcome::BadValue,
                Some(Some(v)) => acc.top_labels = v,
            }
        } else if text_is(a, "--doc-topics") {
            assert(parse_args_from(r, number_ok@, i as int, acc@) == with_number(r, number_ok@, i as int, acc@, 3));
            match number_at(raw, i) {
                None => return ArgsOutcome::MissingValue,
                Some(None) => return ArgsOutcome::BadValue,
                Some(Some(v)) => acc.doc_topics = v,
            }
        } else if text_is(a, "--threshold") {
            if !has_value {
                return ArgsOutcome::MissingValue;
            }
            if !number_ok[i + 1] {
                return ArgsOutcome::BadValue;
            }
            acc.threshold = Some(raw[i + 1].clone());
        } else if text_is(a, "--help") || text_is(a, "-h") {
            return ArgsOutcome::Help;
        } else {
            return ArgsOutcome::Unknown(a.clone());
        }
        i = i + 2;
    }
    ArgsOutcome::Run(acc)
}

/// One line of the topic-word table: topic, word, and the probability's text.
pub struct TopicWordRow {
    pub topic: usize,
    pub word: String,
    pub prob: String,
}

/// What a line of the topic-word table holds: the text up to the first tab is
/// a topic number, up to the second tab the word, the rest the probability.
pub open spec fn topic_word_line(line: Seq<char>) -> Option<(usize, Seq<char>, Seq<char>)> {
    match split_once(line, '\t') {
        None => None,
        Some((a, rest)) => match split_once(rest, '\t') {
            None => None,
            Some((w, p)) => match parse_usize_spec(a) {
                None => None,
                Some(t) => Some((t, w, p)),
            },
        },
    }
}

/// The rows of the given lines that are topic-word rows, in order.
pub open spec fn topic_word_rows(lines: Seq<Seq<char>>) -> Seq<(usize, Seq<char>, Seq<char>)>
    decreases lines.len(),
{
    if lines.len() == 0 {
        seq![]
    } else {
        match topic_word_line(lines.last()) {
            Some(r) => topic_word_rows(lines.drop_last()).push(r),
            None => topic_word_rows(lines.drop_last()),
        }
    }
}

pub open spec fn row_view(r: TopicWordRow) -> (usize, Seq<char>, Seq<char>) {
    (r.topic, r.word@, r.prob@)
}

/// Reads one line of the topic-word table.
pub fn parse_topic_word_line(line: &String) -> (res: Option<TopicWordRow>)
    ensures
        match topic_word_line(line@) {
            None => res is None,
            Some(r) => res matches Some(x) && row_view(x) == r,
        },
{
    let cs = chars_of(line.as_str());
    let (a, rest) = match split_once_chars(&cs, '\t') {
        None => return None,
        Some(p) => p,
    };
    let (w, p) = match split_once_chars(&chars_of(rest.as_str()), '\t') {
        None => return None,
        Some(p) => p,
    };
    match parse_usize(&chars_of(a.as_str())) {
        None => None,
        Some(t) => Some(TopicWordRow { topic: t, word: w, prob: p }),
    }
}

/// The lines after the header line.
pub open spec fn table_body(lines: Seq<Seq<char>>) -> Seq<Seq<char>> {
    if lines.len() == 0 {
        seq![]
    } else {
        lines.skip(1)
    }
}

/// The body of a table is every line but the first, in order.
pub proof fn lemma_table_body(lines: Seq<Seq<char>>)
    ensures
        lines.len() == 0 ==> table_body(lines).len() == 0,
        lines.len() > 0 ==> table_body(lines).len() == lines.len() - 1,
        forall|i: int| 0 <= i < lines.len() - 1 ==> #[trigger] table_body(lines)[i] == lines[i + 1],
{
}

proof fn lemma_rows_of_lines(s: Seq<Seq<char>>)
    ensures
        forall|j: int|
            0 <= j < s.len() && topic_word_line(s[j]) is Some ==> topic_word_rows(s).contains(
                #[trigger] topic_word_line(s[j]).unwrap(),
            ),
        forall|k: int|
            0 <= k < topic_word_rows(s).len() ==> exists|j: int|
                0 <= j < s.len() && topic_word_line(s[j]) == Some(#[trigger] topic_word_rows(s)[k]),
    decreases s.len(),
{
    if s.len() > 0 {
        let s0 = s.drop_last();
        lemma_rows_of_lines(s0);
        let r0 = topic_word_rows(s0);
        let r = topic_word_rows(s);
        assert forall|j: int| 0 <= j < s.len() && topic_word_line(s[j]) is Some implies r.contains(
            #[trigger] topic_word_line(s[j]).unwrap(),
        ) by {
            if j < s0.len() {
                assert(s0[j] == s[j]);
                let x = topic_word_line(s[j]).unwrap();
                assert(r0.contains(x));
                let q = choose|q: int| 0 <= q < r0.len() && r0[q] == x;
                assert(r[q] == x);
            } else {
                assert(r[r.len() - 1] == topic_word_line(s[j]).unwrap());
            }
        }
        assert forall|k: int| 0 <= k < r.len() implies exists|j: int|
            0 <= j < s.len() && topic_word_line(s[j]) == Some(#[trigger] r[k]) by {
            if k < r0.len() {
                assert(r[k] == r0[k]);
                let j = choose|j: int| 0 <= j < s0.len() && topic_word_line(s0[j]) == Some(r0[k]);
                assert(s[j] == s0[j]);
            } else {
                assert(topic_word_line(s[s.len() - 1]) == Some(r[k]));
            }
        }
    }
}

/// Every line after the header that is a topic-word row gives its row, and
/// every row read comes from such a line.
pub proof fn lemma_topic_word_table_rows(lines: Seq<Seq<char>>)
    ensures
        forall|j: int|
            1 <= j < lines.len() && topic_word_line(lines[j]) is Some ==> topic_word_rows(
                table_body(lines),
            ).contains(#[trigger] topic_word_line(lines[j]).unwrap()),
        forall|k: int|
            0 <= k < topic_word_rows(table_body(lines)).len() ==> exists|j: int|
                1 <= j < lines.len() && topic_word_line(lines[j]) == Some(
                    #[trigger] topic_word_rows(table_body(lines))[k],
                ),
{
    let b = table_body(lines);
    lemma_table_body(lines);
    lemma_rows_of_lines(b);
    assert forall|j: int| 1 <= j < lines.len() && topic_word_line(lines[j]) is Some implies topic_word_rows(
        b,
    ).contains(#[trigger] topic_word_line(lines[j]).unwrap()) by {
        assert(b[j - 1] == lines[j]);
    }
    assert forall|k: int| 0 <= k < topic_word_rows(b).len() implies exists|j: int|
        1 <= j < lines.len() && topic_word_line(lines[j]) == Some(#[trigger] topic_word_rows(b)[k]) by {
        let j = choose|j: int| 0 <= j < b.len() && topic_word_line(b[j]) == Some(topic_word_rows(b)[k]);
        assert(b[j] == lines[j + 1]);
    }
}

/// Reads the topic-word table: the first line is a header; lines that are not
/// rows (fewer than three columns, or a topic that is not a number) are skipped.
pub fn parse_topic_word_table(lines: &Vec<String>) -> (rows: Vec<TopicWordRow>)
    ensures
        rows@.map_values(|r: TopicWordRow| row_view(r)) == topic_word_rows(
            table_body(strings_view(lines@)),
        ),
{
    let mut rows: Vec<TopicWordRow> = Vec::new();
    if lines.len() == 0 {
        assert(rows@.map_values(|r: TopicWordRow| row_view(r)) =~= Seq::empty());
        return rows;
    }
    let ghost body = table_body(strings_view(lines@));
    let mut i: usize = 1;
    assert(body.take(0) =~= Seq::<Seq<char>>::empty());
    assert(rows@.map_values(|r: TopicWordRow| row_view(r)) =~= Seq::empty());
    while i < lines.len()
        invariant
            1 <= i <= lines@.len(),
            body == strings_view(lines@).skip(1),
            body == table_body(strings_view(lines@)),
            rows@.map_values(|r: TopicWordRow| row_view(r)) == topic_word_rows(body.take(i - 1)),
        decreases lines@.len() - i,
    {
        assert(body.take(i as int).drop_last() =~= body.take(i - 1));
        assert(body.take(i as int).last() == lines@[i as int]@);
        let ghost before = rows@;
        match parse_topic_word_line(&lines[i]) {
            None => {},
            Some(r) => {
                rows.push(r);
                assert(rows@.map_values(|r: TopicWordRow| row_view(r)) =~= before.map_values(
                    |r: TopicWordRow| row_view(r),
                ).push(row_view(rows@.last())));
            },
        }
        i = i + 1;
    }
    assert(body.take(i - 1) =~= body);
    rows
}

/// The layout of the document-topic table, read from its header: whether the
/// second column holds labels, where the topic columns start, how many there are.
pub struct DocTopicLayout {
    pub first_topic_col: usize,
    pub num_topics: usize,
    pub has_labels: bool,
}

pub open spec fn layout_first_col(header: Seq<char>) -> nat {
    let cols = split_all(header, '\t');
    if cols.len() > 1 && cols[1] == "label"@ {
        2
    } else {
        1
    }
}

pub open spec fn layout_num_topics(header: Seq<char>) -> nat {
    let cols = split_all(header, '\t');
    if cols.len() >= layout_first_col(header) {
        (cols.len() - layout_first_col(header)) as nat
    } else {
        0
    }
}

proof fn lemma_split_all_nonempty(s: Seq<char>, sep: char)
    ensures
        split_all(s, sep).len() >= 1,
{
}

/// Reads the header of the document-topic table.
pub fn parse_doc_topic_header(header: &String) -> (l: DocTopicLayout)
    ensures
        l.first_topic_col == layout_first_col(header@),
        l.num_topics == layout_num_topics(header@),
        l.has_labels == (l.first_topic_col == 2),
        l.first_topic_col <= split_all(header@, '\t').len(),
{
    let cols = split_all_chars(&chars_of(header.as_str()), '\t');
    proof {
        lemma_split_all_nonempty(header@, '\t');
    }
    assert(strings_view(cols@).len() == cols@.len());
    let first: usize = if cols.len() > 1 && text_is(&cols[1], "label") {
        2
    } else {
        1
    };
    assert(cols.len() > 1 ==> strings_view(cols@)[1] == cols@[1]@);
    DocTopicLayout { first_topic_col: first, num_topics: cols.len() - first, has_labels: first == 2 }
}

/// A row of the document-topic table: the document's name, its label when the
/// table has a label column, and the texts of all columns from the first topic
/// column on.
pub struct DocTopicRow {
    pub name: String,
    pub label: Option<String>,
    pub values: Vec<String>,
}

/// Reads a row of the document-topic table; `None` when it has fewer columns
/// than the header's first topic column plus its number of topics.
pub fn parse_doc_topic_row(layout: &DocTopicLayout, line: &String) -> (res: Option<DocTopicRow>)
    requires
        layout.first_topic_col >= 1,
        layout.has_labels == (layout.first_topic_col == 2),
    ensures
        ({
            let fields = split_all(line@, '\t');
            let first = layout.first_topic_col as int;
            if fields.len() < first + layout.num_topics {
                res is None
            } else {
                res matches Some(r) && r.name@ == fields[0] && opt_view(r.label) == (if layout.has_labels {
                    Some(fields[1])
                } else {
                    None
                }) && strings_view(r.values@) == fields.skip(first)
            }
        }),
{
    let fields = split_all_chars(&chars_of(line.as_str()), '\t');
    let ghost f = split_all(line@, '\t');
    assert(strings_view(fields@).len() == fields@.len());
    let first = layout.first_topic_col;
    if fields.len() < first || fields.len() - first < layout.num_topics {
        return None;
    }
    assert(f[0] == fields@[0]@);
    let label = if layout.has_labels {
        assert(f[1] == fields@[1]@);
        Some(fields[1].clone())
    } else {
        None
    };
    let mut values: Vec<String> = Vec::new();
    let mut j: usize = first;
    while j < fields.len()
        invariant
            first <= j <= fields@.len(),
            f == strings_view(fields@),
            strings_view(values@) == f.subrange(first as int, j as int),
        decreases fields@.len() - j,
    {
        let ghost before = values@;
        assert(f[j as int] == fields@[j as int]@);
        values.push(fields[j].clone());
        assert(values@ == before.push(values@.last()));
        assert(values@.last()@ == f[j as int]);
        assert(strings_view(values@) =~= strings_view(before).push(f[j as int]));
        assert(strings_view(values@) =~= f.subrange(first as int, j + 1));
        j = j + 1;
    }
    assert(f.subrange(first as int, j as int) =~= f.skip(first as int));
    Some(DocTopicRow { name: fields[0].clone(), label, values })
}

/// The positions in `s` that hold `v`, in increasing order.
pub open spec fn indices_of(s: Seq<usize>, v: usize) -> Seq<usize>
    decreases s.len(),
{
    if s.len() == 0 {
        seq![]
    } else if s.last() == v {
        indices_of(s.drop_last(), v).push((s.len() - 1) as usize)
    } else {
        indices_of(s.drop_last(), v)
    }
}

pub open spec fn strictly_increasing(k: Seq<usize>) -> bool {
    forall|i: int, j: int| 0 <= i < j < k.len() ==> k[i] < k[j]
}

/// `keys` and `groups` group the positions of `s` by value: the distinct values
/// in increasing order, and for each the positions that hold it.
pub open spec fn is_grouping(s: Seq<usize>, keys: Seq<usize>, groups: Seq<Seq<usize>>) -> bool {
    &&& keys.len() == groups.len()
    &&& strictly_increasing(keys)
    &&& forall|v: usize| keys.contains(v) <==> s.contains(v)
    &&& forall|k: int| 0 <= k < keys.len() ==> #[trigger] groups[k] == indices_of(s, keys[k])
}

/// First position in the sorted `keys` whose key is at least `t`.
fn lower_bound(keys: &Vec<usize>, t: usize) -> (p: usize)
    requires
        strictly_increasing(keys@),
    ensures
        p <= keys@.len(),
        forall|j: int| 0 <= j < p ==> keys@[j] < t,
        forall|j: int| p <= j < keys@.len() ==> keys@[j] >= t,
{
    let mut lo: usize = 0;
    let mut hi: usize = keys.len();
    while lo < hi
        invariant
            lo <= hi <= keys@.len(),
            strictly_increasing(keys@),
            forall|j: int| 0 <= j < lo ==> keys@[j] < t,
            forall|j: int| hi <= j < keys@.len() ==> keys@[j] >= t,
        decreases hi - lo,
    {
        let mid = lo + (hi - lo) / 2;
        if keys[mid] < t {
            lo = mid + 1;
        } else {
            hi = mid;
        }
    }
    lo
}

/// Groups the positions of `s` by value, as a `BTreeMap` from value to
/// positions: the distinct values in increasing order, each with the
/// positions that hold it, in order.
pub fn group_by_value(s: &Vec<usize>) -> (res: (Vec<usize>, Vec<Vec<usize>>))
    ensures
        is_grouping(s@, res.0@, res.1@.map_values(|g: Vec<usize>| g@)),
{
    let mut keys: Vec<usize> = Vec::new();
    let mut groups: Vec<Vec<usize>> = Vec::new();
    let mut i: usize = 0;
    assert(s@.take(0) =~= Seq::<usize>::empty());
    while i < s.len()
        invariant
            i <= s@.len(),
            is_grouping(s@.take(i as int), keys@, groups@.map_values(|g: Vec<usize>| g@)),
        decreases s@.len() - i,
    {
        let t = s[i];
        let ghost pre = s@.take(i as int);
        let ghost post = s@.take(i + 1);
        let ghost gv = groups@.map_values(|g: Vec<usize>| g@);
        assert(post.drop_last() =~= pre);
        assert(post.last() == t);
        assert(forall|v: usize| #[trigger] indices_of(post, v) == if v == t {
            indices_of(pre, v).push(i)
        } else {
            indices_of(pre, v)
        });
        assert(forall|v: usize| #[trigger] post.contains(v) <==> pre.contains(v) || v == t) by {
            assert forall|v: usize| #[trigger] post.contains(v) implies pre.contains(v) || v == t by {
                let j = choose|j: int| 0 <= j < post.len() && post[j] == v;
                if j < i {
                    assert(pre[j] == v);
                }
            }
            assert forall|v: usize| pre.contains(v) implies #[trigger] post.contains(v) by {
                let j = choose|j: int| 0 <= j < pre.len() && pre[j] == v;
                assert(post[j] == v);
            }
            assert(post[i as int] == t);
        }
        let p = lower_bound(&keys, t);
        if p < keys.len() && keys[p] == t {
            let ghost g0 = groups@;
            let mut g = groups.remove(p);
            assert(g == g0[p as int]);
            g.push(i);
            groups.insert(p, g);
            proof {
                let gv2 = groups@.map_values(|g: Vec<usize>| g@);
                assert forall|k: int| 0 <= k < keys@.len() implies #[trigger] gv2[k] == indices_of(
                    post,
                    keys@[k],
                ) by {
                    if k != p {
                        assert(keys@[k] != t) by {
                            if k < p {
                            } else {
                                assert(keys@[p as int] < keys@[k]);
                            }
                        }
                        assert(gv2[k] == gv[k]);
                    } else {
                        assert(gv2[k] =~= gv[k].push(i));
                    }
                }
                assert forall|v: usize| keys@.contains(v) <==> #[trigger] post.contains(v) by {
                    if v == t {
                        assert(keys@[p as int] == t);
                    }
                }
            }
        } else {
            let ghost k0 = keys@;
            keys.insert(p, t);
            let mut g: Vec<usize> = Vec::new();
            g.push(i);
            groups.insert(p, g);
            proof {
                assert(!pre.contains(t)) by {
                    if pre.contains(t) {
                        assert(k0.contains(t));
                        let j = choose|j: int| 0 <= j < k0.len() && k0[j] == t;
                        if j < p {
                        } else if j > p {
                            assert(k0[p as int] < k0[j]);
                        }
                    }
                }
                lemma_indices_absent(pre, t);
                let gv2 = groups@.map_values(|g: Vec<usize>| g@);
                assert forall|a: int, b: int| 0 <= a < b < keys@.len() implies keys@[a] < keys@[b] by {
                    if b < p {
                    } else if a > p {
                        assert(keys@[a] == k0[a - 1]);
                        assert(keys@[b] == k0[b - 1]);
                    } else if a == p {
                        assert(keys@[b] == k0[b - 1]);
                    } else if b == p {
                    } else {
                        assert(keys@[b] == k0[b - 1]);
                    }
                }
                assert forall|k: int| 0 <= k < keys@.len() implies #[trigger] gv2[k] == indices_of(
                    post,
                    keys@[k],
                ) by {
                    if k < p {
                        assert(gv2[k] == gv[k]);
                        assert(keys@[k] == k0[k]);
                    } else if k > p {
                        assert(gv2[k] == gv[k - 1]);
                        assert(keys@[k] == k0[k - 1]);
                        assert(k0[k - 1] != t);
                    } else {
                        assert(gv2[k] =~= seq![i]);
                        assert(Seq::<usize>::empty().push(i) =~= seq![i]);
                    }
                }
                assert forall|v: usize| keys@.contains(v) <==> #[trigger] post.contains(v) by {
                    if keys@.contains(v) {
                        let j = choose|j: int| 0 <= j < keys@.len() && keys@[j] == v;
                        if j < p {
                            assert(k0[j] == v);
                        } else if j > p {
                            assert(k0[j - 1] == v);
                        }
                    }
                    if k0.contains(v) {
                        let j = choose|j: int| 0 <= j < k0.len() && k0[j] == v;
                        if j < p {
                            assert(keys@[j] == v);
                        } else {
                            assert(keys@[j + 1] == v);
                        }
                    }
                    if v == t {
                        assert(keys@[p as int] == t);
                    }
                }
            }
        }
        i = i + 1;
    }
    assert(s@.take(i as int) =~= s@);
    (keys, groups)
}

proof fn lemma_indices_absent(s: Seq<usize>, v: usize)
    requires
        !s.contains(v),
    ensures
        indices_of(s, v) == Seq::<usize>::empty(),
    decreases s.len(),
{
    if s.len() > 0 {
        assert(!s.drop_last().contains(v)) by {
            if s.drop_last().contains(v) {
                let j = choose|j: int| 0 <= j < s.drop_last().len() && s.drop_last()[j] == v;
                assert(s[j] == v);
            }
        }
        assert(s[s.len() - 1] != v);
        lemma_indices_absent(s.drop_last(), v);
    }
}

/// The positions in `s` that hold `x`, in increasing order.
pub open spec fn positions_of(s: Seq<Seq<char>>, x: Seq<char>) -> Seq<usize>
    decreases s.len(),
{
    if s.len() == 0 {
        seq![]
    } else if s.last() == x {
        positions_of(s.drop_last(), x).push((s.len() - 1) as usize)
    } else {
        positions_of(s.drop_last(), x)
    }
}

/// `out` lists the distinct non-empty labels of `s` in order of first
/// occurrence, and `members[k]` the positions that hold `out[k]`.
pub open spec fn is_label_grouping(s: Seq<Seq<char>>, out: Seq<Seq<char>>, members: Seq<Seq<usize>>) -> bool {
    &&& out.len() == members.len()
    &&& forall|a: int, b: int| 0 <= a < b < out.len() ==> out[a] != out[b]
    &&& forall|x: Seq<char>| #[trigger] out.contains(x) <==> (x.len() > 0 && s.contains(x))
    &&& forall|k: int| 0 <= k < out.len() ==> #[trigger] members[k] == positions_of(s, out[k])
    &&& forall|k: int| 0 <= k < out.len() ==> #[trigger] members[k].len() > 0
    &&& forall|a: int, b: int| 0 <= a < b < out.len() ==> members[a][0] < members[b][0]
}

proof fn lemma_positions_absent(s: Seq<Seq<char>>, x: Seq<char>)
    requires
        !s.contains(x),
    ensures
        positions_of(s, x) == Seq::<usize>::empty(),
    decreases s.len(),
{
    if s.len() > 0 {
        assert(!s.drop_last().contains(x)) by {
            if s.drop_last().contains(x) {
                let j = choose|j: int| 0 <= j < s.drop_last().len() && s.drop_last()[j] == x;
                assert(s[j] == x);
            }
        }
        assert(s[s.len() - 1] != x);
        lemma_positions_absent(s.drop_last(), x);
    }
}

fn find_label(out: &Vec<String>, x: &String) -> (res: Option<usize>)
    ensures
        match res {
            Some(k) => k < out@.len() && out@[k as int]@ == x@,
            None => forall|j: int| 0 <= j < out@.len() ==> out@[j]@ != x@,
        },
{
    let mut k: usize = 0;
    while k < out.len()
        invariant
            k <= out@.len(),
            forall|j: int| 0 <= j < k ==> out@[j]@ != x@,
        decreases out@.len() - k,
    {
        if out[k] == *x {
            return Some(k);
        }
        k = k + 1;
    }
    None
}

/// Groups the first `n` labels: the distinct non-empty labels in order of first
/// occurrence, each with the positions (below `n`) that hold it.
pub fn group_labels(labels: &Vec<String>, n: usize) -> (res: (Vec<String>, Vec<Vec<usize>>))
    requires
        n <= labels@.len(),
    ensures
        is_label_grouping(
            strings_view(labels@).take(n as int),
            strings_view(res.0@),
            res.1@.map_values(|g: Vec<usize>| g@),
        ),
{
    let ghost all = strings_view(labels@);
    let mut out: Vec<String> = Vec::new();
    let mut members: Vec<Vec<usize>> = Vec::new();
    let mut i: usize = 0;
    assert(all.take(0) =~= Seq::<Seq<char>>::empty());
    assert(strings_view(out@) =~= Seq::<Seq<char>>::empty());
    while i < n
        invariant
            n <= labels@.len(),
            all == strings_view(labels@),
            i <= n,
            is_label_grouping(all.take(i as int), strings_view(out@), members@.map_values(|g: Vec<usize>| g@)),
            forall|k: int, j: int| 0 <= k < members@.len() && 0 <= j < members@[k]@.len() ==> #[trigger] members@[k]@[j] < i,
        decreases n - i,
    {
        let ghost pre = all.take(i as int);
        let ghost post = all.take(i + 1);
        let ghost ov = strings_view(out@);
        let ghost mv = members@.map_values(|g: Vec<usize>| g@);
        let x = &labels[i];
        assert(post.drop_last() =~= pre);
        assert(post.last() == x@);
        assert(all[i as int] == x@);
        assert(forall|y: Seq<char>| #[trigger] positions_of(post, y) == if y == x@ {
            positions_of(pre, y).push(i)
        } else {
            positions_of(pre, y)
        });
        assert(forall|y: Seq<char>| #[trigger] post.contains(y) <==> pre.contains(y) || y == x@) by {
            assert forall|y: Seq<char>| #[trigger] post.contains(y) implies pre.contains(y) || y == x@ by {
                let j = choose|j: int| 0 <= j < post.len() && post[j] == y;
                if j < i {
                    assert(pre[j] == y);
                }
            }
            assert forall|y: Seq<char>| pre.contains(y) implies #[trigger] post.contains(y) by {
                let j = choose|j: int| 0 <= j < pre.len() && pre[j] == y;
                assert(post[j] == y);
            }
            assert(post[i as int] == x@);
        }
        if x.as_str().is_empty() {
            proof {
                assert forall|k: int| 0 <= k < ov.len() implies #[trigger] mv[k] == positions_of(post, ov[k]) by {
                    assert(ov.contains(ov[k]));
                }
                assert forall|y: Seq<char>| #[trigger] ov.contains(y) <==> (y.len() > 0 && post.contains(y)) by {}
            }
        } else {
            match find_label(&out, x) {
                Some(k) => {
                    let ghost m0 = members@;
                    let mut g = members.remove(k);
                    assert(g == m0[k as int]);
                    g.push(i);
                    members.insert(k, g);
                    proof {
                        let mv2 = members@.map_values(|g: Vec<usize>| g@);
                        assert(ov[k as int] == x@);
                        assert(mv2[k as int] =~= mv[k as int].push(i));
                        assert forall|j: int| 0 <= j < ov.len() implies #[trigger] mv2[j] == positions_of(post, ov[j]) by {
                            if j != k {
                                assert(mv2[j] == mv[j]);
                                assert(ov[j] != x@);
                            }
                        }
                        assert forall|j: int| 0 <= j < ov.len() implies #[trigger] mv2[j].len() > 0 by {
                            if j != k {
                                assert(mv2[j] == mv[j]);
                            }
                        }
                        assert forall|a: int, b: int| 0 <= a < b < ov.len() implies mv2[a][0] < mv2[b][0] by {
                            assert(mv2[a][0] == mv[a][0]);
                            assert(mv2[b][0] == mv[b][0]);
                        }
                        assert forall|y: Seq<char>| #[trigger] ov.contains(y) <==> (y.len() > 0 && post.contains(y)) by {
                            if y == x@ {
                                assert(ov[k as int] == y);
                            }
                        }
                        assert forall|a: int, j: int| 0 <= a < members@.len() && 0 <= j < members@[a]@.len() implies #[trigger] members@[a]@[j] < i + 1 by {
                            if a != k {
                                assert(members@[a] == m0[a]);
                            } else if j < m0[a]@.len() {
                                assert(members@[a]@[j] == m0[a]@[j]);
                            }
                        }
                    }
                },
                None => {
                    let ghost m0 = members@;
                    assert forall|a: int| 0 <= a < m0.len() implies m0[a]@[0] < i by {
                        assert(mv[a].len() > 0);
                        assert(members@[a]@[0] < i);
                    }
                    proof {
                        assert(!pre.contains(x@)) by {
                            if pre.contains(x@) {
                                assert(ov.contains(x@));
                                let j = choose|j: int| 0 <= j < ov.len() && ov[j] == x@;
                                assert(out@[j]@ == x@);
                            }
                        }
                        lemma_positions_absent(pre, x@);
                    }
                    out.push(x.clone());
                    let mut g: Vec<usize> = Vec::new();
                    g.push(i);
                    members.push(g);
                    proof {
                        let ov2 = strings_view(out@);
                        let mv2 = members@.map_values(|g: Vec<usize>| g@);
                        assert(ov2 =~= ov.push(x@));
                        assert(mv2 =~= mv.push(seq![i]));
                        assert(positions_of(post, x@) =~= seq![i]);
                        assert forall|a: int, b: int| 0 <= a < b < ov2.len() implies ov2[a] != ov2[b] by {
                            if b == ov.len() {
                                assert(out@[a]@ != x@);
                            }
                        }
                        assert forall|a: int, b: int| 0 <= a < b < ov2.len() implies mv2[a][0] < mv2[b][0] by {
                            if b == ov.len() {
                                assert(m0[a]@[0] < i);
                            }
                        }
                        assert forall|y: Seq<char>| #[trigger] ov2.contains(y) <==> (y.len() > 0 && post.contains(y)) by {
                            if ov2.contains(y) && y != x@ {
                                let j = choose|j: int| 0 <= j < ov2.len() && ov2[j] == y;
                                assert(ov.contains(y)) by {
                                    assert(ov[j] == y);
                                }
                            }
                            if ov.contains(y) {
                                let j = choose|j: int| 0 <= j < ov.len() && ov[j] == y;
                                assert(ov2[j] == y);
                            }
                            assert(ov2[ov.len() as int] == x@);
                        }
                        assert forall|k: int| 0 <= k < ov2.len() implies #[trigger] mv2[k] == positions_of(post, ov2[k]) by {
                            if k < ov.len() {
                                assert(ov[k] != x@) by {
                                    assert(out@[k]@ != x@);
                                }
                            }
                        }
                        assert forall|a: int, j: int| 0 <= a < members@.len() && 0 <= j < members@[a]@.len() implies #[trigger] members@[a]@[j] < i + 1 by {
                            if a < m0.len() {
                                assert(members@[a] == m0[a]);
                            }
                        }
                    }
                },
            }
        }
        i = i + 1;
    }
    (out, members)
}

} // verus!
