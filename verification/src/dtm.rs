//! Building a corpus from a document-term count matrix.
use vstd::prelude::*;
use crate::corpus::{Corpus, CorpusModel, docs_view, total_len, tokens_in_vocab};
use crate::text::{decimal, strings_view, usize_to_decimal, parse_usize_spec, lemma_parse_decimal};

verus! {

/// The row number that a document name carries after its `doc_` prefix
/// (-1 when there is none).
pub open spec fn name_row(name: Seq<char>) -> int {
    if name.len() >= 4 {
        match parse_usize_spec(name.skip(4)) {
            Some(r) => r as int,
            None => -1,
        }
    } else {
        -1
    }
}

/// The name given to the document on row `i`: `doc_` and the row number.
pub open spec fn doc_name(i: nat) -> Seq<char> {
    seq!['d', 'o', 'c', '_'] + decimal(i)
}

/// A document name is `doc_` followed by a number that parses back to the
/// row it names, so different rows get different names.
pub proof fn lemma_doc_name_parses(i: usize, j: usize)
    ensures
        doc_name(i as nat).len() > 4,
        doc_name(i as nat).take(4) == seq!['d', 'o', 'c', '_'],
        parse_usize_spec(doc_name(i as nat).skip(4)) == Some(i),
        i != j ==> doc_name(i as nat) != doc_name(j as nat),
{
    lemma_parse_decimal(i);
    lemma_parse_decimal(j);
    let p = seq!['d', 'o', 'c', '_'];
    assert(doc_name(i as nat).take(4) =~= p);
    assert(doc_name(i as nat).skip(4) =~= decimal(i as nat));
    assert(doc_name(j as nat).skip(4) =~= decimal(j as nat));
}

/// Builds `doc_<i>`.
pub fn make_doc_name(i: usize) -> (s: String)
    ensures
        s@ == doc_name(i as nat),
        s@.take(4) == seq!['d', 'o', 'c', '_'],
        parse_usize_spec(s@.skip(4)) == Some(i),
{
    proof {
        lemma_doc_name_parses(i, i);
    }
    let prefix = String::from_str("doc_");
    proof {
        reveal_strlit("doc_");
    }
    let digits = usize_to_decimal(i);
    let s = prefix.concat(digits.as_str());
    assert(s@ =~= doc_name(i as nat));
    s
}

/// The names of `n` documents given as strings: the given id where there is
/// one, else `doc_<i>`.
pub open spec fn string_doc_name(ids: Option<Seq<Seq<char>>>, i: int) -> Seq<char> {
    match ids {
        Some(v) => if i < v.len() {
            v[i]
        } else {
            doc_name(i as nat)
        },
        None => doc_name(i as nat),
    }
}

/// Names the documents of a list of texts.
pub fn string_doc_names(n: usize, ids: &Option<Vec<String>>) -> (names: Vec<String>)
    ensures
        names@.len() == n,
        forall|i: int| 0 <= i < n ==> (#[trigger] names@[i])@ == string_doc_name(
            match ids {
                Some(v) => Some(strings_view(v@)),
                None => None,
            },
            i,
        ),
{
    let ghost idv = match ids {
        Some(v) => Some(strings_view(v@)),
        None => None::<Seq<Seq<char>>>,
    };
    let mut names: Vec<String> = Vec::new();
    let mut i: usize = 0;
    while i < n
        invariant
            i <= n,
            idv == match ids {
                Some(v) => Some(strings_view(v@)),
                None => None::<Seq<Seq<char>>>,
            },
            names@.len() == i,
            forall|j: int| 0 <= j < i ==> (#[trigger] names@[j])@ == string_doc_name(idv, j),
        decreases n - i,
    {
        let name = match ids {
            Some(v) => if i < v.len() {
                assert(strings_view(v@)[i as int] == v@[i as int]@);
                v[i].clone()
            } else {
                make_doc_name(i)
            },
            None => make_doc_name(i),
        };
        names.push(name);
        i = i + 1;
    }
    names
}

/// The count of word `w` in a row; 0 beyond the row's end.
pub open spec fn cell(row: Seq<u32>, w: int) -> int {
    if 0 <= w < row.len() {
        row[w] as int
    } else {
        0
    }
}

/// The tokens of a row: each word id repeated as often as its count says, in
/// word-id order.
pub open spec fn row_tokens(row: Seq<u32>) -> Seq<u32>
    decreases row.len(),
{
    if row.len() == 0 {
        seq![]
    } else {
        row_tokens(row.drop_last()) + Seq::new(row.last() as nat, |k: int| (row.len() - 1) as u32)
    }
}

/// The total count of word `w` over the rows.
pub open spec fn col_total(x: Seq<Seq<u32>>, w: int) -> int
    decreases x.len(),
{
    if x.len() == 0 {
        0
    } else {
        col_total(x.drop_last(), w) + cell(x.last(), w)
    }
}

/// The number of rows in which word `w` has a positive count.
pub open spec fn col_docs(x: Seq<Seq<u32>>, w: int) -> int
    decreases x.len(),
{
    if x.len() == 0 {
        0
    } else {
        col_docs(x.drop_last(), w) + if cell(x.last(), w) > 0 {
            1int
        } else {
            0int
        }
    }
}

/// The documents: the token lists of the rows that hold at least one token.
pub open spec fn dtm_docs(x: Seq<Seq<u32>>) -> Seq<Seq<u32>>
    decreases x.len(),
{
    if x.len() == 0 {
        seq![]
    } else if row_tokens(x.last()).len() > 0 {
        dtm_docs(x.drop_last()).push(row_tokens(x.last()))
    } else {
        dtm_docs(x.drop_last())
    }
}

/// The document names: `doc_<row>` for each row that holds a token.
pub open spec fn dtm_names(x: Seq<Seq<u32>>) -> Seq<Seq<char>>
    decreases x.len(),
{
    if x.len() == 0 {
        seq![]
    } else if row_tokens(x.last()).len() > 0 {
        dtm_names(x.drop_last()).push(doc_name((x.len() - 1) as nat))
    } else {
        dtm_names(x.drop_last())
    }
}

/// The document labels: empty, one per document.
pub open spec fn dtm_labels(x: Seq<Seq<u32>>) -> Seq<Seq<char>>
    decreases x.len(),
{
    if x.len() == 0 {
        seq![]
    } else if row_tokens(x.last()).len() > 0 {
        dtm_labels(x.drop_last()).push(Seq::<char>::empty())
    } else {
        dtm_labels(x.drop_last())
    }
}

/// The vocabulary used when none is given: the column numbers in decimal.
pub open spec fn default_vocab(n: nat) -> Seq<Seq<char>> {
    Seq::new(n, |i: int| decimal(i as nat))
}

/// The corpus that the count matrix `x` describes, over the vocabulary `words`.
pub open spec fn dtm_model(x: Seq<Seq<u32>>, words: Seq<Seq<char>>) -> CorpusModel {
    CorpusModel {
        words,
        docs: dtm_docs(x),
        names: dtm_names(x),
        labels: dtm_labels(x),
        doc_freqs: Seq::new(words.len(), |w: int| col_docs(x, w) as u32),
        total_freqs: Seq::new(words.len(), |w: int| col_total(x, w) as u32),
    }
}

/// The first `k` rows all have `n` columns.
pub open spec fn rows_have_len(x: Seq<Seq<u32>>, k: int, n: nat) -> bool {
    forall|r: int| 0 <= r < k ==> #[trigger] x[r].len() == n
}

/// Row `r` is the first row whose length is not `n`.
pub open spec fn is_first_bad_row(x: Seq<Seq<u32>>, n: nat, r: int) -> bool {
    0 <= r < x.len() && x[r].len() != n && rows_have_len(x, r, n)
}

/// The counts fit the corpus's integer types: word ids and per-word totals fit
/// a `u32`, and the token total fits a `usize`, over every run of leading
/// rows that has the width of the first row.
pub open spec fn dtm_fits(x: Seq<Seq<u32>>) -> bool {
    x.len() > 0 ==> {
        let n = x[0].len();
        &&& n <= u32::MAX
        &&& forall|k: int|
            #![trigger x.take(k)]
            0 <= k <= x.len() && rows_have_len(x, k, n) ==> {
                &&& forall|w: int| 0 <= w < n ==> #[trigger] col_total(x.take(k), w) <= u32::MAX
                &&& total_len(#[trigger] dtm_docs(x.take(k))) <= usize::MAX
            }
    }
}

/// The number of columns: the length of the first row.
pub open spec fn dtm_width(xs: Seq<Seq<u32>>) -> nat {
    if xs.len() > 0 {
        xs[0].len()
    } else {
        0
    }
}

/// The first row whose length differs from the first row's, if any.
pub open spec fn bad_row(xs: Seq<Seq<u32>>) -> Option<int> {
    if exists|r: int| is_first_bad_row(xs, dtm_width(xs), r) {
        Some(choose|r: int| is_first_bad_row(xs, dtm_width(xs), r))
    } else {
        None
    }
}

/// The vocabulary of the corpus built from a matrix with `n` columns.
pub open spec fn dtm_vocab(vocabulary: Option<Vec<String>>, n: nat) -> Seq<Seq<char>> {
    match vocabulary {
        Some(v) => strings_view(v@),
        None => default_vocab(n),
    }
}

/// Why a count matrix does not describe a corpus.
#[derive(Debug, Clone, Copy, PartialEq, Eq, Structural)]
pub enum DtmError {
    /// The matrix has no rows.
    Empty,
    /// The vocabulary's length differs from the number of columns.
    VocabularyLength { vocab_len: usize, n_words: usize },
    /// A row's length differs from the first row's.
    RowLength { row: usize, len: usize, expected: usize },
}

proof fn lemma_row_tokens_bound(row: Seq<u32>)
    ensures
        forall|k: int| 0 <= k < row_tokens(row).len() ==> #[trigger] row_tokens(row)[k] < row.len(),
    decreases row.len(),
{
    if row.len() > 0 {
        lemma_row_tokens_bound(row.drop_last());
        let a = row_tokens(row.drop_last());
        assert forall|k: int| 0 <= k < row_tokens(row).len() implies #[trigger] row_tokens(row)[k]
            < row.len() by {
            if k < a.len() {
                assert(row_tokens(row)[k] == a[k]);
            }
        }
    }
}

proof fn lemma_col_docs_le_total(x: Seq<Seq<u32>>, w: int)
    ensures
        0 <= col_docs(x, w) <= col_total(x, w),
    decreases x.len(),
{
    if x.len() > 0 {
        lemma_col_docs_le_total(x.drop_last(), w);
    }
}

proof fn lemma_dtm_docs_props(x: Seq<Seq<u32>>, n: nat)
    requires
        rows_have_len(x, x.len() as int, n),
    ensures
        dtm_names(x).len() == dtm_docs(x).len(),
        dtm_labels(x).len() == dtm_docs(x).len(),
        tokens_in_vocab(dtm_docs(x), n),
    decreases x.len(),
{
    if x.len() > 0 {
        let x0 = x.drop_last();
        assert(rows_have_len(x0, x0.len() as int, n)) by {
            assert forall|r: int| 0 <= r < x0.len() implies #[trigger] x0[r].len() == n by {
                assert(x0[r] == x[r]);
            }
        }
        lemma_dtm_docs_props(x0, n);
        assert(x[x.len() - 1].len() == n);
        lemma_row_tokens_bound(x.last());
        let d0 = dtm_docs(x0);
        let d = dtm_docs(x);
        assert forall|i: int, k: int| 0 <= i < d.len() && 0 <= k < d[i].len() implies #[trigger] d[i][k]
            < n by {
            if i < d0.len() {
                assert(d[i] == d0[i]);
            }
        }
    }
}

/// The vocabulary `0`, `1`, ..., `n - 1`.
fn default_vocabulary(n: usize) -> (v: Vec<String>)
    ensures
        strings_view(v@) == default_vocab(n as nat),
{
    let mut v: Vec<String> = Vec::new();
    let mut i: usize = 0;
    while i < n
        invariant
            i <= n,
            strings_view(v@) == default_vocab(i as nat),
        decreases n - i,
    {
        let ghost before = v@;
        v.push(usize_to_decimal(i));
        assert(strings_view(v@) =~= default_vocab((i + 1) as nat)) by {
            assert(strings_view(v@) =~= strings_view(before).push(decimal(i as nat)));
        }
        i = i + 1;
    }
    v
}

fn zeros(n: usize) -> (v: Vec<u32>)
    ensures
        v@ == Seq::new(n as nat, |w: int| 0u32),
{
    let mut v: Vec<u32> = Vec::new();
    while v.len() < n
        invariant
            v.len() <= n,
            v@ == Seq::new(v.len() as nat, |w: int| 0u32),
        decreases n - v.len(),
    {
        v.push(0);
        assert(v@ =~= Seq::new(v.len() as nat, |w: int| 0u32));
    }
    v
}

/// Adds row `i` of `x`: returns its tokens and adds its counts to the per-word
/// totals and document frequencies.
fn add_row(
    row: &Vec<u32>,
    totals: &mut Vec<u32>,
    dfs: &mut Vec<u32>,
    Ghost(x): Ghost<Seq<Seq<u32>>>,
    Ghost(i): Ghost<int>,
) -> (tokens: Vec<u32>)
    requires
        0 <= i < x.len(),
        row@ == x[i],
        old(totals)@.len() == row@.len(),
        old(dfs)@.len() == row@.len(),
        row@.len() <= u32::MAX,
        forall|w: int| 0 <= w < row@.len() ==> old(totals)@[w] == col_total(x.take(i), w),
        forall|w: int| 0 <= w < row@.len() ==> old(dfs)@[w] == col_docs(x.take(i), w),
        forall|w: int| 0 <= w < row@.len() ==> #[trigger] col_total(x.take(i + 1), w) <= u32::MAX,
    ensures
        tokens@ == row_tokens(row@),
        final(totals)@.len() == row@.len(),
        final(dfs)@.len() == row@.len(),
        forall|w: int| 0 <= w < row@.len() ==> final(totals)@[w] == col_total(x.take(i + 1), w),
        forall|w: int| 0 <= w < row@.len() ==> final(dfs)@[w] == col_docs(x.take(i + 1), w),
{
    let ghost prev = x.take(i);
    let ghost next = x.take(i + 1);
    assert(next.drop_last() =~= prev);
    assert(next.last() == x[i]);
    let n = row.len();
    let mut tokens: Vec<u32> = Vec::new();
    let mut j: usize = 0;
    assert(row@.take(0) =~= Seq::<u32>::empty());
    while j < n
        invariant
            n == row@.len(),
            n <= u32::MAX,
            0 <= i < x.len(),
            row@ == x[i],
            prev == x.take(i),
            next.drop_last() == prev,
            next.last() == x[i],
            next == x.take(i + 1),
            j <= n,
            tokens@ == row_tokens(row@.take(j as int)),
            totals@.len() == n,
            dfs@.len() == n,
            forall|w: int| 0 <= w < n ==> #[trigger] col_total(next, w) <= u32::MAX,
            forall|w: int|
                0 <= w < n ==> totals@[w] == if w < j {
                    col_total(next, w)
                } else {
                    col_total(prev, w)
                },
            forall|w: int|
                0 <= w < n ==> dfs@[w] == if w < j {
                    col_docs(next, w)
                } else {
                    col_docs(prev, w)
                },
        decreases n - j,
    {
        let c = row[j];
        let ghost base = tokens@;
        let mut k: u32 = 0;
        assert(base + Seq::new(0, |t: int| j as u32) =~= base);
        while k < c
            invariant
                k <= c,
                tokens@ == base + Seq::new(k as nat, |t: int| j as u32),
            decreases c - k,
        {
            tokens.push(j as u32);
            k = k + 1;
            assert(tokens@ =~= base + Seq::new(k as nat, |t: int| j as u32));
        }
        assert(row@.take(j + 1).drop_last() =~= row@.take(j as int));
        assert(tokens@ =~= row_tokens(row@.take(j + 1)));
        assert(next.len() == i + 1);
        assert(cell(next.last(), j as int) == c as int);
        assert(col_total(next, j as int) == col_total(prev, j as int) + c);
        assert(col_docs(next, j as int) == col_docs(prev, j as int) + if c > 0 { 1int } else { 0int });
        assert(col_total(next, j as int) <= u32::MAX);
        if c > 0 {
            proof {
                lemma_col_docs_le_total(next, j as int);
            }
            let t = totals[j] + c;
            totals.set(j, t);
            let d = dfs[j] + 1;
            dfs.set(j, d);
        }
        j = j + 1;
    }
    assert(row@.take(n as int) =~= row@);
    tokens
}

impl Corpus {
    /// Builds a corpus from a document-term count matrix: `x[i][j]` is the
    /// count of word `j` in row `i`. The vocabulary is the given one, or the
    /// column numbers in decimal. Rows holding no token are left out; the
    /// others become documents named `doc_<row>` with an empty label.
    pub fn from_dtm(x: &Vec<Vec<u32>>, vocabulary: Option<Vec<String>>) -> (res: Result<
        Corpus,
        DtmError,
    >)
        requires
            dtm_fits(docs_view(x@)),
        ensures
            ({
                let xs = docs_view(x@);
                let n = dtm_width(xs);
                if xs.len() == 0 {
                    res == Err::<Corpus, DtmError>(DtmError::Empty)
                } else if vocabulary is Some && vocabulary.unwrap()@.len() != n {
                    res == Err::<Corpus, DtmError>(
                        DtmError::VocabularyLength {
                            vocab_len: vocabulary.unwrap()@.len() as usize,
                            n_words: n as usize,
                        },
                    )
                } else {
                    match bad_row(xs) {
                        Some(r) => res == Err::<Corpus, DtmError>(
                            DtmError::RowLength {
                                row: r as usize,
                                len: xs[r].len() as usize,
                                expected: n as usize,
                            },
                        ),
                        None => res matches Ok(c) && c@ == dtm_model(xs, dtm_vocab(vocabulary, n))
                            && c@.wf(),
                    }
                }
            }),
    {
        let ghost xs = docs_view(x@);
        if x.len() == 0 {
            return Err(DtmError::Empty);
        }
        let n = x[0].len();
        assert(xs[0] == x@[0]@);
        let id_to_word = match vocabulary {
            Some(v) => {
                if v.len() != n {
                    return Err(DtmError::VocabularyLength { vocab_len: v.len(), n_words: n });
                }
                v
            },
            None => default_vocabulary(n),
        };
        let mut totals = zeros(n);
        let mut dfs = zeros(n);
        let mut docs: Vec<Vec<u32>> = Vec::new();
        let mut names: Vec<String> = Vec::new();
        let mut labels: Vec<String> = Vec::new();
        let mut i: usize = 0;
        assert(xs.take(0) =~= Seq::<Seq<u32>>::empty());
        while i < x.len()
            invariant
                xs == docs_view(x@),
                dtm_fits(xs),
                xs.len() > 0,
                n == xs[0].len(),
                vocabulary is Some ==> vocabulary.unwrap()@.len() == n,
                strings_view(id_to_word@) == dtm_vocab(vocabulary, n as nat),
                i <= xs.len(),
                rows_have_len(xs, i as int, n as nat),
                totals@.len() == n,
                dfs@.len() == n,
                forall|w: int| 0 <= w < n ==> totals@[w] == col_total(xs.take(i as int), w),
                forall|w: int| 0 <= w < n ==> dfs@[w] == col_docs(xs.take(i as int), w),
                docs_view(docs@) == dtm_docs(xs.take(i as int)),
                strings_view(names@) == dtm_names(xs.take(i as int)),
                strings_view(labels@) == dtm_labels(xs.take(i as int)),
            decreases xs.len() - i,
        {
            assert(xs[i as int] == x@[i as int]@);
            if x[i].len() != n {
                assert(is_first_bad_row(xs, n as nat, i as int));
                assert(dtm_width(xs) == n);
                assert(bad_row(xs) == Some(i as int)) by {
                    let r = choose|r: int| is_first_bad_row(xs, dtm_width(xs), r);
                    if r < i {
                        assert(xs[r].len() == n);
                    } else if r > i {
                        assert(xs[i as int].len() == n);
                    }
                }
                return Err(DtmError::RowLength { row: i, len: x[i].len(), expected: n });
            }
            let ghost next = xs.take(i + 1);
            assert(next.drop_last() =~= xs.take(i as int));
            assert(next.last() == xs[i as int]);
            assert(rows_have_len(xs, i + 1, n as nat));
            assert(forall|w: int| 0 <= w < n ==> #[trigger] col_total(xs.take(i + 1), w) <= u32::MAX);
            let tokens = add_row(&x[i], &mut totals, &mut dfs, Ghost(xs), Ghost(i as int));
            if tokens.len() > 0 {
                let ghost (d0, n0, l0) = (docs@, names@, labels@);
                docs.push(tokens);
                names.push(make_doc_name(i));
                labels.push(String::new());
                assert(docs_view(docs@) =~= docs_view(d0).push(docs@.last()@));
                assert(strings_view(names@) =~= strings_view(n0).push(names@.last()@));
                assert(strings_view(labels@) =~= strings_view(l0).push(labels@.last()@));
            }
            i = i + 1;
        }
        assert(xs.take(xs.len() as int) =~= xs);
        assert(!exists|r: int| is_first_bad_row(xs, n as nat, r));
        assert(dtm_width(xs) == n);
        assert(bad_row(xs) is None);
        proof {
            lemma_dtm_docs_props(xs, n as nat);
        }
        let c = Corpus {
            id_to_word,
            docs,
            doc_names: names,
            doc_labels: labels,
            doc_freqs: dfs,
            total_freqs: totals,
        };
        assert(c@.doc_freqs =~= Seq::new(n as nat, |w: int| col_docs(xs, w) as u32));
        assert(c@.total_freqs =~= Seq::new(n as nat, |w: int| col_total(xs, w) as u32));
        Ok(c)
    }
}

/// How many tokens of `s` are word `w`.
pub open spec fn tok_count(s: Seq<u32>, w: int) -> nat
    decreases s.len(),
{
    if s.len() == 0 {
        0
    } else {
        tok_count(s.drop_last(), w) + if s.last() == w {
            1nat
        } else {
            0nat
        }
    }
}

/// How many tokens of all the documents are word `w`.
pub open spec fn occurrences(docs: Seq<Seq<u32>>, w: int) -> nat
    decreases docs.len(),
{
    if docs.len() == 0 {
        0
    } else {
        occurrences(docs.drop_last(), w) + tok_count(docs.last(), w)
    }
}

/// How many documents hold word `w`.
pub open spec fn docs_containing(docs: Seq<Seq<u32>>, w: int) -> nat
    decreases docs.len(),
{
    if docs.len() == 0 {
        0
    } else {
        docs_containing(docs.drop_last(), w) + if tok_count(docs.last(), w) > 0 {
            1nat
        } else {
            0nat
        }
    }
}

proof fn lemma_tok_count_concat(a: Seq<u32>, b: Seq<u32>, w: int)
    ensures
        tok_count(a + b, w) == tok_count(a, w) + tok_count(b, w),
    decreases b.len(),
{
    if b.len() == 0 {
        assert(a + b =~= a);
    } else {
        assert((a + b).drop_last() =~= a + b.drop_last());
        lemma_tok_count_concat(a, b.drop_last(), w);
    }
}

proof fn lemma_tok_count_const(c: nat, x: u32, w: int)
    ensures
        tok_count(Seq::new(c, |k: int| x), w) == if x == w {
            c
        } else {
            0
        },
    decreases c,
{
    if c > 0 {
        assert(Seq::new(c, |k: int| x).drop_last() =~= Seq::new((c - 1) as nat, |k: int| x));
        lemma_tok_count_const((c - 1) as nat, x, w);
    }
}

proof fn lemma_row_tokens_count(row: Seq<u32>, w: int)
    requires
        row.len() <= u32::MAX + 1,
    ensures
        tok_count(row_tokens(row), w) == cell(row, w),
    decreases row.len(),
{
    if row.len() > 0 {
        let r0 = row.drop_last();
        lemma_row_tokens_count(r0, w);
        let last = (row.len() - 1) as u32;
        lemma_tok_count_concat(row_tokens(r0), Seq::new(row.last() as nat, |k: int| last), w);
        lemma_tok_count_const(row.last() as nat, last, w);
        assert(row_tokens(row) == row_tokens(r0) + Seq::new(row.last() as nat, |k: int| last));
        if 0 <= w < row.len() - 1 {
            assert(r0[w] == row[w]);
        }
    }
}

/// In a corpus built from a count matrix, the total frequency of each word is
/// its number of occurrences over the documents, and its document frequency
/// the number of documents that hold it.
pub proof fn lemma_dtm_freqs_agree(x: Seq<Seq<u32>>, words: Seq<Seq<char>>, w: int)
    requires
        x.len() > 0,
        dtm_fits(x),
        rows_have_len(x, x.len() as int, x[0].len()),
        words.len() == x[0].len(),
        0 <= w < x[0].len(),
    ensures
        dtm_model(x, words).total_freqs[w] == occurrences(dtm_model(x, words).docs, w),
        dtm_model(x, words).doc_freqs[w] == docs_containing(dtm_model(x, words).docs, w),
{
    let n = x[0].len();
    assert(x.take(x.len() as int) =~= x);
    assert(col_total(x.take(x.len() as int), w) <= u32::MAX);
    lemma_col_docs_le_total(x, w);
    lemma_freqs_agree_rows(x, n, w);
}

proof fn lemma_freqs_agree_rows(x: Seq<Seq<u32>>, n: nat, w: int)
    requires
        n <= u32::MAX,
        rows_have_len(x, x.len() as int, n),
    ensures
        col_total(x, w) == occurrences(dtm_docs(x), w),
        col_docs(x, w) == docs_containing(dtm_docs(x), w),
    decreases x.len(),
{
    if x.len() > 0 {
        let x0 = x.drop_last();
        assert(rows_have_len(x0, x0.len() as int, n)) by {
            assert forall|r: int| 0 <= r < x0.len() implies #[trigger] x0[r].len() == n by {
                assert(x0[r] == x[r]);
            }
        }
        lemma_freqs_agree_rows(x0, n, w);
        assert(x[x.len() - 1].len() == n);
        lemma_row_tokens_count(x.last(), w);
        let d0 = dtm_docs(x0);
        if row_tokens(x.last()).len() > 0 {
            assert(dtm_docs(x).drop_last() =~= d0);
        } else {
            assert(row_tokens(x.last()) =~= Seq::<u32>::empty());
        }
    }
}

/// Each document of a corpus built from a count matrix is named after its own
/// row: the number in its name is a row that holds a token and whose tokens
/// are that document's; rows come in increasing order, so no two documents
/// share a name.
pub proof fn lemma_dtm_doc_rows(x: Seq<Seq<u32>>)
    requires
        x.len() <= usize::MAX + 1,
    ensures
        dtm_names(x).len() == dtm_docs(x).len(),
        forall|k: int|
            0 <= k < dtm_docs(x).len() ==> {
                let r = #[trigger] name_row(dtm_names(x)[k]);
                &&& 0 <= r < x.len()
                &&& dtm_names(x)[k] == doc_name(r as nat)
                &&& dtm_docs(x)[k] == row_tokens(x[r])
                &&& row_tokens(x[r]).len() > 0
            },
        forall|a: int, b: int|
            0 <= a < b < dtm_docs(x).len() ==> name_row(dtm_names(x)[a]) < name_row(dtm_names(x)[b])
                && dtm_names(x)[a] != dtm_names(x)[b],
    decreases x.len(),
{
    if x.len() > 0 {
        let x0 = x.drop_last();
        lemma_dtm_doc_rows(x0);
        let n0 = dtm_names(x0);
        let d0 = dtm_docs(x0);
        let n = dtm_names(x);
        let d = dtm_docs(x);
        let last = (x.len() - 1) as usize;
        lemma_doc_name_parses(last, last);
        assert(name_row(doc_name(last as nat)) == last);
        assert forall|k: int| 0 <= k < d0.len() implies #[trigger] name_row(n[k]) == name_row(n0[k]) && n[k]
            == n0[k] && d[k] == d0[k] && x[name_row(n0[k])] == x0[name_row(n0[k])] by {
            assert(0 <= name_row(n0[k]) < x0.len());
        }
        if row_tokens(x.last()).len() > 0 {
            assert(n[d0.len() as int] == doc_name(last as nat));
            assert(d[d0.len() as int] == row_tokens(x[last as int]));
        }
        assert forall|k: int| 0 <= k < d.len() implies ({
            let r = #[trigger] name_row(n[k]);
            &&& 0 <= r < x.len()
            &&& n[k] == doc_name(r as nat)
            &&& d[k] == row_tokens(x[r])
            &&& row_tokens(x[r]).len() > 0
        }) by {
            if k < d0.len() {
                assert(name_row(n[k]) == name_row(n0[k]));
            }
        }
        assert forall|a: int, b: int| 0 <= a < b < d.len() implies name_row(n[a]) < name_row(n[b])
            && n[a] != n[b] by {
            assert(name_row(n[a]) == name_row(n0[a]));
            if b < d0.len() {
                assert(name_row(n[b]) == name_row(n0[b]));
            }
        }
    }
}

} // verus!
