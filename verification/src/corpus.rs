//! The corpus: vocabulary, documents as token-id lists, and per-word counts.
use vstd::prelude::*;
use crate::text::strings_view;
use vstd::string::StringExecFns;

verus! {

/// A tokenised corpus. `docs[d]` lists the word ids of document `d` in order;
/// `id_to_word[w]` is the text of word id `w`; `doc_freqs[w]` and
/// `total_freqs[w]` are its document frequency and its total frequency.
pub struct Corpus {
    pub id_to_word: Vec<String>,
    pub docs: Vec<Vec<u32>>,
    pub doc_names: Vec<String>,
    pub doc_labels: Vec<String>,
    pub doc_freqs: Vec<u32>,
    pub total_freqs: Vec<u32>,
}

/// The mathematical content of a corpus.
pub struct CorpusModel {
    pub words: Seq<Seq<char>>,
    pub docs: Seq<Seq<u32>>,
    pub names: Seq<Seq<char>>,
    pub labels: Seq<Seq<char>>,
    pub doc_freqs: Seq<u32>,
    pub total_freqs: Seq<u32>,
}

pub open spec fn docs_view(docs: Seq<Vec<u32>>) -> Seq<Seq<u32>> {
    docs.map_values(|d: Vec<u32>| d@)
}

impl View for Corpus {
    type V = CorpusModel;

    open spec fn view(&self) -> CorpusModel {
        CorpusModel {
            words: strings_view(self.id_to_word@),
            docs: docs_view(self.docs@),
            names: strings_view(self.doc_names@),
            labels: strings_view(self.doc_labels@),
            doc_freqs: self.doc_freqs@,
            total_freqs: self.total_freqs@,
        }
    }
}

/// Every token of every document is a word id of the vocabulary.
pub open spec fn tokens_in_vocab(docs: Seq<Seq<u32>>, num_types: nat) -> bool {
    forall|d: int, k: int| 0 <= d < docs.len() && 0 <= k < docs[d].len() ==> #[trigger] docs[d][k] < num_types
}

/// The number of tokens in all the documents.
pub open spec fn total_len(docs: Seq<Seq<u32>>) -> nat
    decreases docs.len(),
{
    if docs.len() == 0 {
        0
    } else {
        total_len(docs.drop_last()) + docs.last().len()
    }
}

impl CorpusModel {
    /// The per-word tables have one entry per word, the per-document tables one
    /// entry per document, every token is a word id, and the token total fits
    /// in the machine's word.
    pub open spec fn wf(self) -> bool {
        &&& self.doc_freqs.len() == self.words.len()
        &&& self.total_freqs.len() == self.words.len()
        &&& self.names.len() == self.docs.len()
        &&& self.labels.len() == self.docs.len()
        &&& tokens_in_vocab(self.docs, self.words.len())
        &&& total_len(self.docs) <= usize::MAX
    }

    pub open spec fn total_tokens(self) -> nat {
        total_len(self.docs)
    }
}

proof fn lemma_total_len_take(docs: Seq<Seq<u32>>, i: int)
    requires
        0 <= i < docs.len(),
    ensures
        total_len(docs.take(i + 1)) == total_len(docs.take(i)) + docs[i].len(),
        total_len(docs.take(i + 1)) <= total_len(docs),
    decreases docs.len() - i,
{
    assert(docs.take(i + 1).drop_last() =~= docs.take(i));
    if i + 1 < docs.len() {
        lemma_total_len_take(docs, i + 1);
    } else {
        assert(docs.take(i + 1) =~= docs);
    }
}

impl Corpus {
    /// The number of documents.
    pub fn num_docs(&self) -> (n: usize)
        ensures
            n == self@.docs.len(),
    {
        self.docs.len()
    }

    /// The number of word types in the vocabulary.
    pub fn num_types(&self) -> (n: usize)
        ensures
            n == self@.words.len(),
    {
        self.id_to_word.len()
    }

    /// The number of tokens over all documents.
    pub fn total_tokens(&self) -> (n: usize)
        requires
            self@.wf(),
        ensures
            n == self@.total_tokens(),
    {
        let ghost docs = self@.docs;
        let mut sum: usize = 0;
        let mut i: usize = 0;
        assert(docs.take(0) =~= Seq::<Seq<u32>>::empty());
        while i < self.docs.len()
            invariant
                docs == self@.docs,
                self@.wf(),
                i <= docs.len(),
                sum == total_len(docs.take(i as int)),
            decreases docs.len() - i,
        {
            proof {
                lemma_total_len_take(docs, i as int);
            }
            assert(docs[i as int] == self.docs@[i as int]@);
            sum = sum + self.docs[i].len();
            i = i + 1;
        }
        assert(docs.take(i as int) =~= docs);
        sum
    }
}

/// Words joined by single spaces.
pub open spec fn join_space(ws: Seq<Seq<char>>) -> Seq<char>
    decreases ws.len(),
{
    if ws.len() == 0 {
        seq![]
    } else if ws.len() == 1 {
        ws[0]
    } else {
        join_space(ws.drop_last()) + seq![' '] + ws.last()
    }
}

/// The words of a document.
pub open spec fn doc_words(m: CorpusModel, d: int) -> Seq<Seq<char>> {
    m.docs[d].map_values(|id: u32| m.words[id as int])
}

impl Corpus {
    /// The text of document `d`: its words, by id, joined by single spaces.
    pub fn doc_text(&self, d: usize) -> (t: String)
        requires
            self@.wf(),
            d < self@.docs.len(),
        ensures
            t@ == join_space(doc_words(self@, d as int)),
    {
        let ghost m = self@;
        let doc = &self.docs[d];
        assert(m.docs[d as int] == doc@);
        let ghost ws = doc_words(m, d as int);
        let mut text = String::new();
        let mut k: usize = 0;
        proof {
            reveal_strlit(" ");
        }
        assert(ws.take(0) =~= Seq::<Seq<char>>::empty());
        while k < doc.len()
            invariant
                m == self@,
                m.wf(),
                d < m.docs.len(),
                doc@ == m.docs[d as int],
                ws == doc_words(m, d as int),
                k <= doc@.len(),
                text@ == join_space(ws.take(k as int)),
                " "@ == seq![' '],
            decreases doc@.len() - k,
        {
            let id = doc[k];
            assert(id < m.words.len());
            assert(ws[k as int] == m.words[id as int]);
            assert(m.words[id as int] == self.id_to_word@[id as int]@);
            assert(ws.take(k + 1).drop_last() =~= ws.take(k as int));
            if k > 0 {
                text.append(" ");
            } else {
                assert(ws.take(1) =~= seq![ws[0]]);
            }
            text.append(self.id_to_word[id as usize].as_str());
            assert(text@ =~= join_space(ws.take(k + 1)));
            k = k + 1;
        }
        assert(ws.take(k as int) =~= ws);
        text
    }

    /// Each document's name with its text, in document order.
    pub fn doc_texts(&self) -> (res: Vec<(String, String)>)
        requires
            self@.wf(),
        ensures
            res@.len() == self@.docs.len(),
            forall|d: int| 0 <= d < res@.len() ==> (#[trigger] res@[d]).0@ == self@.names[d]
                && res@[d].1@ == join_space(doc_words(self@, d)),
    {
        let mut res: Vec<(String, String)> = Vec::new();
        let mut d: usize = 0;
        while d < self.docs.len()
            invariant
                self@.wf(),
                d <= self@.docs.len(),
                res@.len() == d,
                forall|e: int| 0 <= e < d ==> (#[trigger] res@[e]).0@ == self@.names[e]
                    && res@[e].1@ == join_space(doc_words(self@, e)),
            decreases self@.docs.len() - d,
        {
            assert(self@.names[d as int] == self.doc_names@[d as int]@);
            let name = self.doc_names[d].clone();
            let text = self.doc_text(d);
            res.push((name, text));
            d = d + 1;
        }
        res
    }
}

} // verus!
