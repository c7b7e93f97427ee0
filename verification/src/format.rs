//! The binary corpus file format.
//!
//! ```text
//! [4 bytes]  magic "CRP2"
//! [u32]      number of word types
//! [u32]      number of documents
//! for each word type:  [u16 + bytes] word (UTF-8), [u32] document frequency, [u32] total frequency
//! for each document:   [u16 + bytes] name, [u16 + bytes] label, [u32] n, [u32 x n] token ids
//! ```
//! All integers are little-endian; a string is prefixed by its length in bytes.
use vstd::prelude::*;
use vstd::utf8::*;
use crate::corpus::{Corpus, CorpusModel, docs_view, total_len, tokens_in_vocab};
use crate::text::strings_view;

verus! {

pub open spec fn magic() -> Seq<u8> {
    seq![0x43u8, 0x52u8, 0x50u8, 0x32u8]
}

pub open spec fn le_u16(b: Seq<u8>, p: int) -> int {
    b[p] as int + 256 * (b[p + 1] as int)
}

pub open spec fn le_u32(b: Seq<u8>, p: int) -> int {
    b[p] as int + 256 * (b[p + 1] as int) + 65536 * (b[p + 2] as int) + 16777216 * (b[p + 3] as int)
}

/// Reads a little-endian `u16` at `p`: its value and the next position.
pub open spec fn dec_u16(b: Seq<u8>, p: int) -> Option<(int, int)> {
    if 0 <= p && p + 2 <= b.len() {
        Some((le_u16(b, p), p + 2))
    } else {
        None
    }
}

/// Reads a little-endian `u32` at `p`.
pub open spec fn dec_u32(b: Seq<u8>, p: int) -> Option<(u32, int)> {
    if 0 <= p && p + 4 <= b.len() {
        Some((le_u32(b, p) as u32, p + 4))
    } else {
        None
    }
}

/// Reads a length-prefixed UTF-8 string at `p`.
pub open spec fn dec_str(b: Seq<u8>, p: int) -> Option<(Seq<char>, int)> {
    match dec_u16(b, p) {
        None => None,
        Some((n, q)) => {
            if q + n <= b.len() && valid_utf8(b.subrange(q, q + n)) {
                Some((decode_utf8(b.subrange(q, q + n)), q + n))
            } else {
                None
            }
        },
    }
}

/// Reads `n` token ids at `p`, each of which must be below `limit`.
pub open spec fn dec_tokens(b: Seq<u8>, p: int, n: nat, limit: nat) -> Option<(Seq<u32>, int)>
    decreases n,
{
    if n == 0 {
        Some((seq![], p))
    } else {
        match dec_tokens(b, p, (n - 1) as nat, limit) {
            None => None,
            Some((t, q)) => match dec_u32(b, q) {
                None => None,
                Some((x, r)) => if x < limit {
                    Some((t.push(x), r))
                } else {
                    None
                },
            },
        }
    }
}

/// Reads one vocabulary entry: word, document frequency, total frequency.
pub open spec fn dec_word(b: Seq<u8>, p: int) -> Option<((Seq<char>, u32, u32), int)> {
    match dec_str(b, p) {
        None => None,
        Some((w, q1)) => match dec_u32(b, q1) {
            None => None,
            Some((df, q2)) => match dec_u32(b, q2) {
                None => None,
                Some((tf, q3)) => Some(((w, df, tf), q3)),
            },
        },
    }
}

/// The vocabulary tables: words, document frequencies, total frequencies.
pub type WordTables = (Seq<Seq<char>>, Seq<u32>, Seq<u32>);

/// Reads `n` vocabulary entries at `p`.
pub open spec fn dec_words(b: Seq<u8>, p: int, n: nat) -> Option<(WordTables, int)>
    decreases n,
{
    if n == 0 {
        Some(((seq![], seq![], seq![]), p))
    } else {
        match dec_words(b, p, (n - 1) as nat) {
            None => None,
            Some(((ws, dfs, tfs), q)) => match dec_word(b, q) {
                None => None,
                Some(((w, df, tf), r)) => Some(((ws.push(w), dfs.push(df), tfs.push(tf)), r)),
            },
        }
    }
}

/// Reads one document: name, label, token count and token ids below `limit`.
pub open spec fn dec_doc(b: Seq<u8>, p: int, limit: nat) -> Option<(
    (Seq<char>, Seq<char>, Seq<u32>),
    int,
)> {
    match dec_str(b, p) {
        None => None,
        Some((name, q1)) => match dec_str(b, q1) {
            None => None,
            Some((label, q2)) => match dec_u32(b, q2) {
                None => None,
                Some((n, q3)) => match dec_tokens(b, q3, n as nat, limit) {
                    None => None,
                    Some((toks, q4)) => Some(((name, label, toks), q4)),
                },
            },
        },
    }
}

/// The document tables: names, labels, token lists.
pub type DocTables = (Seq<Seq<char>>, Seq<Seq<char>>, Seq<Seq<u32>>);

/// Reads `n` documents at `p`.
pub open spec fn dec_docs(b: Seq<u8>, p: int, n: nat, limit: nat) -> Option<(DocTables, int)>
    decreases n,
{
    if n == 0 {
        Some(((seq![], seq![], seq![]), p))
    } else {
        match dec_docs(b, p, (n - 1) as nat, limit) {
            None => None,
            Some(((names, labels, docs), q)) => match dec_doc(b, q, limit) {
                None => None,
                Some(((name, label, toks), r)) => Some(
                    ((names.push(name), labels.push(label), docs.push(toks)), r),
                ),
            },
        }
    }
}

pub open spec fn has_magic(b: Seq<u8>) -> bool {
    b.len() >= 4 && b.take(4) == magic()
}

/// The corpus that a byte string holds, if it is a well-formed corpus file
/// with nothing after the last document.
pub open spec fn decode(b: Seq<u8>) -> Option<CorpusModel> {
    if !has_magic(b) {
        None
    } else {
        match dec_u32(b, 4) {
            None => None,
            Some((nt, p1)) => match dec_u32(b, p1) {
                None => None,
                Some((nd, p2)) => match dec_words(b, p2, nt as nat) {
                    None => None,
                    Some(((ws, dfs, tfs), p3)) => match dec_docs(b, p3, nd as nat, nt as nat) {
                        None => None,
                        Some(((names, labels, docs), p4)) => if p4 == b.len() {
                            Some(
                                CorpusModel {
                                    words: ws,
                                    docs,
                                    names,
                                    labels,
                                    doc_freqs: dfs,
                                    total_freqs: tfs,
                                },
                            )
                        } else {
                            None
                        },
                    },
                },
            },
        }
    }
}

pub open spec fn enc_u16(n: int) -> Seq<u8> {
    seq![(n % 256) as u8, ((n / 256) % 256) as u8]
}

pub open spec fn enc_u32(n: int) -> Seq<u8> {
    seq![
        (n % 256) as u8,
        ((n / 256) % 256) as u8,
        ((n / 65536) % 256) as u8,
        ((n / 16777216) % 256) as u8,
    ]
}

/// A string: its UTF-8 length as a `u16`, then its UTF-8 bytes.
pub open spec fn enc_str(s: Seq<char>) -> Seq<u8> {
    enc_u16(encode_utf8(s).len() as int) + encode_utf8(s)
}

/// A string whose UTF-8 encoding fits a `u16` length.
pub open spec fn str_fits(s: Seq<char>) -> bool {
    encode_utf8(s).len() <= 65535
}

pub open spec fn enc_tokens(t: Seq<u32>) -> Seq<u8>
    decreases t.len(),
{
    if t.len() == 0 {
        seq![]
    } else {
        enc_tokens(t.drop_last()) + enc_u32(t.last() as int)
    }
}

/// The first `n` vocabulary entries.
pub open spec fn enc_words(t: WordTables, n: nat) -> Seq<u8>
    decreases n,
{
    if n == 0 {
        seq![]
    } else {
        let i = n - 1;
        enc_words(t, (n - 1) as nat) + enc_str(t.0[i]) + enc_u32(t.1[i] as int) + enc_u32(
            t.2[i] as int,
        )
    }
}

/// The first `n` documents.
pub open spec fn enc_docs(t: DocTables, n: nat) -> Seq<u8>
    decreases n,
{
    if n == 0 {
        seq![]
    } else {
        let i = n - 1;
        enc_docs(t, (n - 1) as nat) + enc_str(t.0[i]) + enc_str(t.1[i]) + enc_u32(
            t.2[i].len() as int,
        ) + enc_tokens(t.2[i])
    }
}

pub open spec fn word_tables(m: CorpusModel) -> WordTables {
    (m.words, m.doc_freqs, m.total_freqs)
}

pub open spec fn doc_tables(m: CorpusModel) -> DocTables {
    (m.names, m.labels, m.docs)
}

/// The bytes of the corpus file that holds `m`.
pub open spec fn encode(m: CorpusModel) -> Seq<u8> {
    magic() + enc_u32(m.words.len() as int) + enc_u32(m.docs.len() as int) + enc_words(
        word_tables(m),
        m.words.len(),
    ) + enc_docs(doc_tables(m), m.docs.len())
}

/// The corpus fits the file format: its counts fit a `u32` and its strings a
/// `u16` length.
pub open spec fn encodable(m: CorpusModel) -> bool {
    &&& m.words.len() <= u32::MAX
    &&& m.docs.len() <= u32::MAX
    &&& forall|i: int| 0 <= i < m.words.len() ==> str_fits(#[trigger] m.words[i])
    &&& forall|d: int| 0 <= d < m.docs.len() ==> str_fits(#[trigger] m.names[d])
    &&& forall|d: int| 0 <= d < m.docs.len() ==> str_fits(#[trigger] m.labels[d])
    &&& forall|d: int| 0 <= d < m.docs.len() ==> #[trigger] m.docs[d].len() <= u32::MAX
}

/// Why a byte string is not a corpus file.
#[derive(Debug, Clone, Copy, PartialEq, Eq, Structural)]
pub enum FormatError {
    /// It does not start with the magic bytes "CRP2".
    BadMagic,
    /// It starts with the magic bytes but is truncated, holds a string that is
    /// not UTF-8, a token id outside the vocabulary, or bytes after the last document.
    Malformed,
}

/// `std::str::from_utf8`: the text that the bytes encode, exactly when they are
/// well-formed UTF-8.
#[verifier::external_body]
fn utf8_to_string(bytes: &[u8]) -> (res: Option<String>)
    ensures
        res is Some <==> valid_utf8(bytes@),
        res matches Some(s) ==> s@ == decode_utf8(bytes@),
{
    match std::str::from_utf8(bytes) {
        Ok(s) => Some(s.to_string()),
        Err(_) => None,
    }
}

fn read_u16(b: &[u8], p: usize) -> (res: Option<(usize, usize)>)
    ensures
        match dec_u16(b@, p as int) {
            None => res is None,
            Some((v, q)) => res matches Some((x, r)) && x == v && r == q,
        },
{
    if p <= b.len() && b.len() - p >= 2 {
        let v = b[p] as usize + 256 * (b[p + 1] as usize);
        Some((v, p + 2))
    } else {
        None
    }
}

fn read_u32(b: &[u8], p: usize) -> (res: Option<(u32, usize)>)
    ensures
        match dec_u32(b@, p as int) {
            None => res is None,
            Some((v, q)) => res matches Some((x, r)) && x == v && r == q,
        },
{
    if p <= b.len() && b.len() - p >= 4 {
        let v: u32 = b[p] as u32 + 256 * (b[p + 1] as u32) + 65536 * (b[p + 2] as u32)
            + 16777216 * (b[p + 3] as u32);
        Some((v, p + 4))
    } else {
        None
    }
}

fn read_str(b: &[u8], p: usize) -> (res: Option<(String, usize)>)
    ensures
        match dec_str(b@, p as int) {
            None => res is None,
            Some((s, q)) => res matches Some((x, r)) && x@ == s && r == q,
        },
{
    match read_u16(b, p) {
        None => None,
        Some((n, q)) => {
            if q <= b.len() && b.len() - q >= n {
                let bytes = &b[q..q + n];
                assert(bytes@ == b@.subrange(q as int, q + n));
                match utf8_to_string(bytes) {
                    None => None,
                    Some(s) => Some((s, q + n)),
                }
            } else {
                None
            }
        },
    }
}

fn read_tokens(b: &[u8], p: usize, n: u32, limit: u32) -> (res: Option<(Vec<u32>, usize)>)
    requires
        p <= b@.len(),
    ensures
        match dec_tokens(b@, p as int, n as nat, limit as nat) {
            None => res is None,
            Some((t, q)) => res matches Some((x, r)) && x@ == t && r == q,
        },
{
    let mut out: Vec<u32> = Vec::new();
    let mut q = p;
    let mut i: u32 = 0;
    while i < n
        invariant
            i <= n,
            q <= b@.len(),
            dec_tokens(b@, p as int, i as nat, limit as nat) == Some((out@, q as int)),
        decreases n - i,
    {
        match read_u32(b, q) {
            None => {
                assert(dec_tokens(b@, p as int, (i + 1) as nat, limit as nat) is None);
                proof {
                    lemma_dec_tokens_none_extends(b@, p as int, (i + 1) as nat, n as nat, limit as nat);
                }
                return None;
            },
            Some((x, r)) => {
                if x >= limit {
                    assert(dec_tokens(b@, p as int, (i + 1) as nat, limit as nat) is None);
                    proof {
                    lemma_dec_tokens_none_extends(b@, p as int, (i + 1) as nat, n as nat, limit as nat);
                }
                    return None;
                }
                out.push(x);
                q = r;
                i = i + 1;
            },
        }
    }
    Some((out, q))
}

proof fn lemma_dec_tokens_none_extends(b: Seq<u8>, p: int, i: nat, n: nat, limit: nat)
    requires
        i <= n,
        dec_tokens(b, p, i, limit) is None,
    ensures
        dec_tokens(b, p, n, limit) is None,
    decreases n - i,
{
    if i < n {
        lemma_dec_tokens_none_extends(b, p, i, (n - 1) as nat, limit);
    }
}

proof fn lemma_dec_words_none_extends(b: Seq<u8>, p: int, i: nat, n: nat)
    requires
        i <= n,
        dec_words(b, p, i) is None,
    ensures
        dec_words(b, p, n) is None,
    decreases n - i,
{
    if i < n {
        lemma_dec_words_none_extends(b, p, i, (n - 1) as nat);
    }
}

proof fn lemma_dec_docs_none_extends(b: Seq<u8>, p: int, i: nat, n: nat, limit: nat)
    requires
        i <= n,
        dec_docs(b, p, i, limit) is None,
    ensures
        dec_docs(b, p, n, limit) is None,
    decreases n - i,
{
    if i < n {
        lemma_dec_docs_none_extends(b, p, i, (n - 1) as nat, limit);
    }
}

fn read_word(b: &[u8], p: usize) -> (res: Option<(String, u32, u32, usize)>)
    ensures
        match dec_word(b@, p as int) {
            None => res is None,
            Some(((w, df, tf), q)) => res matches Some((x, d, t, r)) && x@ == w && d == df
                && t == tf && r == q,
        },
{
    let (w, q1) = match read_str(b, p) {
        None => return None,
        Some(v) => v,
    };
    let (df, q2) = match read_u32(b, q1) {
        None => return None,
        Some(v) => v,
    };
    let (tf, q3) = match read_u32(b, q2) {
        None => return None,
        Some(v) => v,
    };
    Some((w, df, tf, q3))
}

fn read_words(b: &[u8], p: usize, n: u32) -> (res: Option<(Vec<String>, Vec<u32>, Vec<u32>, usize)>)
    requires
        p <= b@.len(),
    ensures
        match dec_words(b@, p as int, n as nat) {
            None => res is None,
            Some(((ws, dfs, tfs), q)) => res matches Some((w, d, t, r)) && strings_view(w@) == ws
                && d@ == dfs && t@ == tfs && r == q,
        },
{
    let mut words: Vec<String> = Vec::new();
    let mut dfs: Vec<u32> = Vec::new();
    let mut tfs: Vec<u32> = Vec::new();
    let mut q = p;
    let mut i: u32 = 0;
    while i < n
        invariant
            i <= n,
            q <= b@.len(),
            dec_words(b@, p as int, i as nat) == Some(
                ((strings_view(words@), dfs@, tfs@), q as int),
            ),
        decreases n - i,
    {
        match read_word(b, q) {
            None => {
                proof {
                    lemma_dec_words_none_extends(b@, p as int, (i + 1) as nat, n as nat);
                }
                return None;
            },
            Some((w, df, tf, r)) => {
                let ghost before = words@;
                words.push(w);
                assert(strings_view(words@) =~= strings_view(before).push(words@.last()@));
                dfs.push(df);
                tfs.push(tf);
                q = r;
                i = i + 1;
            },
        }
    }
    Some((words, dfs, tfs, q))
}

fn read_doc(b: &[u8], p: usize, limit: u32) -> (res: Option<(String, String, Vec<u32>, usize)>)
    ensures
        match dec_doc(b@, p as int, limit as nat) {
            None => res is None,
            Some(((name, label, toks), q)) => res matches Some((x, l, t, r)) && x@ == name
                && l@ == label && t@ == toks && r == q,
        },
{
    let (name, q1) = match read_str(b, p) {
        None => return None,
        Some(v) => v,
    };
    let (label, q2) = match read_str(b, q1) {
        None => return None,
        Some(v) => v,
    };
    let (n, q3) = match read_u32(b, q2) {
        None => return None,
        Some(v) => v,
    };
    let (toks, q4) = match read_tokens(b, q3, n, limit) {
        None => return None,
        Some(v) => v,
    };
    Some((name, label, toks, q4))
}

fn read_docs(b: &[u8], p: usize, n: u32, limit: u32) -> (res: Option<
    (Vec<String>, Vec<String>, Vec<Vec<u32>>, usize),
>)
    requires
        p <= b@.len(),
    ensures
        match dec_docs(b@, p as int, n as nat, limit as nat) {
            None => res is None,
            Some(((names, labels, docs), q)) => res matches Some((x, l, d, r)) && strings_view(x@)
                == names && strings_view(l@) == labels && docs_view(d@) == docs && r == q,
        },
{
    let mut names: Vec<String> = Vec::new();
    let mut labels: Vec<String> = Vec::new();
    let mut docs: Vec<Vec<u32>> = Vec::new();
    let mut q = p;
    let mut i: u32 = 0;
    while i < n
        invariant
            i <= n,
            q <= b@.len(),
            dec_docs(b@, p as int, i as nat, limit as nat) == Some(
                ((strings_view(names@), strings_view(labels@), docs_view(docs@)), q as int),
            ),
        decreases n - i,
    {
        match read_doc(b, q, limit) {
            None => {
                proof {
                    lemma_dec_docs_none_extends(b@, p as int, (i + 1) as nat, n as nat, limit as nat);
                }
                return None;
            },
            Some((name, label, toks, r)) => {
                let ghost (n0, l0, d0) = (names@, labels@, docs@);
                names.push(name);
                labels.push(label);
                docs.push(toks);
                assert(strings_view(names@) =~= strings_view(n0).push(names@.last()@));
                assert(strings_view(labels@) =~= strings_view(l0).push(labels@.last()@));
                assert(docs_view(docs@) =~= docs_view(d0).push(docs@.last()@));
                q = r;
                i = i + 1;
            },
        }
    }
    Some((names, labels, docs, q))
}

pub(crate) proof fn lemma_dec_tokens_props(b: Seq<u8>, p: int, n: nat, limit: nat)
    ensures
        dec_tokens(b, p, n, limit) matches Some((t, q)) ==> {
            &&& t.len() == n
            &&& q == p + 4 * n
            &&& forall|k: int| 0 <= k < t.len() ==> #[trigger] t[k] < limit
        },
    decreases n,
{
    if n > 0 {
        lemma_dec_tokens_props(b, p, (n - 1) as nat, limit);
    }
}

pub(crate) proof fn lemma_dec_words_props(b: Seq<u8>, p: int, n: nat)
    ensures
        dec_words(b, p, n) matches Some(((ws, dfs, tfs), q)) ==> {
            &&& ws.len() == n
            &&& dfs.len() == n
            &&& tfs.len() == n
            &&& q >= p
        },
    decreases n,
{
    if n > 0 {
        lemma_dec_words_props(b, p, (n - 1) as nat);
    }
}

pub(crate) proof fn lemma_dec_docs_props(b: Seq<u8>, p: int, n: nat, limit: nat)
    ensures
        dec_docs(b, p, n, limit) matches Some(((names, labels, docs), q)) ==> {
            &&& names.len() == n
            &&& labels.len() == n
            &&& docs.len() == n
            &&& tokens_in_vocab(docs, limit)
            &&& q >= p + 4 * total_len(docs)
        },
    decreases n,
{
    if n > 0 {
        lemma_dec_docs_props(b, p, (n - 1) as nat, limit);
        if let Some(((names, labels, docs), q)) = dec_docs(b, p, (n - 1) as nat, limit) {
            if let Some(((name, label, toks), r)) = dec_doc(b, q, limit) {
                let (_, q1) = dec_str(b, q).unwrap();
                let (_, q2) = dec_str(b, q1).unwrap();
                let (cnt, q3) = dec_u32(b, q2).unwrap();
                lemma_dec_tokens_props(b, q3, cnt as nat, limit);
                let docs2 = docs.push(toks);
                assert(docs2.drop_last() =~= docs);
                assert forall|d: int, k: int| 0 <= d < docs2.len() && 0 <= k < docs2[d].len()
                    implies #[trigger] docs2[d][k] < limit by {
                    if d < docs.len() {
                        assert(docs2[d] == docs[d]);
                    }
                }
            }
        }
    }
}

impl Corpus {
    /// Reads a corpus from the bytes of a corpus file. The result is the corpus
    /// that the bytes hold, exactly when they are a well-formed corpus file.
    pub fn from_bytes(b: &[u8]) -> (res: Result<Corpus, FormatError>)
        ensures
            match decode(b@) {
                Some(m) => res matches Ok(c) && c@ == m,
                None => res matches Err(e) && (e == FormatError::BadMagic <==> !has_magic(b@)),
            },
            res matches Ok(c) ==> c@.wf(),
    {
        if b.len() < 4 || b[0] != 0x43 || b[1] != 0x52 || b[2] != 0x50 || b[3] != 0x32 {
            assert(!has_magic(b@)) by {
                if b@.len() >= 4 && b@.take(4) == magic() {
                    assert(b@.take(4)[0] == b@[0]);
                    assert(b@.take(4)[1] == b@[1]);
                    assert(b@.take(4)[2] == b@[2]);
                    assert(b@.take(4)[3] == b@[3]);
                }
            }
            return Err(FormatError::BadMagic);
        }
        assert(b@.take(4) =~= magic());
        let (nt, p1) = match read_u32(b, 4) {
            None => return Err(FormatError::Malformed),
            Some(v) => v,
        };
        let (nd, p2) = match read_u32(b, p1) {
            None => return Err(FormatError::Malformed),
            Some(v) => v,
        };
        let (words, dfs, tfs, p3) = match read_words(b, p2, nt) {
            None => return Err(FormatError::Malformed),
            Some(v) => v,
        };
        proof {
            lemma_dec_words_props(b@, p2 as int, nt as nat);
        }
        let (names, labels, docs, p4) = match read_docs(b, p3, nd, nt) {
            None => return Err(FormatError::Malformed),
            Some(v) => v,
        };
        proof {
            lemma_dec_docs_props(b@, p3 as int, nd as nat, nt as nat);
        }
        if p4 != b.len() {
            return Err(FormatError::Malformed);
        }
        let c = Corpus {
            id_to_word: words,
            docs,
            doc_names: names,
            doc_labels: labels,
            doc_freqs: dfs,
            total_freqs: tfs,
        };
        Ok(c)
    }
}

fn push_u16(out: &mut Vec<u8>, x: usize)
    requires
        x <= 65535,
    ensures
        final(out)@ == old(out)@ + enc_u16(x as int),
{
    out.push((x % 256) as u8);
    out.push(((x / 256) % 256) as u8);
    assert(final(out)@ =~= old(out)@ + enc_u16(x as int));
}

fn push_u32(out: &mut Vec<u8>, x: u32)
    ensures
        final(out)@ == old(out)@ + enc_u32(x as int),
{
    out.push((x % 256) as u8);
    out.push(((x / 256) % 256) as u8);
    out.push(((x / 65536) % 256) as u8);
    out.push(((x / 16777216) % 256) as u8);
    assert(final(out)@ =~= old(out)@ + enc_u32(x as int));
}

/// Appends a string; `false` (and the bytes unchanged) when it does not fit.
fn push_str(out: &mut Vec<u8>, s: &String) -> (ok: bool)
    ensures
        ok == str_fits(s@),
        ok ==> final(out)@ == old(out)@ + enc_str(s@),
        !ok ==> final(out)@ == old(out)@,
{
    let bytes = s.as_str().as_bytes();
    assert(bytes@ == encode_utf8(s@));
    if bytes.len() > 65535 {
        return false;
    }
    push_u16(out, bytes.len());
    let ghost start = out@;
    let mut i: usize = 0;
    while i < bytes.len()
        invariant
            i <= bytes@.len(),
            out@ == start + bytes@.take(i as int),
        decreases bytes@.len() - i,
    {
        out.push(bytes[i]);
        assert(bytes@.take(i + 1) =~= bytes@.take(i as int).push(bytes@[i as int]));
        i = i + 1;
    }
    assert(bytes@.take(i as int) =~= bytes@);
    assert(final(out)@ =~= old(out)@ + enc_str(s@));
    true
}

fn push_tokens(out: &mut Vec<u8>, t: &Vec<u32>)
    ensures
        final(out)@ == old(out)@ + enc_tokens(t@),
{
    let mut i: usize = 0;
    assert(enc_tokens(t@.take(0)) =~= Seq::<u8>::empty());
    assert(out@ =~= old(out)@ + enc_tokens(t@.take(0)));
    while i < t.len()
        invariant
            i <= t@.len(),
            out@ == old(out)@ + enc_tokens(t@.take(i as int)),
        decreases t@.len() - i,
    {
        push_u32(out, t[i]);
        assert(t@.take(i + 1).drop_last() =~= t@.take(i as int));
        assert(out@ =~= old(out)@ + enc_tokens(t@.take(i + 1)));
        i = i + 1;
    }
    assert(t@.take(i as int) =~= t@);
}

impl Corpus {
    /// The bytes of the corpus file holding this corpus; `None` when the corpus
    /// does not fit the format (more than `u32::MAX` words, documents or tokens
    /// in a document, or a string longer than 65535 bytes).
    pub fn to_bytes(&self) -> (res: Option<Vec<u8>>)
        requires
            self@.wf(),
        ensures
            res is Some <==> encodable(self@),
            res matches Some(b) ==> b@ == encode(self@),
    {
        let ghost m = self@;
        let nw = self.id_to_word.len();
        let nd = self.docs.len();
        if nw > 4294967295 || nd > 4294967295 {
            return None;
        }
        let mut out: Vec<u8> = Vec::new();
        out.push(0x43);
        out.push(0x52);
        out.push(0x50);
        out.push(0x32);
        assert(out@ =~= magic());
        push_u32(&mut out, nw as u32);
        push_u32(&mut out, nd as u32);
        let ghost head = out@;
        let mut i: usize = 0;
        while i < nw
            invariant
                m == self@,
                m.wf(),
                nw == m.words.len(),
                nd == m.docs.len(),
                i <= nw,
                out@ == head + enc_words(word_tables(m), i as nat),
                forall|j: int| 0 <= j < i ==> str_fits(#[trigger] m.words[j]),
            decreases nw - i,
        {
            assert(m.words[i as int] == self.id_to_word@[i as int]@);
            if !push_str(&mut out, &self.id_to_word[i]) {
                return None;
            }
            push_u32(&mut out, self.doc_freqs[i]);
            push_u32(&mut out, self.total_freqs[i]);
            i = i + 1;
        }
        let ghost mid = out@;
        let mut d: usize = 0;
        while d < nd
            invariant
                m == self@,
                m.wf(),
                nw == m.words.len(),
                nd == m.docs.len(),
                d <= nd,
                out@ == mid + enc_docs(doc_tables(m), d as nat),
                forall|j: int| 0 <= j < d ==> str_fits(#[trigger] m.names[j]),
                forall|j: int| 0 <= j < d ==> str_fits(#[trigger] m.labels[j]),
                forall|j: int| 0 <= j < d ==> #[trigger] m.docs[j].len() <= u32::MAX,
            decreases nd - d,
        {
            assert(m.names[d as int] == self.doc_names@[d as int]@);
            assert(m.labels[d as int] == self.doc_labels@[d as int]@);
            assert(m.docs[d as int] == self.docs@[d as int]@);
            if !push_str(&mut out, &self.doc_names[d]) {
                return None;
            }
            if !push_str(&mut out, &self.doc_labels[d]) {
                return None;
            }
            let len = self.docs[d].len();
            if len > 4294967295 {
                return None;
            }
            push_u32(&mut out, len as u32);
            push_tokens(&mut out, &self.docs[d]);
            d = d + 1;
        }
        assert(out@ =~= encode(m));
        Some(out)
    }
}

} // verus!
