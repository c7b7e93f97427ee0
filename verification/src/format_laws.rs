//! The corpus file format reads back what it writes, and writes back what it reads.
use vstd::prelude::*;
use vstd::utf8::*;
use vstd::arithmetic::div_mod::lemma_fundamental_div_mod_converse;
use crate::corpus::CorpusModel;
use crate::format::{
    DocTables, WordTables, dec_docs, dec_str, dec_tokens, dec_u16, dec_u32, dec_words, decode,
    enc_docs, enc_str, enc_tokens, enc_u16, enc_u32, enc_words, encodable, encode, le_u16, le_u32,
    magic, str_fits, has_magic, doc_tables, word_tables, lemma_dec_tokens_props,
    lemma_dec_words_props, lemma_dec_docs_props,
};

verus! {

proof fn lemma_sub_split(b: Seq<u8>, p: int, x: Seq<u8>, y: Seq<u8>)
    requires
        0 <= p,
        p + x.len() + y.len() <= b.len(),
        b.subrange(p, p + x.len() + y.len()) == x + y,
    ensures
        b.subrange(p, p + x.len()) == x,
        b.subrange(p + x.len(), p + x.len() + y.len()) == y,
{
    let whole = b.subrange(p, p + x.len() + y.len());
    assert forall|i: int| 0 <= i < x.len() implies b.subrange(p, p + x.len())[i] == x[i] by {
        assert(whole[i] == (x + y)[i]);
    }
    assert forall|i: int| 0 <= i < y.len() implies b.subrange(
        p + x.len(),
        p + x.len() + y.len(),
    )[i] == y[i] by {
        assert(whole[x.len() + i] == (x + y)[x.len() + i]);
    }
    assert(b.subrange(p, p + x.len()) =~= x);
    assert(b.subrange(p + x.len(), p + x.len() + y.len()) =~= y);
}

proof fn lemma_sub_join(b: Seq<u8>, p: int, q: int, r: int)
    requires
        0 <= p <= q <= r <= b.len(),
    ensures
        b.subrange(p, q) + b.subrange(q, r) == b.subrange(p, r),
{
    assert(b.subrange(p, q) + b.subrange(q, r) =~= b.subrange(p, r));
}

proof fn lemma_u16_read(b: Seq<u8>, p: int, n: int)
    requires
        0 <= p,
        p + 2 <= b.len(),
        0 <= n <= 65535,
        b.subrange(p, p + 2) == enc_u16(n),
    ensures
        dec_u16(b, p) == Some((n, p + 2)),
{
    assert(b[p] == b.subrange(p, p + 2)[0]);
    assert(b[p + 1] == b.subrange(p, p + 2)[1]);
}

proof fn lemma_u32_read(b: Seq<u8>, p: int, n: int)
    requires
        0 <= p,
        p + 4 <= b.len(),
        0 <= n <= u32::MAX,
        b.subrange(p, p + 4) == enc_u32(n),
    ensures
        dec_u32(b, p) == Some((n as u32, p + 4)),
{
    assert(b[p] == b.subrange(p, p + 4)[0]);
    assert(b[p + 1] == b.subrange(p, p + 4)[1]);
    assert(b[p + 2] == b.subrange(p, p + 4)[2]);
    assert(b[p + 3] == b.subrange(p, p + 4)[3]);
}

proof fn lemma_u16_bytes(b: Seq<u8>, p: int)
    requires
        0 <= p,
        p + 2 <= b.len(),
    ensures
        b.subrange(p, p + 2) == enc_u16(le_u16(b, p)),
        0 <= le_u16(b, p) <= 65535,
{
    let (x0, x1) = (b[p] as int, b[p + 1] as int);
    lemma_fundamental_div_mod_converse(le_u16(b, p), 256, x1, x0);
    lemma_fundamental_div_mod_converse(x1, 256, 0, x1);
    assert(b.subrange(p, p + 2) =~= enc_u16(le_u16(b, p)));
}

proof fn lemma_u32_bytes(b: Seq<u8>, p: int)
    requires
        0 <= p,
        p + 4 <= b.len(),
    ensures
        b.subrange(p, p + 4) == enc_u32(le_u32(b, p)),
        0 <= le_u32(b, p) <= u32::MAX,
{
    let (x0, x1, x2, x3) = (b[p] as int, b[p + 1] as int, b[p + 2] as int, b[p + 3] as int);
    let n = le_u32(b, p);
    lemma_fundamental_div_mod_converse(n, 256, x1 + 256 * x2 + 65536 * x3, x0);
    lemma_fundamental_div_mod_converse(x1 + 256 * x2 + 65536 * x3, 256, x2 + 256 * x3, x1);
    lemma_fundamental_div_mod_converse(n, 65536, x2 + 256 * x3, x0 + 256 * x1);
    lemma_fundamental_div_mod_converse(x2 + 256 * x3, 256, x3, x2);
    lemma_fundamental_div_mod_converse(n, 16777216, x3, x0 + 256 * x1 + 65536 * x2);
    lemma_fundamental_div_mod_converse(x3, 256, 0, x3);
    assert(b.subrange(p, p + 4) =~= enc_u32(n));
}

proof fn lemma_str_read(b: Seq<u8>, p: int, s: Seq<char>)
    requires
        str_fits(s),
        0 <= p,
        p + enc_str(s).len() <= b.len(),
        b.subrange(p, p + enc_str(s).len()) == enc_str(s),
    ensures
        dec_str(b, p) == Some((s, p + enc_str(s).len())),
{
    broadcast use encode_utf8_valid_utf8, encode_utf8_decode_utf8;

    let e = encode_utf8(s);
    lemma_sub_split(b, p, enc_u16(e.len() as int), e);
    lemma_u16_read(b, p, e.len() as int);
}

proof fn lemma_str_bytes(b: Seq<u8>, p: int)
    ensures
        dec_str(b, p) matches Some((s, q)) ==> {
            &&& str_fits(s)
            &&& q == p + enc_str(s).len()
            &&& b.subrange(p, q) == enc_str(s)
        },
{
    if let Some((s, q)) = dec_str(b, p) {
        let (n, q0) = dec_u16(b, p).unwrap();
        let sub = b.subrange(q0, q0 + n);
        decode_utf8_encode_utf8(sub);
        lemma_u16_bytes(b, p);
        lemma_sub_join(b, p, q0, q);
    }
}

proof fn lemma_tokens_len(t: Seq<u32>)
    ensures
        enc_tokens(t).len() == 4 * t.len(),
    decreases t.len(),
{
    if t.len() > 0 {
        lemma_tokens_len(t.drop_last());
    }
}

proof fn lemma_tokens_read(b: Seq<u8>, p: int, t: Seq<u32>, limit: nat)
    requires
        0 <= p,
        p + enc_tokens(t).len() <= b.len(),
        b.subrange(p, p + enc_tokens(t).len()) == enc_tokens(t),
        forall|k: int| 0 <= k < t.len() ==> #[trigger] t[k] < limit,
    ensures
        dec_tokens(b, p, t.len(), limit) == Some((t, p + enc_tokens(t).len())),
    decreases t.len(),
{
    if t.len() > 0 {
        let t0 = t.drop_last();
        let x = t.last();
        lemma_sub_split(b, p, enc_tokens(t0), enc_u32(x as int));
        lemma_tokens_read(b, p, t0, limit);
        lemma_u32_read(b, p + enc_tokens(t0).len(), x as int);
        assert(t0.push(x) =~= t);
        assert(t0.len() == (t.len() - 1) as nat);
    } else {
        assert(t =~= Seq::<u32>::empty());
    }
}

proof fn lemma_tokens_bytes(b: Seq<u8>, p: int, n: nat, limit: nat)
    requires
        0 <= p <= b.len(),
    ensures
        dec_tokens(b, p, n, limit) matches Some((t, q)) ==> b.subrange(p, q) == enc_tokens(t),
    decreases n,
{
    if n > 0 {
        lemma_tokens_bytes(b, p, (n - 1) as nat, limit);
        if let Some((t, q)) = dec_tokens(b, p, (n - 1) as nat, limit) {
            if let Some((x, r)) = dec_u32(b, q) {
                if x < limit {
                    lemma_dec_tokens_props(b, p, (n - 1) as nat, limit);
                    lemma_u32_bytes(b, q);
                    lemma_sub_join(b, p, q, r);
                    assert(t.push(x).drop_last() =~= t);
                }
            }
        }
    } else {
        assert(b.subrange(p, p) =~= Seq::<u8>::empty());
    }
}

/// Entry `i` of word tables agrees in `t` and `u`.
spec fn same_word(t: WordTables, u: WordTables, i: int) -> bool {
    t.0[i] == u.0[i] && t.1[i] == u.1[i] && t.2[i] == u.2[i]
}

spec fn same_doc(t: DocTables, u: DocTables, i: int) -> bool {
    t.0[i] == u.0[i] && t.1[i] == u.1[i] && t.2[i] == u.2[i]
}

proof fn lemma_enc_words_prefix(t: WordTables, u: WordTables, n: nat)
    requires
        forall|i: int| 0 <= i < n ==> #[trigger] same_word(t, u, i),
    ensures
        enc_words(t, n) == enc_words(u, n),
    decreases n,
{
    if n > 0 {
        assert(same_word(t, u, n - 1));
        lemma_enc_words_prefix(t, u, (n - 1) as nat);
    }
}

proof fn lemma_enc_docs_prefix(t: DocTables, u: DocTables, n: nat)
    requires
        forall|i: int| 0 <= i < n ==> #[trigger] same_doc(t, u, i),
    ensures
        enc_docs(t, n) == enc_docs(u, n),
    decreases n,
{
    if n > 0 {
        assert(same_doc(t, u, n - 1));
        lemma_enc_docs_prefix(t, u, (n - 1) as nat);
    }
}

proof fn lemma_words_read(b: Seq<u8>, p: int, t: WordTables, n: nat)
    requires
        n <= t.0.len(),
        n <= t.1.len(),
        n <= t.2.len(),
        forall|i: int| 0 <= i < n ==> str_fits(#[trigger] t.0[i]),
        0 <= p,
        p + enc_words(t, n).len() <= b.len(),
        b.subrange(p, p + enc_words(t, n).len()) == enc_words(t, n),
    ensures
        dec_words(b, p, n) == Some(((t.0.take(n as int), t.1.take(n as int), t.2.take(n as int)), p + enc_words(t, n).len())),
    decreases n,
{
    if n > 0 {
        let i = n - 1;
        let a = enc_words(t, (n - 1) as nat);
        let sw = enc_str(t.0[i]);
        let u1 = enc_u32(t.1[i] as int);
        let u2 = enc_u32(t.2[i] as int);
        lemma_sub_split(b, p, a + sw + u1, u2);
        lemma_sub_split(b, p, a + sw, u1);
        lemma_sub_split(b, p, a, sw);
        lemma_words_read(b, p, t, (n - 1) as nat);
        let q = p + a.len();
        assert(str_fits(t.0[i]));
        lemma_str_read(b, q, t.0[i]);
        lemma_u32_read(b, q + sw.len(), t.1[i] as int);
        lemma_u32_read(b, q + sw.len() + 4, t.2[i] as int);
        assert(t.0.take(i).push(t.0[i]) =~= t.0.take(n as int));
        assert(t.1.take(i).push(t.1[i]) =~= t.1.take(n as int));
        assert(t.2.take(i).push(t.2[i]) =~= t.2.take(n as int));
    } else {
        assert(t.0.take(0) =~= Seq::<Seq<char>>::empty());
        assert(t.1.take(0) =~= Seq::<u32>::empty());
        assert(t.2.take(0) =~= Seq::<u32>::empty());
    }
}

proof fn lemma_words_bytes(b: Seq<u8>, p: int, n: nat)
    requires
        0 <= p <= b.len(),
    ensures
        dec_words(b, p, n) matches Some((t, q)) ==> {
            &&& b.subrange(p, q) == enc_words(t, n)
            &&& forall|i: int| 0 <= i < n ==> str_fits(#[trigger] t.0[i])
        },
    decreases n,
{
    lemma_dec_words_props(b, p, n);
    if n > 0 {
        lemma_words_bytes(b, p, (n - 1) as nat);
        lemma_dec_words_props(b, p, (n - 1) as nat);
        if let Some((t0, q)) = dec_words(b, p, (n - 1) as nat) {
            if let Some(((w, df, tf), r)) = crate::format::dec_word(b, q) {
                let t = (t0.0.push(w), t0.1.push(df), t0.2.push(tf));
                let (_, q1) = dec_str(b, q).unwrap();
                let (_, q2) = dec_u32(b, q1).unwrap();
                lemma_str_bytes(b, q);
                lemma_u32_bytes(b, q1);
                lemma_u32_bytes(b, q2);
                lemma_sub_join(b, q, q1, q2);
                lemma_sub_join(b, q, q2, r);
                lemma_sub_join(b, p, q, r);
                assert forall|i: int| 0 <= i < n - 1 implies #[trigger] same_word(t0, t, i) by {}
                lemma_enc_words_prefix(t0, t, (n - 1) as nat);
                assert(b.subrange(p, r) =~= enc_words(t, n));
                assert forall|i: int| 0 <= i < n implies str_fits(#[trigger] t.0[i]) by {
                    if i < n - 1 {
                        assert(t.0[i] == t0.0[i]);
                    }
                }
            }
        }
    } else {
        assert(b.subrange(p, p) =~= Seq::<u8>::empty());
    }
}

proof fn lemma_docs_read(b: Seq<u8>, p: int, t: DocTables, n: nat, limit: nat)
    requires
        n <= t.0.len(),
        n <= t.1.len(),
        n <= t.2.len(),
        forall|i: int| 0 <= i < n ==> str_fits(#[trigger] t.0[i]),
        forall|i: int| 0 <= i < n ==> str_fits(#[trigger] t.1[i]),
        forall|i: int| 0 <= i < n ==> #[trigger] t.2[i].len() <= u32::MAX,
        forall|i: int, k: int| 0 <= i < n && 0 <= k < t.2[i].len() ==> #[trigger] t.2[i][k] < limit,
        0 <= p,
        p + enc_docs(t, n).len() <= b.len(),
        b.subrange(p, p + enc_docs(t, n).len()) == enc_docs(t, n),
    ensures
        dec_docs(b, p, n, limit) == Some(((t.0.take(n as int), t.1.take(n as int), t.2.take(n as int)), p + enc_docs(t, n).len())),
    decreases n,
{
    if n > 0 {
        let i = n - 1;
        let a = enc_docs(t, (n - 1) as nat);
        let s1 = enc_str(t.0[i]);
        let s2 = enc_str(t.1[i]);
        let u = enc_u32(t.2[i].len() as int);
        let tk = enc_tokens(t.2[i]);
        lemma_sub_split(b, p, a + s1 + s2 + u, tk);
        lemma_sub_split(b, p, a + s1 + s2, u);
        lemma_sub_split(b, p, a + s1, s2);
        lemma_sub_split(b, p, a, s1);
        lemma_docs_read(b, p, t, (n - 1) as nat, limit);
        let q = p + a.len();
        assert(str_fits(t.0[i]));
        assert(str_fits(t.1[i]));
        assert(t.2[i].len() <= u32::MAX);
        lemma_str_read(b, q, t.0[i]);
        lemma_str_read(b, q + s1.len(), t.1[i]);
        lemma_u32_read(b, q + s1.len() + s2.len(), t.2[i].len() as int);
        assert forall|k: int| 0 <= k < t.2[i].len() implies #[trigger] t.2[i][k] < limit by {
            assert(t.2[i][k] < limit);
        }
        lemma_tokens_read(b, q + s1.len() + s2.len() + 4, t.2[i], limit);
        assert(t.0.take(i).push(t.0[i]) =~= t.0.take(n as int));
        assert(t.1.take(i).push(t.1[i]) =~= t.1.take(n as int));
        assert(t.2.take(i).push(t.2[i]) =~= t.2.take(n as int));
    } else {
        assert(t.0.take(0) =~= Seq::<Seq<char>>::empty());
        assert(t.1.take(0) =~= Seq::<Seq<char>>::empty());
        assert(t.2.take(0) =~= Seq::<Seq<u32>>::empty());
    }
}

proof fn lemma_docs_bytes(b: Seq<u8>, p: int, n: nat, limit: nat)
    requires
        0 <= p <= b.len(),
    ensures
        dec_docs(b, p, n, limit) matches Some((t, q)) ==> {
            &&& b.subrange(p, q) == enc_docs(t, n)
            &&& forall|i: int| 0 <= i < n ==> str_fits(#[trigger] t.0[i])
            &&& forall|i: int| 0 <= i < n ==> str_fits(#[trigger] t.1[i])
            &&& forall|i: int| 0 <= i < n ==> #[trigger] t.2[i].len() <= u32::MAX
        },
    decreases n,
{
    lemma_dec_docs_props(b, p, n, limit);
    if n > 0 {
        lemma_docs_bytes(b, p, (n - 1) as nat, limit);
        lemma_dec_docs_props(b, p, (n - 1) as nat, limit);
        if let Some((t0, q)) = dec_docs(b, p, (n - 1) as nat, limit) {
            if let Some(((name, label, toks), r)) = crate::format::dec_doc(b, q, limit) {
                let t = (t0.0.push(name), t0.1.push(label), t0.2.push(toks));
                let (_, q1) = dec_str(b, q).unwrap();
                let (_, q2) = dec_str(b, q1).unwrap();
                let (cnt, q3) = dec_u32(b, q2).unwrap();
                lemma_str_bytes(b, q);
                lemma_str_bytes(b, q1);
                lemma_u32_bytes(b, q2);
                lemma_dec_tokens_props(b, q3, cnt as nat, limit);
                lemma_tokens_bytes(b, q3, cnt as nat, limit);
                lemma_sub_join(b, q, q1, q2);
                lemma_sub_join(b, q, q2, q3);
                lemma_sub_join(b, q, q3, r);
                lemma_sub_join(b, p, q, r);
                assert forall|i: int| 0 <= i < n - 1 implies #[trigger] same_doc(t0, t, i) by {}
                lemma_enc_docs_prefix(t0, t, (n - 1) as nat);
                assert(b.subrange(p, r) =~= enc_docs(t, n));
                assert forall|i: int| 0 <= i < n implies str_fits(#[trigger] t.0[i]) && str_fits(
                    t.1[i],
                ) && t.2[i].len() <= u32::MAX by {
                    if i < n - 1 {
                        assert(t.0[i] == t0.0[i]);
                        assert(t.1[i] == t0.1[i]);
                        assert(t.2[i] == t0.2[i]);
                    }
                }
            }
        }
    } else {
        assert(b.subrange(p, p) =~= Seq::<u8>::empty());
    }
}

/// The reads that make up `decode`, one part of the file after another.
proof fn lemma_decode_parts(b: Seq<u8>, m: CorpusModel, p3: int)
    requires
        has_magic(b),
        m.words.len() <= u32::MAX,
        m.docs.len() <= u32::MAX,
        dec_u32(b, 4) == Some((m.words.len() as u32, 8int)),
        dec_u32(b, 8) == Some((m.docs.len() as u32, 12int)),
        dec_words(b, 12, m.words.len()) == Some((word_tables(m), p3)),
        dec_docs(b, p3, m.docs.len(), m.words.len()) == Some((doc_tables(m), b.len() as int)),
    ensures
        decode(b) == Some(m),
{
    assert((m.words.len() as u32) as nat == m.words.len());
    assert((m.docs.len() as u32) as nat == m.docs.len());
}

proof fn lemma_encode_split(m: CorpusModel)
    ensures
        ({
            let b = encode(m);
            let w = enc_words(word_tables(m), m.words.len());
            let d = enc_docs(doc_tables(m), m.docs.len());
            &&& b.len() == 12 + w.len() + d.len()
            &&& b.subrange(0, 4) == magic()
            &&& b.subrange(4, 8) == enc_u32(m.words.len() as int)
            &&& b.subrange(8, 12) == enc_u32(m.docs.len() as int)
            &&& b.subrange(12, 12 + w.len() as int) == w
            &&& b.subrange(12 + w.len() as int, b.len() as int) == d
        }),
{
    let b = encode(m);
    let w = enc_words(word_tables(m), m.words.len());
    let d = enc_docs(doc_tables(m), m.docs.len());
    let u1 = enc_u32(m.words.len() as int);
    let u2 = enc_u32(m.docs.len() as int);
    assert(b.subrange(0, b.len() as int) =~= b);
    lemma_sub_split(b, 0, magic() + u1 + u2 + w, d);
    lemma_sub_split(b, 0, magic() + u1 + u2, w);
    lemma_sub_split(b, 0, magic() + u1, u2);
    lemma_sub_split(b, 0, magic(), u1);
}

proof fn lemma_encode_words(m: CorpusModel)
    requires
        m.wf(),
        encodable(m),
    ensures
        dec_words(encode(m), 12, m.words.len()) == Some(
            (word_tables(m), 12 + enc_words(word_tables(m), m.words.len()).len() as int),
        ),
{
    let nw = m.words.len();
    lemma_encode_split(m);
    lemma_words_read(encode(m), 12, word_tables(m), nw);
    assert(m.words.take(nw as int) =~= m.words);
    assert(m.doc_freqs.take(nw as int) =~= m.doc_freqs);
    assert(m.total_freqs.take(nw as int) =~= m.total_freqs);
}

proof fn lemma_encode_docs(m: CorpusModel)
    requires
        m.wf(),
        encodable(m),
    ensures
        dec_docs(
            encode(m),
            12 + enc_words(word_tables(m), m.words.len()).len() as int,
            m.docs.len(),
            m.words.len(),
        ) == Some((doc_tables(m), encode(m).len() as int)),
{
    let nd = m.docs.len();
    let p3 = 12 + enc_words(word_tables(m), m.words.len()).len() as int;
    lemma_encode_split(m);
    assert forall|i: int, k: int| 0 <= i < nd && 0 <= k < m.docs[i].len() implies #[trigger] m.docs[i][k]
        < m.words.len() by {}
    lemma_docs_read(encode(m), p3, doc_tables(m), nd, m.words.len());
    assert(m.names.take(nd as int) =~= m.names);
    assert(m.labels.take(nd as int) =~= m.labels);
    assert(m.docs.take(nd as int) =~= m.docs);
}

/// Reading the file written for a well-formed corpus that fits the format
/// gives back that corpus.
pub proof fn lemma_decode_encode(m: CorpusModel)
    requires
        m.wf(),
        encodable(m),
    ensures
        decode(encode(m)) == Some(m),
{
    let b = encode(m);
    lemma_encode_split(m);
    assert(has_magic(b)) by {
        assert(b.take(4) =~= b.subrange(0, 4));
    }
    lemma_u32_read(b, 4, m.words.len() as int);
    lemma_u32_read(b, 8, m.docs.len() as int);
    lemma_encode_words(m);
    lemma_encode_docs(m);
    lemma_decode_parts(b, m, 12 + enc_words(word_tables(m), m.words.len()).len() as int);
}

/// A byte string that reads as a corpus is exactly the file written for that
/// corpus, and that corpus fits the format.
pub proof fn lemma_encode_decode(b: Seq<u8>)
    requires
        decode(b) is Some,
    ensures
        encodable(decode(b).unwrap()),
        encode(decode(b).unwrap()) == b,
{
    let m = decode(b).unwrap();
    let (nt, p1) = dec_u32(b, 4).unwrap();
    let (nd, p2) = dec_u32(b, p1).unwrap();
    let (wt, p3) = dec_words(b, p2, nt as nat).unwrap();
    let (dt, p4) = dec_docs(b, p3, nd as nat, nt as nat).unwrap();
    lemma_dec_words_props(b, p2, nt as nat);
    lemma_dec_docs_props(b, p3, nd as nat, nt as nat);
    lemma_u32_bytes(b, 4);
    lemma_u32_bytes(b, p1);
    lemma_words_bytes(b, p2, nt as nat);
    lemma_docs_bytes(b, p3, nd as nat, nt as nat);
    assert(b.subrange(0, 4) =~= magic()) by {
        assert(b.take(4) =~= b.subrange(0, 4));
    }
    lemma_sub_join(b, 0, 4, p1);
    lemma_sub_join(b, 0, p1, p2);
    lemma_sub_join(b, 0, p2, p3);
    lemma_sub_join(b, 0, p3, p4);
    assert(b.subrange(0, b.len() as int) =~= b);
    assert(word_tables(m) == wt);
    assert(doc_tables(m) == dt);
    assert(encode(m) =~= b);
}

} // verus!
