//! The integer state of fixed-phi Gibbs inference for one document: its
//! tokens, the topic assigned to each token, and the number of tokens
//! assigned to each topic.
use vstd::prelude::*;
use rand::Rng;
use rand_chacha::ChaCha8Rng;

verus! {

#[verifier::external_type_specification]
#[verifier::external_body]
pub struct ExChaCha8Rng(ChaCha8Rng);

/// `Rng::gen_range(0..k)` of rand on a ChaCha8 generator: a number below `k`.
/// It panics on an empty range, so `k` must be positive. Which number comes
/// out depends on the generator's state and is not stated.
#[verifier::external_body]
fn gen_below(rng: &mut ChaCha8Rng, k: usize) -> (r: usize)
    requires
        k > 0,
    ensures
        r < k,
{
    rng.gen_range(0..k)
}

/// How many entries of `s` equal `t`.
pub open spec fn count_of(s: Seq<usize>, t: int) -> nat
    decreases s.len(),
{
    if s.len() == 0 {
        0
    } else {
        count_of(s.drop_last(), t) + if s.last() == t {
            1nat
        } else {
            0nat
        }
    }
}

/// The sum of the first `k` entries of `c`.
pub open spec fn sum_first(c: Seq<u32>, k: int) -> int
    decreases k,
{
    if k <= 0 {
        0
    } else {
        sum_first(c, k - 1) + c[k - 1] as int
    }
}

/// The tokens of a count row: word `w` repeated `row[w]` times, for each word
/// `w` below `n_words`, in word order; words at or beyond `n_words` are dropped.
pub open spec fn infer_tokens_spec(row: Seq<usize>, n_words: nat) -> Seq<usize>
    decreases row.len(),
{
    if row.len() == 0 {
        seq![]
    } else if row.len() - 1 < n_words {
        infer_tokens_spec(row.drop_last(), n_words) + Seq::new(
            row.last() as nat,
            |k: int| (row.len() - 1) as usize,
        )
    } else {
        infer_tokens_spec(row.drop_last(), n_words)
    }
}

/// The tokens of a document to infer, from its (rounded) word counts.
pub fn infer_tokens(row: &Vec<usize>, n_words: usize) -> (tokens: Vec<usize>)
    ensures
        tokens@ == infer_tokens_spec(row@, n_words as nat),
        forall|w: int| 0 <= w < row@.len() && w < n_words ==> #[trigger] count_of(tokens@, w) == row@[w],
        forall|k: int| 0 <= k < tokens@.len() ==> #[trigger] tokens@[k] < n_words && tokens@[k] < row@.len(),
{
    let len = row.len();
    proof {
        assert(row@.len() == len);
        lemma_infer_tokens_counts(row@, n_words as nat);
    }
    let mut tokens: Vec<usize> = Vec::new();
    let mut w: usize = 0;
    assert(row@.take(0) =~= Seq::<usize>::empty());
    while w < row.len()
        invariant
            w <= row@.len(),
            tokens@ == infer_tokens_spec(row@.take(w as int), n_words as nat),
        decreases row@.len() - w,
    {
        let ghost base = tokens@;
        assert(row@.take(w + 1).drop_last() =~= row@.take(w as int));
        if w < n_words {
            let c = row[w];
            let mut k: usize = 0;
            assert(base + Seq::new(0, |t: int| w) =~= base);
            while k < c
                invariant
                    k <= c,
                    tokens@ == base + Seq::new(k as nat, |t: int| w),
                decreases c - k,
            {
                tokens.push(w);
                k = k + 1;
                assert(tokens@ =~= base + Seq::new(k as nat, |t: int| w));
            }
        }
        w = w + 1;
    }
    assert(row@.take(w as int) =~= row@);
    tokens
}

proof fn lemma_count_of_concat(a: Seq<usize>, b: Seq<usize>, t: int)
    ensures
        count_of(a + b, t) == count_of(a, t) + count_of(b, t),
    decreases b.len(),
{
    if b.len() == 0 {
        assert(a + b =~= a);
    } else {
        assert((a + b).drop_last() =~= a + b.drop_last());
        lemma_count_of_concat(a, b.drop_last(), t);
    }
}

proof fn lemma_count_of_const(c: nat, x: usize, t: int)
    ensures
        count_of(Seq::new(c, |k: int| x), t) == if x == t {
            c
        } else {
            0
        },
    decreases c,
{
    if c > 0 {
        assert(Seq::new(c, |k: int| x).drop_last() =~= Seq::new((c - 1) as nat, |k: int| x));
        lemma_count_of_const((c - 1) as nat, x, t);
    }
}

/// The tokens of a count row hold each known word exactly as often as the row
/// counts it, hold no word at or beyond `n_words` or beyond the row, and come
/// in increasing word order.
pub proof fn lemma_infer_tokens_counts(row: Seq<usize>, n_words: nat)
    requires
        row.len() <= usize::MAX,
    ensures
        forall|w: int|
            0 <= w < row.len() && w < n_words ==> #[trigger] count_of(
                infer_tokens_spec(row, n_words),
                w,
            ) == row[w],
        forall|k: int|
            0 <= k < infer_tokens_spec(row, n_words).len() ==> #[trigger] infer_tokens_spec(
                row,
                n_words,
            )[k] < n_words && infer_tokens_spec(row, n_words)[k] < row.len(),
        forall|k1: int, k2: int|
            0 <= k1 < k2 < infer_tokens_spec(row, n_words).len() ==> infer_tokens_spec(
                row,
                n_words,
            )[k1] <= infer_tokens_spec(row, n_words)[k2],
    decreases row.len(),
{
    if row.len() > 0 {
        let r0 = row.drop_last();
        let last = (row.len() - 1) as usize;
        lemma_infer_tokens_counts(r0, n_words);
        let a = infer_tokens_spec(r0, n_words);
        let t = infer_tokens_spec(row, n_words);
        if row.len() - 1 < n_words {
            let b = Seq::new(row.last() as nat, |k: int| last);
            assert(t == a + b);
            assert forall|w: int| 0 <= w < row.len() && w < n_words implies #[trigger] count_of(t, w)
                == row[w] by {
                lemma_count_of_concat(a, b, w);
                lemma_count_of_const(row.last() as nat, last, w);
                if w < row.len() - 1 {
                    assert(r0[w] == row[w]);
                    assert(count_of(a, w) == r0[w]);
                    assert(last != w);
                } else {
                    assert forall|k: int| 0 <= k < a.len() implies a[k] < w by {
                        assert(infer_tokens_spec(r0, n_words)[k] < r0.len());
                    }
                    lemma_count_of_zero(a, w);
                    assert(last == w);
                }
            }
            assert forall|k: int| 0 <= k < t.len() implies #[trigger] t[k] < n_words && t[k] < row.len() by {
                if k < a.len() {
                    assert(t[k] == a[k]);
                }
            }
            assert forall|k1: int, k2: int| 0 <= k1 < k2 < t.len() implies t[k1] <= t[k2] by {
                if k2 < a.len() {
                    assert(t[k1] == a[k1]);
                    assert(t[k2] == a[k2]);
                } else if k1 < a.len() {
                    assert(t[k1] == a[k1]);
                    assert(infer_tokens_spec(r0, n_words)[k1] < r0.len());
                    assert(t[k2] == b[k2 - a.len()]);
                } else {
                    assert(t[k1] == b[k1 - a.len()]);
                    assert(t[k2] == b[k2 - a.len()]);
                }
            }
        } else {
            assert(t == a);
            assert forall|w: int| 0 <= w < row.len() && w < n_words implies #[trigger] count_of(t, w)
                == row[w] by {
                assert(r0[w] == row[w]);
            }
        }
    }
}

proof fn lemma_count_of_zero(s: Seq<usize>, w: int)
    requires
        forall|k: int| 0 <= k < s.len() ==> s[k] < w,
    ensures
        count_of(s, w) == 0,
    decreases s.len(),
{
    if s.len() > 0 {
        lemma_count_of_zero(s.drop_last(), w);
    }
}

/// The sampling state of one document.
pub struct DocSampler {
    tokens: Vec<usize>,
    assignments: Vec<usize>,
    counts: Vec<u32>,
    num_topics: usize,
}

impl DocSampler {
    /// Every token has a topic below `num_topics`, and `counts[t]` is the
    /// number of tokens assigned topic `t`.
    pub closed spec fn wf(self) -> bool {
        &&& self.assignments@.len() == self.tokens@.len()
        &&& self.tokens@.len() <= u32::MAX
        &&& self.counts@.len() == self.num_topics
        &&& forall|i: int| 0 <= i < self.assignments@.len() ==> #[trigger] self.assignments@[i] < self.num_topics
        &&& forall|t: int| 0 <= t < self.num_topics ==> #[trigger] self.counts@[t] == count_of(self.assignments@, t)
    }

    pub closed spec fn tokens_view(self) -> Seq<usize> {
        self.tokens@
    }

    pub closed spec fn assignments_view(self) -> Seq<usize> {
        self.assignments@
    }

    pub closed spec fn counts_view(self) -> Seq<u32> {
        self.counts@
    }

    pub closed spec fn topics(self) -> nat {
        self.num_topics as nat
    }
}

proof fn lemma_count_of_bound(s: Seq<usize>, t: int)
    ensures
        count_of(s, t) <= s.len(),
    decreases s.len(),
{
    if s.len() > 0 {
        lemma_count_of_bound(s.drop_last(), t);
    }
}

proof fn lemma_count_of_push(s: Seq<usize>, x: usize, t: int)
    ensures
        count_of(s.push(x), t) == count_of(s, t) + if x == t {
            1nat
        } else {
            0nat
        },
{
    assert(s.push(x).drop_last() =~= s);
}

proof fn lemma_count_of_update(s: Seq<usize>, i: int, x: usize, t: int)
    requires
        0 <= i < s.len(),
    ensures
        count_of(s.update(i, x), t) + (if s[i] == t {
            1int
        } else {
            0int
        }) == count_of(s, t) + (if x == t {
            1int
        } else {
            0int
        }),
    decreases s.len(),
{
    let u = s.update(i, x);
    if i == s.len() - 1 {
        assert(u.drop_last() =~= s.drop_last());
    } else {
        assert(u.drop_last() =~= s.drop_last().update(i, x));
        lemma_count_of_update(s.drop_last(), i, x, t);
    }
}

proof fn lemma_count_of_positive(s: Seq<usize>, i: int)
    requires
        0 <= i < s.len(),
    ensures
        count_of(s, s[i] as int) >= 1,
    decreases s.len(),
{
    if i < s.len() - 1 {
        lemma_count_of_positive(s.drop_last(), i);
        assert(s.drop_last()[i] == s[i]);
    }
}

impl DocSampler {
    /// Starts the sampler: each token gets a topic drawn uniformly below
    /// `num_topics` (one draw per token, in token order).
    pub fn new(tokens: Vec<usize>, num_topics: usize, rng: &mut ChaCha8Rng) -> (s: DocSampler)
        requires
            num_topics > 0,
            tokens@.len() <= u32::MAX,
        ensures
            s.wf(),
            s.tokens_view() == tokens@,
            s.topics() == num_topics,
            s.assignments_view().len() == tokens@.len(),
            forall|t: int| 0 <= t < num_topics ==> #[trigger] s.counts_view()[t] == count_of(s.assignments_view(), t),
    {
        let n = tokens.len();
        let mut assignments: Vec<usize> = Vec::new();
        while assignments.len() < n
            invariant
                num_topics > 0,
                assignments@.len() <= n,
                forall|i: int| 0 <= i < assignments@.len() ==> #[trigger] assignments@[i] < num_topics,
            decreases n - assignments@.len(),
        {
            let t = gen_below(rng, num_topics);
            assignments.push(t);
        }
        let mut counts: Vec<u32> = Vec::new();
        while counts.len() < num_topics
            invariant
                counts@.len() <= num_topics,
                forall|t: int| 0 <= t < counts@.len() ==> counts@[t] == 0,
            decreases num_topics - counts@.len(),
        {
            counts.push(0);
        }
        let mut i: usize = 0;
        assert(assignments@.take(0) =~= Seq::<usize>::empty());
        while i < n
            invariant
                n == assignments@.len(),
                n <= u32::MAX,
                i <= n,
                counts@.len() == num_topics,
                forall|j: int| 0 <= j < n ==> #[trigger] assignments@[j] < num_topics,
                forall|t: int| 0 <= t < num_topics ==> #[trigger] counts@[t] == count_of(assignments@.take(i as int), t),
            decreases n - i,
        {
            let t = assignments[i];
            proof {
                assert(assignments@.take(i + 1) =~= assignments@.take(i as int).push(t));
                assert forall|u: int| 0 <= u < num_topics implies count_of(assignments@.take(i + 1), u)
                    == count_of(assignments@.take(i as int), u) + if t == u { 1nat } else { 0nat } by {
                    lemma_count_of_push(assignments@.take(i as int), t, u);
                }
                lemma_count_of_bound(assignments@.take(i as int), t as int);
            }
            let c = counts[t] + 1;
            counts.set(t, c);
            i = i + 1;
        }
        assert(assignments@.take(n as int) =~= assignments@);
        DocSampler { tokens, assignments, counts, num_topics }
    }

    /// The number of tokens.
    pub fn len(&self) -> (n: usize)
        requires
            self.wf(),
        ensures
            n == self.tokens_view().len(),
    {
        self.tokens.len()
    }

    /// The number of topics.
    pub fn num_topics(&self) -> (k: usize)
        requires
            self.wf(),
        ensures
            k == self.topics(),
    {
        self.num_topics
    }

    /// The word id of token `pos`.
    pub fn token(&self, pos: usize) -> (w: usize)
        requires
            self.wf(),
            pos < self.tokens_view().len(),
        ensures
            w == self.tokens_view()[pos as int],
    {
        self.tokens[pos]
    }

    /// The topic assigned to token `pos`.
    pub fn topic(&self, pos: usize) -> (t: usize)
        requires
            self.wf(),
            pos < self.tokens_view().len(),
        ensures
            t == self.assignments_view()[pos as int],
            t < self.topics(),
    {
        self.assignments[pos]
    }

    /// The number of tokens assigned topic `t`.
    pub fn count(&self, t: usize) -> (c: u32)
        requires
            self.wf(),
            t < self.topics(),
        ensures
            c == count_of(self.assignments_view(), t as int),
            c == self.counts_view()[t as int],
    {
        self.counts[t]
    }

    /// The number of tokens other than token `pos` that are assigned topic `t`:
    /// the count that the sampling weight of `t` for token `pos` uses.
    pub fn count_excluding(&self, pos: usize, t: usize) -> (c: u32)
        requires
            self.wf(),
            pos < self.tokens_view().len(),
            t < self.topics(),
        ensures
            c == count_of(self.assignments_view(), t as int) - if self.assignments_view()[pos as int]
                == t {
                1int
            } else {
                0int
            },
    {
        if self.assignments[pos] == t {
            proof {
                lemma_count_of_positive(self.assignments@, pos as int);
            }
            self.counts[t] - 1
        } else {
            self.counts[t]
        }
    }

    /// Moves token `pos` to topic `new_topic`: its old topic loses one token
    /// and the new one gains one.
    pub fn reassign(&mut self, pos: usize, new_topic: usize)
        requires
            old(self).wf(),
            pos < old(self).tokens_view().len(),
            new_topic < old(self).topics(),
        ensures
            final(self).wf(),
            final(self).tokens_view() == old(self).tokens_view(),
            final(self).topics() == old(self).topics(),
            final(self).assignments_view() == old(self).assignments_view().update(pos as int, new_topic),
            forall|t: int| 0 <= t < final(self).topics() ==> #[trigger] final(self).counts_view()[t]
                == count_of(final(self).assignments_view(), t),
    {
        let old_topic = self.assignments[pos];
        let ghost a0 = self.assignments@;
        proof {
            lemma_count_of_positive(a0, pos as int);
            assert forall|u: int| 0 <= u < self.num_topics implies count_of(a0.update(pos as int, new_topic), u)
                + (if a0[pos as int] == u { 1int } else { 0int }) == count_of(a0, u) + (if new_topic == u { 1int } else { 0int }) by {
                lemma_count_of_update(a0, pos as int, new_topic, u);
            }
            lemma_count_of_bound(a0.update(pos as int, new_topic), new_topic as int);
        }
        let c_old = self.counts[old_topic] - 1;
        self.counts.set(old_topic, c_old);
        self.assignments.set(pos, new_topic);
        let c_new = self.counts[new_topic] + 1;
        self.counts.set(new_topic, c_new);
        assert(self.assignments@ == a0.update(pos as int, new_topic));
    }

    /// Moves token `pos` to a topic drawn uniformly at random (the fallback
    /// when no topic has positive weight).
    pub fn reassign_uniform(&mut self, pos: usize, rng: &mut ChaCha8Rng) -> (t: usize)
        requires
            old(self).wf(),
            pos < old(self).tokens_view().len(),
        ensures
            t < old(self).topics(),
            final(self).wf(),
            final(self).tokens_view() == old(self).tokens_view(),
            final(self).topics() == old(self).topics(),
            final(self).assignments_view() == old(self).assignments_view().update(pos as int, t),
            forall|u: int| 0 <= u < final(self).topics() ==> #[trigger] final(self).counts_view()[u]
                == count_of(final(self).assignments_view(), u),
    {
        assert(self.assignments@[pos as int] < self.num_topics);
        let t = gen_below(rng, self.num_topics);
        self.reassign(pos, t);
        t
    }
}

spec fn hist_sum(a: Seq<usize>, k: int) -> int
    decreases k,
{
    if k <= 0 {
        0
    } else {
        hist_sum(a, k - 1) + count_of(a, k - 1)
    }
}

proof fn lemma_hist_sum_push(a: Seq<usize>, x: usize, k: int)
    requires
        k >= 0,
    ensures
        hist_sum(a.push(x), k) == hist_sum(a, k) + if x < k {
            1int
        } else {
            0int
        },
    decreases k,
{
    if k > 0 {
        lemma_hist_sum_push(a, x, k - 1);
        lemma_count_of_push(a, x, k - 1);
    }
}

proof fn lemma_hist_sum_total(a: Seq<usize>, k: int)
    requires
        k >= 0,
        forall|i: int| 0 <= i < a.len() ==> #[trigger] a[i] < k,
    ensures
        hist_sum(a, k) == a.len(),
    decreases a.len(),
{
    if a.len() == 0 {
        lemma_hist_sum_zero(a, k);
    } else {
        let a0 = a.drop_last();
        assert(a0.push(a.last()) =~= a);
        assert forall|i: int| 0 <= i < a0.len() implies #[trigger] a0[i] < k by {
            assert(a0[i] == a[i]);
        }
        lemma_hist_sum_total(a0, k);
        lemma_hist_sum_push(a0, a.last(), k);
    }
}

proof fn lemma_hist_sum_zero(a: Seq<usize>, k: int)
    requires
        a.len() == 0,
    ensures
        hist_sum(a, k) == 0,
    decreases k,
{
    if k > 0 {
        lemma_hist_sum_zero(a, k - 1);
    }
}

proof fn lemma_sum_first_hist(c: Seq<u32>, a: Seq<usize>, k: int)
    requires
        0 <= k <= c.len(),
        forall|t: int| 0 <= t < k ==> #[trigger] c[t] == count_of(a, t),
    ensures
        sum_first(c, k) == hist_sum(a, k),
    decreases k,
{
    if k > 0 {
        lemma_sum_first_hist(c, a, k - 1);
    }
}

/// The topic counts of a document always add up to its number of tokens.
pub proof fn lemma_counts_sum(s: &DocSampler)
    requires
        s.wf(),
    ensures
        sum_first(s.counts_view(), s.topics() as int) == s.tokens_view().len(),
{
    let a = s.assignments_view();
    lemma_sum_first_hist(s.counts_view(), a, s.topics() as int);
    lemma_hist_sum_total(a, s.topics() as int);
}

} // verus!
