//! Stoplists: one word per line, `#` lines are comments.
use vstd::prelude::*;
use crate::text::strings_view;

verus! {

/// A line that names a stopword: not empty and not a `#` comment.
pub open spec fn is_stop_line(line: Seq<char>) -> bool {
    line.len() > 0 && line[0] != '#'
}

/// `out` holds each stopword of `lines` exactly once, in order of first occurrence.
pub open spec fn is_stoplist_of(lines: Seq<Seq<char>>, out: Seq<Seq<char>>) -> bool {
    &&& forall|a: int, b: int| 0 <= a < b < out.len() ==> out[a] != out[b]
    &&& forall|x: Seq<char>| #[trigger] out.contains(x) <==> (is_stop_line(x) && lines.contains(x))
    &&& forall|a: int, b: int| 0 <= a < b < out.len() ==> first_pos(lines, out[a]) < first_pos(lines, out[b])
}

/// The first position of `x` in `s` (or `s.len()` when absent).
pub open spec fn first_pos(s: Seq<Seq<char>>, x: Seq<char>) -> int
    decreases s.len(),
{
    if s.len() == 0 {
        0
    } else if s.drop_last().contains(x) {
        first_pos(s.drop_last(), x)
    } else if s.last() == x {
        s.len() - 1
    } else {
        s.len() as int
    }
}

proof fn lemma_first_pos_stable(s: Seq<Seq<char>>, y: Seq<char>, x: Seq<char>)
    requires
        s.contains(x),
    ensures
        first_pos(s.push(y), x) == first_pos(s, x),
        first_pos(s, x) < s.len(),
    decreases s.len(),
{
    let t = s.push(y);
    assert(t.drop_last() =~= s);
    lemma_first_pos_lt(s, x);
}

proof fn lemma_first_pos_lt(s: Seq<Seq<char>>, x: Seq<char>)
    requires
        s.contains(x),
    ensures
        0 <= first_pos(s, x) < s.len(),
    decreases s.len(),
{
    if s.drop_last().contains(x) {
        lemma_first_pos_lt(s.drop_last(), x);
    } else {
        let j = choose|j: int| 0 <= j < s.len() && s[j] == x;
        if j < s.len() - 1 {
            assert(s.drop_last()[j] == x);
        }
    }
}

/// A stoplist read from some lines holds every line that is not empty and does
/// not start with `#`, whatever its length, and nothing else, each once.
pub proof fn lemma_stoplist_lines(lines: Seq<Seq<char>>, out: Seq<Seq<char>>)
    requires
        is_stoplist_of(lines, out),
    ensures
        forall|i: int|
            0 <= i < lines.len() && lines[i].len() > 0 && lines[i][0] != '#' ==> out.contains(
                #[trigger] lines[i],
            ),
        forall|k: int|
            0 <= k < out.len() ==> (#[trigger] out[k]).len() > 0 && out[k][0] != '#' && lines.contains(
                out[k],
            ),
        forall|a: int, b: int| 0 <= a < b < out.len() ==> out[a] != out[b],
{
    assert forall|i: int| 0 <= i < lines.len() && lines[i].len() > 0 && lines[i][0] != '#' implies out.contains(
        #[trigger] lines[i],
    ) by {
        assert(lines.contains(lines[i]));
        assert(is_stop_line(lines[i]));
    }
    assert forall|k: int| 0 <= k < out.len() implies (#[trigger] out[k]).len() > 0 && out[k][0] != '#'
        && lines.contains(out[k]) by {
        assert(out.contains(out[k]));
    }
}

fn contains_text(out: &Vec<String>, x: &String) -> (r: bool)
    ensures
        r == strings_view(out@).contains(x@),
{
    let mut k: usize = 0;
    while k < out.len()
        invariant
            k <= out@.len(),
            forall|j: int| 0 <= j < k ==> out@[j]@ != x@,
        decreases out@.len() - k,
    {
        if out[k] == *x {
            assert(strings_view(out@)[k as int] == x@);
            return true;
        }
        k = k + 1;
    }
    assert(!strings_view(out@).contains(x@)) by {
        if strings_view(out@).contains(x@) {
            let j = choose|j: int| 0 <= j < out@.len() && strings_view(out@)[j] == x@;
            assert(out@[j]@ == x@);
        }
    }
    false
}

/// Reads a stoplist: every line that is neither empty nor starts with `#` is a
/// stopword; each stopword is listed once, in order of first occurrence.
pub fn parse_stoplist(lines: &Vec<String>) -> (out: Vec<String>)
    ensures
        is_stoplist_of(strings_view(lines@), strings_view(out@)),
        forall|i: int|
            0 <= i < lines@.len() && lines@[i]@.len() > 0 && lines@[i]@[0] != '#' ==> strings_view(
                out@,
            ).contains(#[trigger] lines@[i]@),
{
    let ghost all = strings_view(lines@);
    let mut out: Vec<String> = Vec::new();
    let mut i: usize = 0;
    assert(all.take(0) =~= Seq::<Seq<char>>::empty());
    assert(strings_view(out@) =~= Seq::<Seq<char>>::empty());
    while i < lines.len()
        invariant
            all == strings_view(lines@),
            i <= lines@.len(),
            is_stoplist_of(all.take(i as int), strings_view(out@)),
        decreases lines@.len() - i,
    {
        let ghost pre = all.take(i as int);
        let ghost post = all.take(i + 1);
        let ghost ov = strings_view(out@);
        let line = &lines[i];
        assert(post.drop_last() =~= pre);
        assert(post =~= pre.push(line@));
        assert(forall|y: Seq<char>| #[trigger] post.contains(y) <==> pre.contains(y) || y == line@) by {
            assert forall|y: Seq<char>| #[trigger] post.contains(y) implies pre.contains(y) || y == line@ by {
                let j = choose|j: int| 0 <= j < post.len() && post[j] == y;
                if j < i {
                    assert(pre[j] == y);
                }
            }
            assert forall|y: Seq<char>| pre.contains(y) implies #[trigger] post.contains(y) by {
                let j = choose|j: int| 0 <= j < pre.len() && pre[j] == y;
                assert(post[j] == y);
            }
            assert(post[i as int] == line@);
        }
        assert forall|x: Seq<char>| #[trigger] ov.contains(x) implies first_pos(post, x) == first_pos(pre, x) by {
            lemma_first_pos_stable(pre, line@, x);
        }
        let cs = crate::text::chars_of(line.as_str());
        let stop = cs.len() > 0 && cs[0] != '#';
        assert(stop == is_stop_line(line@));
        if stop && !contains_text(&out, line) {
            out.push(line.clone());
            proof {
                let ov2 = strings_view(out@);
                assert(ov2 =~= ov.push(line@));
                assert(!pre.contains(line@));
                assert(first_pos(post, line@) == i) by {
                    assert(!post.drop_last().contains(line@));
                }
                assert forall|a: int, b: int| 0 <= a < b < ov2.len() implies ov2[a] != ov2[b] by {
                    if b == ov.len() {
                        assert(ov.contains(ov2[a]));
                    }
                }
                assert forall|a: int, b: int| 0 <= a < b < ov2.len() implies first_pos(post, ov2[a])
                    < first_pos(post, ov2[b]) by {
                    assert(ov.contains(ov2[a]));
                    lemma_first_pos_lt(pre, ov2[a]);
                    if b < ov.len() {
                        assert(ov.contains(ov2[b]));
                    }
                }
                assert forall|x: Seq<char>| #[trigger] ov2.contains(x) <==> (is_stop_line(x) && post.contains(x)) by {
                    if ov2.contains(x) && x != line@ {
                        let j = choose|j: int| 0 <= j < ov2.len() && ov2[j] == x;
                        assert(ov[j] == x);
                    }
                    if ov.contains(x) {
                        let j = choose|j: int| 0 <= j < ov.len() && ov[j] == x;
                        assert(ov2[j] == x);
                    }
                    assert(ov2[ov.len() as int] == line@);
                }
            }
        } else {
            proof {
                assert forall|a: int, b: int| 0 <= a < b < ov.len() implies first_pos(post, ov[a])
                    < first_pos(post, ov[b]) by {
                    assert(ov.contains(ov[a]));
                    assert(ov.contains(ov[b]));
                }
            }
        }
        i = i + 1;
    }
    assert(all.take(i as int) =~= all);
    proof {
        lemma_stoplist_lines(all, strings_view(out@));
        assert forall|j: int| 0 <= j < lines@.len() && lines@[j]@.len() > 0 && lines@[j]@[0] != '#' implies strings_view(
            out@,
        ).contains(#[trigger] lines@[j]@) by {
            assert(all[j] == lines@[j]@);
        }
    }
    out
}

} // verus!
