//! Reading the estimated distributions out of a fitted model.
use vstd::prelude::*;

verus! {

/// Transposes the first `rows` rows and `cols` columns of `m`: entry
/// `[c][r]` of the result is `m[r][c]` (the topic-word matrix from the
/// word-topic table).
pub fn transpose<T: Copy>(m: &Vec<Vec<T>>, rows: usize, cols: usize) -> (t: Vec<Vec<T>>)
    requires
        rows <= m@.len(),
        forall|r: int| 0 <= r < rows ==> cols <= #[trigger] m@[r]@.len(),
    ensures
        t@.len() == cols,
        forall|c: int| 0 <= c < cols ==> (#[trigger] t@[c])@.len() == rows,
        forall|c: int, r: int| 0 <= c < cols && 0 <= r < rows ==> #[trigger] t@[c]@[r] == m@[r]@[c],
{
    let mut t: Vec<Vec<T>> = Vec::new();
    let mut c: usize = 0;
    while c < cols
        invariant
            c <= cols,
            rows <= m@.len(),
            forall|r: int| 0 <= r < rows ==> cols <= #[trigger] m@[r]@.len(),
            t@.len() == c,
            forall|c2: int| 0 <= c2 < c ==> (#[trigger] t@[c2])@.len() == rows,
            forall|c2: int, r: int| 0 <= c2 < c && 0 <= r < rows ==> #[trigger] t@[c2]@[r] == m@[r]@[c2],
        decreases cols - c,
    {
        let mut col: Vec<T> = Vec::new();
        let mut r: usize = 0;
        while r < rows
            invariant
                r <= rows,
                c < cols,
                rows <= m@.len(),
                forall|r2: int| 0 <= r2 < rows ==> cols <= #[trigger] m@[r2]@.len(),
                col@.len() == r,
                forall|r2: int| 0 <= r2 < r ==> #[trigger] col@[r2] == m@[r2]@[c as int],
            decreases rows - r,
        {
            assert(c < m@[r as int]@.len());
            col.push(m[r][c]);
            r = r + 1;
        }
        t.push(col);
        c = c + 1;
    }
    t
}

/// A copy of row `i`, or `None` when there is no such row.
pub fn row_copy<T: Copy>(m: &Vec<Vec<T>>, i: usize) -> (res: Option<Vec<T>>)
    ensures
        i >= m@.len() ==> res is None,
        i < m@.len() ==> (res matches Some(row) && row@ == m@[i as int]@),
{
    if i >= m.len() {
        return None;
    }
    let src = &m[i];
    let mut row: Vec<T> = Vec::new();
    let mut k: usize = 0;
    while k < src.len()
        invariant
            k <= src@.len(),
            row@ == src@.take(k as int),
        decreases src@.len() - k,
    {
        row.push(src[k]);
        k = k + 1;
        assert(row@ =~= src@.take(k as int));
    }
    assert(src@.take(k as int) =~= src@);
    Some(row)
}

} // verus!
