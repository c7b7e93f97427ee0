//! Character-level helpers: splitting on a separator, decimal numbers.
use vstd::prelude::*;

verus! {

/// `i` is the position of the first occurrence of `sep` in `s`.
pub open spec fn is_first_sep(s: Seq<char>, sep: char, i: int) -> bool {
    &&& 0 <= i < s.len()
    &&& s[i] == sep
    &&& forall|j: int| 0 <= j < i ==> s[j] != sep
}

/// The text before and after the first occurrence of `sep`, if `sep` occurs.
pub open spec fn split_once(s: Seq<char>, sep: char) -> Option<(Seq<char>, Seq<char>)> {
    if exists|i: int| is_first_sep(s, sep, i) {
        let i = choose|i: int| is_first_sep(s, sep, i);
        Some((s.take(i), s.skip(i + 1)))
    } else {
        None
    }
}

/// The pieces of `s` between occurrences of `sep` (as `str::split` with a
/// `char` pattern yields them): one more piece than there are separators.
pub open spec fn split_all(s: Seq<char>, sep: char) -> Seq<Seq<char>>
    decreases s.len(),
{
    match split_once(s, sep) {
        None => seq![s],
        Some((head, rest)) => seq![head] + split_all(rest, sep),
    }
}

proof fn lemma_first_sep_unique(s: Seq<char>, sep: char, i: int, k: int)
    requires
        is_first_sep(s, sep, i),
        is_first_sep(s, sep, k),
    ensures
        i == k,
{
    if i < k {
        assert(s[i] != sep);
    } else if k < i {
        assert(s[k] != sep);
    }
}

/// The characters of a string slice.
#[verifier::external_body]
pub(crate) fn chars_of(s: &str) -> (res: Vec<char>)
    ensures
        res@ == s@,
{
    s.chars().collect()
}

/// The string made of the given characters.
#[verifier::external_body]
pub(crate) fn string_of(cs: &[char]) -> (res: String)
    ensures
        res@ == cs@,
{
    cs.iter().collect()
}

/// Finds the first position at or after `start` holding `sep`.
fn find_from(cs: &Vec<char>, sep: char, start: usize) -> (res: Option<usize>)
    requires
        start <= cs@.len(),
    ensures
        match res {
            Some(k) => is_first_sep(cs@.skip(start as int), sep, k - start) && start <= k,
            None => forall|j: int| start <= j < cs@.len() ==> cs@[j] != sep,
        },
{
    let mut k = start;
    while k < cs.len()
        invariant
            start <= k <= cs@.len(),
            forall|j: int| start <= j < k ==> cs@[j] != sep,
        decreases cs@.len() - k,
    {
        if cs[k] == sep {
            return Some(k);
        }
        k = k + 1;
    }
    None
}

/// Splits the characters at the first `sep`: the text before it and after it.
pub fn split_once_chars(cs: &Vec<char>, sep: char) -> (res: Option<(String, String)>)
    ensures
        match split_once(cs@, sep) {
            None => res is None,
            Some((a, b)) => res matches Some((x, y)) && x@ == a && y@ == b,
        },
{
    match find_from(cs, sep, 0) {
        None => {
            assert(!exists|i: int| is_first_sep(cs@, sep, i));
            None
        },
        Some(k) => {
            assert(cs@.skip(0) =~= cs@);
            assert(is_first_sep(cs@, sep, k as int));
            assert(k < cs.len());
            proof {
                let i = choose|i: int| is_first_sep(cs@, sep, i);
                lemma_first_sep_unique(cs@, sep, i, k as int);
            }
            let head = string_of(&cs.as_slice()[0..k]);
            let tail = string_of(&cs.as_slice()[k + 1..cs.len()]);
            assert(cs@.subrange(0, k as int) =~= cs@.take(k as int));
            assert(cs@.subrange(k + 1, cs@.len() as int) =~= cs@.skip(k + 1));
            Some((head, tail))
        },
    }
}

/// The view of a list of strings as character sequences.
pub open spec fn strings_view(v: Seq<String>) -> Seq<Seq<char>> {
    v.map_values(|s: String| s@)
}

proof fn lemma_split_once_at(s: Seq<char>, sep: char, i: int)
    requires
        is_first_sep(s, sep, i),
    ensures
        split_once(s, sep) == Some((s.take(i), s.skip(i + 1))),
{
    let k = choose|k: int| is_first_sep(s, sep, k);
    lemma_first_sep_unique(s, sep, i, k);
}

/// Splits the characters at every `sep`.
pub fn split_all_chars(cs: &Vec<char>, sep: char) -> (res: Vec<String>)
    ensures
        strings_view(res@) == split_all(cs@, sep),
{
    let mut pieces: Vec<String> = Vec::new();
    let mut start: usize = 0;
    assert(cs@.skip(0) =~= cs@);
    loop
        invariant
            start <= cs@.len(),
            split_all(cs@, sep) == strings_view(pieces@) + split_all(cs@.skip(start as int), sep),
        decreases cs@.len() - start,
    {
        let ghost rest = cs@.skip(start as int);
        match find_from(cs, sep, start) {
            None => {
                assert(!exists|i: int| is_first_sep(rest, sep, i)) by {
                    if exists|i: int| is_first_sep(rest, sep, i) {
                        let i = choose|i: int| is_first_sep(rest, sep, i);
                        assert(cs@[start + i] == rest[i]);
                    }
                }
                assert(split_all(rest, sep) == seq![rest]);
                let piece = string_of(&cs.as_slice()[start..cs.len()]);
                assert(cs@.subrange(start as int, cs@.len() as int) =~= rest);
                let ghost before = pieces@;
                pieces.push(piece);
                assert(strings_view(pieces@) =~= strings_view(before) + seq![rest]);
                return pieces;
            },
            Some(k) => {
                let ghost i = k - start;
                assert(k < cs.len());
                proof {
                    lemma_split_once_at(rest, sep, i);
                }
                assert(rest.take(i) =~= cs@.subrange(start as int, k as int));
                assert(rest.skip(i + 1) =~= cs@.skip(k + 1));
                assert(split_all(rest, sep) == seq![rest.take(i)] + split_all(rest.skip(i + 1), sep));
                let piece = string_of(&cs.as_slice()[start..k]);
                let ghost before = pieces@;
                pieces.push(piece);
                assert(strings_view(pieces@) =~= strings_view(before) + seq![rest.take(i)]);
                start = k + 1;
            },
        }
    }
}

pub open spec fn is_digit(c: char) -> bool {
    '0' <= c <= '9'
}

pub open spec fn digit_value(c: char) -> int {
    c as int - 48
}

pub open spec fn digit_char(d: int) -> char {
    (d + 48) as char
}

/// The value of a string of decimal digits.
pub open spec fn digits_value(s: Seq<char>) -> int
    decreases s.len(),
{
    if s.len() == 0 {
        0
    } else {
        digits_value(s.drop_last()) * 10 + digit_value(s.last())
    }
}

pub open spec fn all_digits(s: Seq<char>) -> bool {
    forall|i: int| 0 <= i < s.len() ==> is_digit(#[trigger] s[i])
}

/// The digits of an unsigned number: the text without one leading `+`.
pub open spec fn unsigned_digits(s: Seq<char>) -> Seq<char> {
    if s.len() > 0 && s[0] == '+' {
        s.drop_first()
    } else {
        s
    }
}

/// What `usize::from_str` gives: an optional `+` and then at least one
/// decimal digit, with a value that fits a `usize`.
pub open spec fn parse_usize_spec(s: Seq<char>) -> Option<usize> {
    let d = unsigned_digits(s);
    if d.len() > 0 && all_digits(d) && digits_value(d) <= usize::MAX {
        Some(digits_value(d) as usize)
    } else {
        None
    }
}

/// The decimal digits of `n`, as `Display` writes an unsigned integer.
pub open spec fn decimal(n: nat) -> Seq<char>
    decreases n,
{
    if n < 10 {
        seq![digit_char(n as int)]
    } else {
        decimal(n / 10).push(digit_char((n % 10) as int))
    }
}

proof fn lemma_digits_value_grows(s: Seq<char>, k: int)
    requires
        0 <= k <= s.len(),
        all_digits(s),
    ensures
        digits_value(s.take(k)) <= digits_value(s),
        0 <= digits_value(s.take(k)),
    decreases s.len() - k,
{
    if k < s.len() {
        lemma_digits_value_grows(s, k + 1);
        assert(s.take(k + 1).drop_last() =~= s.take(k));
        assert(is_digit(s[k]));
        lemma_digits_value_nonneg(s.take(k));
    } else {
        assert(s.take(k) =~= s);
        lemma_digits_value_nonneg(s);
    }
}

proof fn lemma_digits_value_nonneg(s: Seq<char>)
    requires
        all_digits(s),
    ensures
        0 <= digits_value(s),
    decreases s.len(),
{
    if s.len() > 0 {
        assert(is_digit(s.last()));
        lemma_digits_value_nonneg(s.drop_last());
    }
}

/// Parses an unsigned decimal number as `usize::from_str` does.
pub fn parse_usize(cs: &Vec<char>) -> (res: Option<usize>)
    ensures
        res == parse_usize_spec(cs@),
{
    let start: usize = if cs.len() > 0 && cs[0] == '+' {
        1
    } else {
        0
    };
    let ghost d = unsigned_digits(cs@);
    assert(d =~= cs@.subrange(start as int, cs@.len() as int));
    if start >= cs.len() {
        return None;
    }
    let mut acc: usize = 0;
    let mut i: usize = start;
    assert(d.take(0) =~= Seq::<char>::empty());
    while i < cs.len()
        invariant
            start <= i <= cs@.len(),
            d == cs@.subrange(start as int, cs@.len() as int),
            d == unsigned_digits(cs@),
            all_digits(d.take(i - start)),
            acc == digits_value(d.take(i - start)),
        decreases cs@.len() - i,
    {
        let c = cs[i];
        assert(d[i - start] == c);
        if !(c >= '0' && c <= '9') {
            assert(!is_digit(d[i - start]));
            assert(!all_digits(d));
            assert(parse_usize_spec(cs@) is None);
            return None;
        }
        let dv = (c as u32 - 48) as usize;
        assert(d.take(i - start + 1).drop_last() =~= d.take(i - start));
        assert(dv == digit_value(c));
        assert(d.take(i - start + 1).last() == c);
        assert(digits_value(d.take(i - start + 1)) == acc * 10 + dv);
        if acc > (usize::MAX - dv) / 10 {
            assert(acc * 10 + dv > usize::MAX);
            proof {
                if all_digits(d) {
                    lemma_digits_value_grows(d, i - start + 1);
                }
            }
            assert(parse_usize_spec(cs@) is None);
            return None;
        }
        acc = acc * 10 + dv;
        assert(all_digits(d.take(i - start + 1))) by {
            assert forall|k: int| 0 <= k < i - start + 1 implies is_digit(
                #[trigger] d.take(i - start + 1)[k],
            ) by {
                if k < i - start {
                    assert(d.take(i - start + 1)[k] == d.take(i - start)[k]);
                }
            }
        }
        i = i + 1;
    }
    assert(d.take(i - start) =~= d);
    Some(acc)
}

/// The decimal text of `n` (`ToString` on `usize`).
#[verifier::external_body]
pub(crate) fn usize_to_decimal(n: usize) -> (s: String)
    ensures
        s@ == decimal(n as nat),
{
    n.to_string()
}

/// Writing a number in decimal and parsing it back gives the number.
pub proof fn lemma_parse_decimal(n: usize)
    ensures
        parse_usize_spec(decimal(n as nat)) == Some(n),
{
    lemma_decimal_digits(n as nat);
}

proof fn lemma_decimal_digits(n: nat)
    ensures
        decimal(n).len() > 0,
        all_digits(decimal(n)),
        digits_value(decimal(n)) == n,
        decimal(n)[0] != '+',
    decreases n,
{
    if n < 10 {
        assert(decimal(n).drop_last() =~= Seq::<char>::empty());
        assert(digit_value(digit_char(n as int)) == n);
        assert(digits_value(decimal(n).drop_last()) == 0);
        assert(decimal(n).last() == digit_char(n as int));
    } else {
        lemma_decimal_digits(n / 10);
        let s = decimal(n);
        assert(s.drop_last() =~= decimal(n / 10));
        assert forall|i: int| 0 <= i < s.len() implies is_digit(#[trigger] s[i]) by {
            if i < s.len() - 1 {
                assert(s[i] == decimal(n / 10)[i]);
            }
        }
        assert(s[0] == decimal(n / 10)[0]);
        assert(s.last() == digit_char((n % 10) as int));
        assert(digit_value(digit_char((n % 10) as int)) == n % 10);
        assert(digits_value(s) == digits_value(decimal(n / 10)) * 10 + digit_value(s.last()));
        assert(digits_value(decimal(n / 10)) == n / 10);
        assert((n / 10) * 10 + n % 10 == n);
    }
}

} // verus!
