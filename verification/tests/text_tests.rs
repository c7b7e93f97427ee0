use rust_mallet::text::{parse_usize, split_all_chars, split_once_chars};

fn chars_of(s: &str) -> Vec<char> {
    s.chars().collect()
}

fn p(s: &str) -> Option<usize> {
    parse_usize(&chars_of(s))
}

#[test]
fn parses_unsigned_numbers_like_from_str() {
    assert_eq!(p("0"), Some(0));
    assert_eq!(p("42"), Some(42));
    assert_eq!(p("+7"), Some(7));
    assert_eq!(p("007"), Some(7));
    assert_eq!(p(""), None);
    assert_eq!(p("+"), None);
    assert_eq!(p("-1"), None);
    assert_eq!(p("1a"), None);
    assert_eq!(p(" 1"), None);
    assert_eq!(p(&usize::MAX.to_string()), Some(usize::MAX));
    assert_eq!(p("99999999999999999999999"), None);
    for s in ["12", "+3", "x", "", "-0", "18446744073709551616"] {
        assert_eq!(p(s), s.parse::<usize>().ok());
    }
}

#[test]
fn decimal_round_trips() {
    for n in [0usize, 9, 10, 12345, usize::MAX] {
        assert_eq!(p(&n.to_string()), Some(n));
    }
}

#[test]
fn splits_like_str_split() {
    for s in ["a\tb\tc", "", "\t", "a\t\tb\t", "no tabs"] {
        let got = split_all_chars(&chars_of(s), '\t');
        let want: Vec<String> = s.split('\t').map(|x| x.to_string()).collect();
        assert_eq!(got, want);
    }
}

#[test]
fn splits_once_like_split_once() {
    assert_eq!(
        split_once_chars(&chars_of("a\tb\tc"), '\t'),
        Some(("a".to_string(), "b\tc".to_string()))
    );
    assert_eq!(split_once_chars(&chars_of("abc"), '\t'), None);
}
