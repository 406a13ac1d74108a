use bextract::number::parse_usize;
use bextract::score::{parse_score, Score};
use bextract::text::{
    ascii_word_spans, chars_of, contains_chars, find_char, remove_char, second_piece_range,
    trim_range,
};

fn cs(s: &str) -> Vec<char> {
    s.chars().collect()
}

fn sc(s: &str) -> Option<Score> {
    parse_score(&cs(s))
}

#[test]
fn scores_read_exactly() {
    assert_eq!(sc("2e-5"), Some(Score { mantissa: 2, exponent: -5 }));
    assert_eq!(sc("0.001"), Some(Score { mantissa: 1, exponent: -3 }));
    assert_eq!(sc("5.0"), Some(Score { mantissa: 50, exponent: -1 }));
    assert_eq!(sc("1E+3"), Some(Score { mantissa: 1, exponent: 3 }));
    assert_eq!(sc("+7"), Some(Score { mantissa: 7, exponent: 0 }));
    assert_eq!(sc("3.25e-120"), Some(Score { mantissa: 325, exponent: -122 }));
    assert_eq!(sc(".5"), Some(Score { mantissa: 5, exponent: -1 }));
    assert_eq!(sc("4."), Some(Score { mantissa: 4, exponent: 0 }));
}

#[test]
fn omitted_coefficient_counts_as_one() {
    assert_eq!(sc("e-5"), Some(Score { mantissa: 1, exponent: -5 }));
    assert_eq!(sc("E12"), Some(Score { mantissa: 1, exponent: 12 }));
}

#[test]
fn malformed_scores_are_refused() {
    for bad in ["", ".", "e", "1e", "1e+", "-1", "1.2.3", "abc", "1 ", "inf", "99999999999999999999"] {
        assert_eq!(sc(bad), None, "{:?}", bad);
    }
}

#[test]
fn score_order_is_numeric() {
    let a = Score { mantissa: 1, exponent: -10 };
    let b = Score { mantissa: 1, exponent: -4 };
    let c = Score { mantissa: 10, exponent: -5 };
    assert!(a.le(&b));
    assert!(!b.le(&a));
    assert!(b.le(&c) && c.le(&b));
    assert!(Score { mantissa: 0, exponent: 100 }.le(&a));
    assert!(!a.le(&Score { mantissa: 0, exponent: -100 }));
    assert!(!Score { mantissa: 1, exponent: i64::MAX }.le(&Score { mantissa: u64::MAX, exponent: i64::MIN }));
    assert!(Score { mantissa: 5, exponent: 0 }.le(&Score { mantissa: 50, exponent: -1 }));
}

#[test]
fn unsigned_integers_read_like_std() {
    let s = cs("+12 -1 007 18446744073709551616 x");
    assert_eq!(parse_usize(&s, 0, 3), Some(12));
    assert_eq!(parse_usize(&s, 4, 6), None);
    assert_eq!(parse_usize(&s, 7, 10), Some(7));
    assert_eq!(parse_usize(&s, 11, 31), None);
    assert_eq!(parse_usize(&s, 0, 0), None);
    assert_eq!(parse_usize(&s, 0, 1), None);
}

#[test]
fn text_helpers() {
    let s = chars_of("  a>b c\t");
    assert_eq!(s, cs("  a>b c\t"));
    assert!(contains_chars(&s, &cs(">b")));
    assert!(!contains_chars(&s, &cs("bc")));
    assert!(contains_chars(&s, &cs("")));
    assert_eq!(find_char(&s, 'c', 0), 6);
    assert_eq!(find_char(&s, 'z', 2), 8);
    assert_eq!(remove_char(&s, '>'), cs("  ab c\t"));
    assert_eq!(trim_range(&s, 0, s.len()), (2, 7));
    assert_eq!(trim_range(&s, 0, 2), (2, 2));
    assert_eq!(ascii_word_spans(&s), vec![(2, 5), (6, 7)]);
    let t = cs("a, b = c, d");
    assert_eq!(second_piece_range(&t, ','), Some((2, 8)));
    assert_eq!(second_piece_range(&cs("abc"), ','), None);
    assert_eq!(trim_range(&cs("\u{a0}x\u{3000}"), 0, 3), (1, 2));
}
