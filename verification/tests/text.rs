use boucle::confidence::Confidence;
use boucle::number::{digits_of, parse_u64};
use boucle::text::{
    byte_len, chars_of, contains_chars, count_occurrences, find_in, is_space_char, join_chars,
    lex_le_chars, lines_of, split_chars, string_of, strip_chars, trim_chars, words_of, CharClass,
};

fn chars(s: &str) -> Vec<char> {
    s.chars().collect()
}

fn strings(v: Vec<Vec<char>>) -> Vec<String> {
    v.into_iter().map(|c| c.into_iter().collect()).collect()
}

const SAMPLES: [&str; 12] = [
    "",
    "plain",
    "  padded \t",
    "one\ntwo\r\nthree\r",
    "\n\nleading",
    "trailing\n",
    "a,b,,c",
    "\u{a0}nbsp\u{3000}wide\u{2003}em",
    "héllo wörld",
    "日本語 テキスト",
    "x\r\n\r\ny\n",
    "\r",
];

#[test]
fn white_space_is_what_the_standard_library_says() {
    for u in 0..=0x10ffffu32 {
        if let Some(c) = char::from_u32(u) {
            assert_eq!(is_space_char(c), c.is_whitespace(), "U+{:04X}", u);
        }
    }
}

#[test]
fn conversions_keep_the_characters() {
    for s in SAMPLES {
        assert_eq!(chars_of(s), chars(s));
        assert_eq!(string_of(&chars(s)), s);
        assert_eq!(byte_len(&chars(s)), s.len() as u128);
    }
}

#[test]
fn trimming_and_splitting_agree_with_the_standard_library() {
    for s in SAMPLES {
        assert_eq!(string_of(&trim_chars(&chars(s))), s.trim());
        assert_eq!(
            strings(lines_of(&chars(s))),
            s.lines().map(|l| l.to_string()).collect::<Vec<_>>()
        );
        assert_eq!(
            strings(words_of(&chars(s))),
            s.split_whitespace().map(|l| l.to_string()).collect::<Vec<_>>()
        );
        assert_eq!(
            strings(split_chars(&chars(s), CharClass::Exactly(','))),
            s.split(',').map(|l| l.to_string()).collect::<Vec<_>>()
        );
        assert_eq!(
            string_of(&strip_chars(&chars(s), CharClass::Exactly('a'))),
            s.trim_matches('a')
        );
    }
}

#[test]
fn searching_agrees_with_the_standard_library() {
    let hay = ["", "aaaa", "abcabcabc", "the rust and the trust", "ababab", "日本語日本"];
    let needles = ["", "a", "aa", "abc", "rust", "aba", "日本", "zzz"];
    for h in hay {
        for n in needles {
            assert_eq!(contains_chars(&chars(h), &chars(n)), h.contains(n), "{h:?} {n:?}");
            assert_eq!(
                find_in(&chars(h), &chars(n)),
                h.find(n).map(|at| h[..at].chars().count()),
                "{h:?} {n:?}"
            );
            assert_eq!(
                count_occurrences(&chars(h), &chars(n)),
                h.matches(n).count() as u128,
                "{h:?} {n:?}"
            );
        }
    }
}

#[test]
fn joining_and_ordering() {
    let parts = vec![chars("a"), chars(""), chars("bc")];
    assert_eq!(string_of(&join_chars(&parts, &chars(", "))), "a, , bc");
    assert_eq!(string_of(&join_chars(&vec![], &chars(", "))), "");
    let names = ["", "a", "ab", "b", "B", "é", "z", "日"];
    for x in names {
        for y in names {
            assert_eq!(lex_le_chars(&chars(x), &chars(y)), x <= y, "{x:?} {y:?}");
        }
    }
}

#[test]
fn numbers_in_decimal() {
    for n in [0u64, 7, 10, 99, 100, 12345, u64::MAX] {
        assert_eq!(string_of(&digits_of(n)), n.to_string());
        assert_eq!(parse_u64(&chars(&n.to_string())), Some(n));
    }
    assert_eq!(parse_u64(&chars("+42")), Some(42));
    assert_eq!(parse_u64(&chars("007")), Some(7));
    for bad in ["", "+", "-1", "1.5", " 1", "1a", "18446744073709551616"] {
        assert_eq!(parse_u64(&chars(bad)), bad.parse::<u64>().ok(), "{bad:?}");
    }
}

#[test]
fn confidence_notation() {
    let shortest = |m: i64| string_of(&Confidence::from_millis(m).to_chars());
    let one = |m: i64| string_of(&Confidence::from_millis(m).to_one_decimal());
    assert_eq!(shortest(800), "0.8");
    assert_eq!(shortest(1000), "1");
    assert_eq!(shortest(0), "0");
    assert_eq!(shortest(950), "0.95");
    assert_eq!(shortest(5), "0.005");
    assert_eq!(shortest(-250), "-0.25");
    assert_eq!(shortest(12_340), "12.34");
    assert_eq!(shortest(i64::MIN), "-9223372036854775.808");
    assert_eq!(one(800), "0.8");
    assert_eq!(one(300), "0.3");
    assert_eq!(one(1000), "1.0");
    assert_eq!(one(949), "0.9");
    assert_eq!(one(951), "1.0");
    assert_eq!(one(950), "1.0");
    assert_eq!(one(850), "0.8");
    assert_eq!(one(-1250), "-1.2");
    let parse = |s: &str| Confidence::parse(s).map(|c| c.as_millis());
    assert_eq!(parse("0.8"), Some(800));
    assert_eq!(parse("1"), Some(1000));
    assert_eq!(parse("1.0"), Some(1000));
    assert_eq!(parse(".5"), Some(500));
    assert_eq!(parse("5."), Some(5000));
    assert_eq!(parse("+0.25"), Some(250));
    assert_eq!(parse("-0.25"), Some(-250));
    assert_eq!(parse("0.12345"), Some(123));
    assert_eq!(parse("-9223372036854775.808"), Some(i64::MIN));
    assert_eq!(parse("9223372036854775.807"), Some(i64::MAX));
    for bad in ["", ".", "-", "abc", "1e3", "0.8x", "1.2.3", "9223372036854775.808", " 1"] {
        assert_eq!(parse(bad), None, "{bad:?}");
    }
    for m in [0i64, 1, -1, 10, 100, 800, 999, 1000, 1001, -123456, i64::MAX, i64::MIN] {
        assert_eq!(parse(&shortest(m)), Some(m));
    }
}
