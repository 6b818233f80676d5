use jjstack::text::{
    chars_of, find, is_whitespace, matches_at, push_chars, push_decimal, push_signed_decimal,
    trim_bounds,
};

fn chars(s: &str) -> Vec<char> {
    s.chars().collect()
}

#[test]
fn whitespace_is_what_std_calls_whitespace() {
    let mut c = 0u32;
    while c <= 0x10FFFF {
        if let Some(ch) = char::from_u32(c) {
            assert_eq!(is_whitespace(ch), ch.is_whitespace(), "U+{:04X}", c);
        }
        c += 1;
    }
}

#[test]
fn chars_of_keeps_every_character() {
    assert_eq!(chars_of("a ◁\n"), vec!['a', ' ', '◁', '\n']);
    assert_eq!(chars_of(""), Vec::<char>::new());
}

#[test]
fn push_chars_appends_the_range() {
    let mut out = String::from("x");
    push_chars(&mut out, &chars("hello"), 1, 4);
    assert_eq!(out, "xell");
    push_chars(&mut out, &chars("hello"), 2, 2);
    assert_eq!(out, "xell");
}

#[test]
fn find_gives_the_leftmost_position() {
    assert_eq!(find(&chars("abcabc"), &chars("bc")), Some(1));
    assert_eq!(find(&chars("abcabc"), &chars("abc")), Some(0));
    assert_eq!(find(&chars("abcabc"), &chars("cab")), Some(2));
    assert_eq!(find(&chars("abcabc"), &chars("abcabc")), Some(0));
}

#[test]
fn find_misses_what_is_not_there() {
    assert_eq!(find(&chars("abcabc"), &chars("cb")), None);
    assert_eq!(find(&chars("abc"), &chars("abcd")), None);
    assert_eq!(find(&chars(""), &chars("a")), None);
}

#[test]
fn find_places_the_empty_pattern_at_the_start() {
    assert_eq!(find(&chars("abc"), &chars("")), Some(0));
    assert_eq!(find(&chars(""), &chars("")), Some(0));
}

#[test]
fn find_counts_characters_not_bytes() {
    assert_eq!(find(&chars("◁◁x"), &chars("x")), Some(2));
}

#[test]
fn matches_at_tests_one_position() {
    assert!(matches_at(&chars("abcabc"), &chars("cab"), 2));
    assert!(!matches_at(&chars("abcabc"), &chars("cab"), 1));
    assert!(matches_at(&chars("abc"), &chars(""), 3));
}

fn trimmed_by_bounds(s: &str, from: usize, to: usize) -> String {
    let v = chars(s);
    let (lo, hi) = trim_bounds(&v, from, to);
    v[lo..hi].iter().collect()
}

#[test]
fn trim_bounds_agree_with_std_trim() {
    let samples = [
        "",
        " ",
        "a",
        "  a  ",
        "\n\ta b\r\n",
        "\u{a0}x\u{3000}",
        "\u{2003}\u{2028}",
        "x\u{200b}",
        "\u{85}y\u{1680}",
    ];
    for s in samples {
        let n = s.chars().count();
        assert_eq!(trimmed_by_bounds(s, 0, n), s.trim(), "{:?}", s);
    }
}

#[test]
fn trim_bounds_stay_inside_the_range() {
    let v = chars("ab  cd  ef");
    assert_eq!(trim_bounds(&v, 2, 8), (4, 6));
    assert_eq!(trim_bounds(&v, 2, 4), (4, 4));
    assert_eq!(trim_bounds(&v, 3, 3), (3, 3));
}

#[test]
fn push_decimal_writes_the_numeral() {
    for n in [0u64, 1, 9, 10, 11, 99, 100, 12345, u64::MAX] {
        let mut out = String::from("#");
        push_decimal(&mut out, n);
        assert_eq!(out, format!("#{}", n));
    }
}

#[test]
fn push_signed_decimal_writes_the_sign() {
    for n in [0i32, 7, -7, 42, -42, i32::MAX, i32::MIN] {
        let mut out = String::new();
        push_signed_decimal(&mut out, n);
        assert_eq!(out, format!("{}", n));
    }
}
