use energy_bench::text::{
    chars_of, contains, decimal_chars, lex_less, parse_u64, push_decimal, same_chars, starts_with,
    string_of, trim,
};

fn v(s: &str) -> Vec<char> {
    s.chars().collect()
}

#[test]
fn chars_and_string_round_trip() {
    let c = chars_of("héllo/wörld");
    assert_eq!(c, v("héllo/wörld"));
    assert_eq!(string_of(&c), "héllo/wörld");
    assert_eq!(chars_of(""), Vec::<char>::new());
}

#[test]
fn lexicographic_order_matches_string_order() {
    let words = ["", "a", "ab", "b", "B", "rust", "rustc", "ä", "zig"];
    for x in words.iter() {
        for y in words.iter() {
            assert_eq!(lex_less(&v(x), &v(y)), x < y, "{} < {}", x, y);
            assert_eq!(same_chars(&v(x), &v(y)), x == y);
        }
    }
}

#[test]
fn decimal_notation() {
    assert_eq!(decimal_chars(0), v("0"));
    assert_eq!(decimal_chars(7), v("7"));
    assert_eq!(decimal_chars(1234), v("1234"));
    assert_eq!(decimal_chars(u64::MAX), v("18446744073709551615"));
    let mut s = String::from("n=");
    push_decimal(&mut s, 905);
    assert_eq!(s, "n=905");
}

#[test]
fn parse_accepts_what_std_accepts() {
    let cases = [
        "0", "42", "+7", "007", "", "+", "-1", "-0", "12a", " 1", "18446744073709551615",
        "18446744073709551616", "99999999999999999999", "+18446744073709551615",
    ];
    for c in cases.iter() {
        assert_eq!(parse_u64(&v(c)), c.parse::<u64>().ok(), "parsing {:?}", c);
    }
}

#[test]
fn parse_of_decimal_gives_the_number_back() {
    for n in [0u64, 9, 10, 99, 100, 262143328850, u64::MAX] {
        assert_eq!(parse_u64(&decimal_chars(n)), Some(n));
    }
}

#[test]
fn trim_strips_unicode_white_space() {
    assert_eq!(trim(&v(" \t 12\n")), v("12"));
    assert_eq!(trim(&v("\u{3000}a b\u{2029}")), v("a b"));
    assert_eq!(trim(&v("   ")), v(""));
    assert_eq!(trim(&v("x")), v("x"));
    let s = "\u{85}\u{a0} mixed \u{200a}";
    assert_eq!(trim(&v(s)), v(s.trim()));
}

#[test]
fn prefixes_and_infixes() {
    assert!(starts_with(&v("Tp09"), &v("Tp")));
    assert!(!starts_with(&v("T"), &v("Tp")));
    assert!(starts_with(&v("abc"), &v("")));
    assert!(contains(&v("PACC0_ECPU1"), &v("ECPU")));
    assert!(!contains(&v("PACC0_PCPU1"), &v("ECPU")));
    assert!(contains(&v("ECPU"), &v("ECPU")));
    assert!(contains(&v(""), &v("")));
}
