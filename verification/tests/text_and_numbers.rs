use dominos::number::{parse_i32, push_decimal};
use dominos::text::{chars_of, is_white_space_char, split_commas, split_whitespace, string_of};

fn chars(s: &str) -> Vec<char> {
    s.chars().collect()
}

fn texts(v: Vec<Vec<char>>) -> Vec<String> {
    v.into_iter().map(|w| w.into_iter().collect()).collect()
}

#[test]
fn words_split_on_unicode_whitespace() {
    assert_eq!(texts(split_whitespace(&chars(" a\tbc\u{3000}d\n "))), vec!["a", "bc", "d"]);
    assert!(split_whitespace(&chars("  ")).is_empty());
    assert!(is_white_space_char('\u{85}'));
    assert!(!is_white_space_char('\u{200b}'));
}

#[test]
fn fields_split_at_every_comma() {
    assert_eq!(texts(split_commas(&chars("3,1"))), vec!["3", "1"]);
    assert_eq!(texts(split_commas(&chars(",x,"))), vec!["", "x", ""]);
    assert_eq!(texts(split_commas(&chars(""))), vec![""]);
}

#[test]
fn parsing_follows_i32_from_str() {
    for s in ["0", "12", "+7", "-0", "-2147483648", "2147483647", "007", "", "+", "-", "2147483648", "-2147483649", "1a", " 1", "+-1", "99999999999999999999"] {
        assert_eq!(parse_i32(&chars(s)), s.parse::<i32>().ok(), "{}", s);
    }
}

#[test]
fn decimal_follows_display() {
    for n in [0, 7, 10, -1, 2024, i32::MAX, i32::MIN] {
        let mut out = vec!['x'];
        push_decimal(&mut out, n);
        assert_eq!(out.iter().collect::<String>(), format!("x{}", n));
    }
}

#[test]
fn strings_and_characters() {
    assert_eq!(chars_of("dé1"), vec!['d', 'é', '1']);
    assert_eq!(string_of(&vec!['o', 'k']), "ok");
}
