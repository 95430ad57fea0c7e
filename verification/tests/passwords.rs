use cch23::day06::elf_counting;
use cch23::day15::{
    check_string_for_2_consecutive_letters, checked_rule4, rule1, rule5, rule6, rule7, rule8,
    rule9, sum_numbers, task1_naughty_or_nice_strings, task2_game_of_the_year, GameMatchers,
    GameResult, NiceMatchers, PasswordType, ResultJson,
};
use cch23::pattern::{count_matches, Matcher};

fn game() -> GameMatchers {
    GameMatchers::new().unwrap()
}

fn answer(p: &str) -> Option<(u16, String, String)> {
    task2_game_of_the_year(&game(), p).map(|g| (g.status, g.body.result, g.body.reason))
}

#[test]
fn matcher_keeps_its_pattern() {
    let m = Matcher::new("ab|cd").unwrap();
    assert_eq!(m.pattern(), "ab|cd");
    assert!(Matcher::new("foo(bar").is_none());
}

#[test]
fn counting_elves() {
    let re = Matcher::new("elf").unwrap();
    assert_eq!(elf_counting(&re, "The mischievous elf peeked out from behind the toy workshop, and another elf joined in the festive dance. Look, there is also an elf on that shelf!"), 4);
    assert_eq!(elf_counting(&re, ""), 0);
    assert_eq!(elf_counting(&re, "elfelf"), 2);
    assert_eq!(elf_counting(&re, "ELF"), 0);
    let digits = Matcher::new("\\d").unwrap();
    assert_eq!(count_matches(&digits, "a1b22\u{663}"), 4);
}

#[test]
fn consecutive_letters() {
    assert!(check_string_for_2_consecutive_letters("hello"));
    assert!(!check_string_for_2_consecutive_letters("11"));
    assert!(!check_string_for_2_consecutive_letters(""));
    assert!(!check_string_for_2_consecutive_letters("abab"));
    assert!(check_string_for_2_consecutive_letters("\u{e9}\u{e9}"));
}

#[test]
fn naughty_or_nice() {
    let m = NiceMatchers::new().unwrap();
    assert_eq!(task1_naughty_or_nice_strings(&m, "hello there"), PasswordType::Nice);
    assert_eq!(task1_naughty_or_nice_strings(&m, "abcd"), PasswordType::Naughty);
    assert_eq!(task1_naughty_or_nice_strings(&m, "aeiooo cdx"), PasswordType::Naughty);
    assert_eq!(task1_naughty_or_nice_strings(&m, "aeioo"), PasswordType::Nice);
    assert_eq!(task1_naughty_or_nice_strings(&m, "aeiou"), PasswordType::Naughty);
}

#[test]
fn password_responses() {
    let (status, body) = PasswordType::Nice.response();
    assert_eq!((status, body.map(|b| b.result)), (200, Some("nice".to_string())));
    let (status, body) = PasswordType::Naughty.response();
    assert_eq!((status, body.map(|b| b.result)), (400, Some("naughty".to_string())));
    let (status, body) = PasswordType::BadRequest.response();
    assert_eq!((status, body.is_none()), (400, true));
    assert_eq!(ResultJson::new("x").result, "x");
}

#[test]
fn game_results() {
    let ok = GameResult::ok();
    assert_eq!((ok.result.as_str(), ok.reason.as_str()), ("nice", "that's a nice password"));
    let err = GameResult::error("outranged");
    assert_eq!((err.result.as_str(), err.reason.as_str()), ("naughty", "outranged"));
}

#[test]
fn game_rules_in_order() {
    let n = |s: u16, r: &str| Some((s, "naughty".to_string(), r.to_string()));
    assert_eq!(answer("mario"), n(400, "8 chars"));
    assert_eq!(answer("mariobro"), n(400, "more types of chars"));
    assert_eq!(answer("EEEEEEEEEEE"), n(400, "more types of chars"));
    assert_eq!(answer("E3E3E3E3E3e"), n(400, "math is hard"));
    assert_eq!(answer("Ab1234abcd"), n(400, "55555"));
    assert_eq!(answer("Password12345"), n(400, "math is hard"));
    assert_eq!(answer("23jPassword2000"), n(406, "not joyful enough"));
    assert_eq!(answer("23yPassword2000j"), n(406, "not joyful enough"));
    assert_eq!(answer("23jPassword2000yj"), n(406, "not joyful enough"));
    assert_eq!(answer("23jPassword2000y"), n(451, "illegal: no sandwich"));
    assert_eq!(answer("23jPassword2000ySxS"), n(416, "outranged"));
    assert_eq!(answer("23jPassword2000ySxS\u{2980}"), n(426, "\u{1F633}"));
    assert_eq!(answer("23jPassword2000ySxS\u{2980}\u{1F600}"), n(418, "not a coffee brewer"));
    assert_eq!(
        answer("23jPassword2000ySxS\u{2980}\u{1F600}BG"),
        Some((200, "nice".to_string(), "that's a nice password".to_string()))
    );
}

#[test]
fn game_undefined_where_numbers_do_not_parse() {
    // more than i32::MAX, and a non-ASCII digit: rule 4 is not defined on either
    assert_eq!(answer("Aa99999999999"), None);
    assert_eq!(answer("Aa12345\u{663}"), None);
    assert!(checked_rule4(&game(), "Aa99999999999").is_none());
    assert!(matches!(checked_rule4(&game(), "Aa2000b23"), Some(None)));
    assert!(matches!(checked_rule4(&game(), "Aa2000b24"), Some(Some(_))));
}

#[test]
fn summing_numbers() {
    let v = |xs: &[&str]| xs.iter().map(|s| s.to_string()).collect::<Vec<String>>();
    assert_eq!(sum_numbers(&v(&["23", "2000"])), Some(2023));
    assert_eq!(sum_numbers(&v(&[])), Some(0));
    assert_eq!(sum_numbers(&v(&["2147483647", "1"])), None);
    assert_eq!(sum_numbers(&v(&["2147483647", "-1", "1"])), Some(2147483647));
    assert_eq!(sum_numbers(&v(&["x"])), None);
}

#[test]
fn single_rules() {
    assert!(rule1("12345678").is_none());
    assert_eq!(rule1("1234567").map(|g| g.status), Some(400));
    assert!(rule5("joy").is_none());
    assert!(rule5("xjxoxyx").is_none());
    assert!(rule5("jjoy").is_some());
    assert!(rule5("").is_some());
    assert!(rule6("aba").is_none());
    assert!(rule6("aaa").is_some());
    assert!(rule6("a1a").is_some());
    assert_eq!(rule6("ab").map(|g| g.status), Some(451));
    assert!(rule7("\u{2BFF}").is_none());
    assert!(rule7("\u{2C00}\u{297F}").is_some());
    assert!(rule8("\u{1F600}").is_none());
    assert!(rule8("a").is_some());
    // SHA-256 of "23jPassword2000ySxS\u{2980}\u{1F600}BG" ends in 'a'
    assert!(rule9("23jPassword2000ySxS\u{2980}\u{1F600}BG").is_none());
    assert_eq!(rule9("23jPassword2000ySxS\u{2980}\u{1F600}").map(|g| g.status), Some(418));
}
