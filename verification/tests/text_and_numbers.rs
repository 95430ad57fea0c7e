use cch23::day01::{checked_task2_the_sled_id_system, cube, parse_sled_ids, task1_cube_the_bits, task2_the_sled_id_system, xor_all};
use cch23::day04::task1_reindeer_cheer;
use cch23::day05::{slicing_the_loop, OutOfBounds};
use cch23::day_minus_1::task1_everything_is_ok;
use cch23::text::{chars_of, parse_binary_u64, parse_i32, split_chars};

#[test]
fn greeting_at_root() {
    assert_eq!(task1_everything_is_ok(), "Day -1 Task 1");
}

#[test]
fn chars_in_order() {
    assert_eq!(chars_of("a\u{e9}\u{1F976}"), vec!['a', '\u{e9}', '\u{1F976}']);
    assert_eq!(chars_of(""), Vec::<char>::new());
}

#[test]
fn split_like_str_split() {
    assert_eq!(split_chars("4/5/8/10", '/'), vec!["4", "5", "8", "10"]);
    assert_eq!(split_chars("", '/'), vec![""]);
    assert_eq!(split_chars("/a//", '/'), vec!["", "a", "", ""]);
    assert_eq!(split_chars("abc", '/'), vec!["abc"]);
}

#[test]
fn parse_i32_matches_std() {
    let cases = [
        "0", "12", "-12", "+7", "-0", "2147483647", "-2147483648", "2147483648", "-2147483649",
        "", "-", "+", "1 ", " 1", "1a", "\u{663}", "00012", "99999999999999999999", "--1", "+-1",
    ];
    for c in cases {
        assert_eq!(parse_i32(c), c.parse::<i32>().ok(), "input {:?}", c);
    }
}

#[test]
fn parse_binary_matches_std() {
    let cases = [
        "0", "1", "101", "+11", "-1", "", "+", "2", "10 ",
        "1111111111111111111111111111111111111111111111111111111111111111",
        "10000000000000000000000000000000000000000000000000000000000000000",
        "0000000000000000000000000000000000000000000000000000000000000000000001",
    ];
    for c in cases {
        assert_eq!(parse_binary_u64(c), u64::from_str_radix(c, 2).ok(), "input {:?}", c);
    }
}

#[test]
fn cube_of_xor() {
    assert_eq!(task1_cube_the_bits(4, 8), 1728);
    assert_eq!(task1_cube_the_bits(10, 10), 0);
    assert_eq!(task1_cube_the_bits(-1, 0), -1);
    assert_eq!(cube(1290), 1290 * 1290 * 1290);
    assert_eq!(cube(-1290), -1290 * 1290 * 1290);
}

#[test]
fn sled_ids() {
    assert_eq!(task2_the_sled_id_system("4/5/8/10"), Ok(27));
    assert_eq!(task2_the_sled_id_system("10"), Ok(1000));
    assert_eq!(task2_the_sled_id_system("-3"), Ok(-27));
    assert_eq!(task2_the_sled_id_system("4/abc/x"), Err("abc".to_string()));
    assert_eq!(task2_the_sled_id_system(""), Err("".to_string()));
    assert_eq!(task2_the_sled_id_system("1/"), Err("".to_string()));
    assert_eq!(parse_sled_ids("1/-2/+3"), Ok(vec![1, -2, 3]));
    assert_eq!(xor_all(&vec![4, 5, 8, 10]), 3);
}

#[test]
fn two_ids_give_cube_of_the_bits() {
    for (a, b) in [(4, 8), (0, 0), (-5, 17), (1000, 1001)] {
        let path = format!("{}/{}", a, b);
        assert_eq!(task2_the_sled_id_system(&path), Ok(task1_cube_the_bits(a, b)));
    }
}

#[test]
fn reindeer_strength() {
    assert_eq!(task1_reindeer_cheer(&vec![5, 10, 15]), 30);
    assert_eq!(task1_reindeer_cheer(&vec![]), 0);
    assert_eq!(task1_reindeer_cheer(&vec![i32::MAX, -1, 1]), i32::MAX);
}

#[test]
fn slicing_the_names() {
    let names: Vec<String> = ["Ava", "Caleb", "Mia", "Owen", "Lily"].iter().map(|s| s.to_string()).collect();
    assert_eq!(slicing_the_loop(&names, 1, 3), Ok(vec!["Caleb".to_string(), "Mia".to_string(), "Owen".to_string()]));
    assert_eq!(slicing_the_loop(&names, 5, 0), Ok(Vec::<String>::new()));
    assert_eq!(slicing_the_loop(&names, 0, 5).map(|v| v.len()), Ok(5));
    assert_eq!(slicing_the_loop(&names, 3, 3), Err(OutOfBounds { len: 5 }));
    assert_eq!(slicing_the_loop(&names, 6, 0), Err(OutOfBounds { len: 5 }));
}

#[test]
fn split_then_join_gives_back_the_text() {
    for s in ["", "/", "a/b", "//x//", "no separator", "\u{1F600}/\u{e9}"] {
        let pieces = split_chars(s, '/');
        assert_eq!(pieces.join("/"), s);
        assert!(pieces.iter().all(|p| !p.contains('/')));
    }
}

#[test]
fn checked_sled_ids() {
    assert_eq!(checked_task2_the_sled_id_system("4/5/8/10"), Some(Ok(27)));
    assert_eq!(checked_task2_the_sled_id_system("1290"), Some(Ok(1290 * 1290 * 1290)));
    assert_eq!(checked_task2_the_sled_id_system("1291"), None);
    assert_eq!(checked_task2_the_sled_id_system("-1291"), None);
    assert_eq!(checked_task2_the_sled_id_system("65536"), None);
    assert_eq!(checked_task2_the_sled_id_system("70000/x"), Some(Err("x".to_string())));
}

#[test]
fn sled_id_ignores_order_and_repeated_pairs() {
    assert_eq!(task2_the_sled_id_system("10/8/5/4"), task2_the_sled_id_system("4/5/8/10"));
    assert_eq!(task2_the_sled_id_system("4/5/8/10/-7/-7"), Ok(27));
    assert_eq!(task2_the_sled_id_system("4/5/8/10/+3/+3"), Ok(27));
}
