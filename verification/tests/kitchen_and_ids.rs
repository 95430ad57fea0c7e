use cch23::day07::{decode_recipe, task2_the_secret_cookie_recipe, RecipeError};
use cch23::day12::{
    checked_task3_let_santa_broil_lsb, task2_unanimously_legendary_identifier_ulid,
    task3_let_santa_broil_lsb, ulid_counts, ulid_to_uuid, Stats, TimeStore, Ulid, UlidCounts,
};

fn entries(xs: &[(&str, usize)]) -> Vec<(String, usize)> {
    xs.iter().map(|(k, v)| (k.to_string(), *v)).collect()
}

#[test]
fn decoding_the_recipe() {
    assert_eq!(
        decode_recipe("eyJmbG91ciI6MTAwLCJjaG9jb2xhdGUgY2hpcHMiOjIwfQ==").unwrap(),
        "{\"flour\":100,\"chocolate chips\":20}"
    );
    assert!(matches!(decode_recipe("not base64!"), Err(RecipeError::Base64(_))));
    assert!(matches!(decode_recipe("eyJ"), Err(RecipeError::Base64(_))));
    assert!(matches!(decode_recipe("/w=="), Err(RecipeError::Utf8(_))));
    assert_eq!(decode_recipe("").unwrap(), "");
}

#[test]
fn baking_cookies() {
    let recipe = entries(&[("flour", 95), ("sugar", 50), ("butter", 30), ("baking powder", 10), ("chocolate chips", 50)]);
    let pantry = entries(&[("flour", 385), ("sugar", 507), ("butter", 2122), ("baking powder", 865), ("chocolate chips", 457)]);
    let (cookies, after) = task2_the_secret_cookie_recipe(&recipe, &pantry);
    assert_eq!(cookies, 4);
    assert_eq!(after, entries(&[("flour", 5), ("sugar", 307), ("butter", 2002), ("baking powder", 825), ("chocolate chips", 257)]));
}

#[test]
fn baking_with_missing_or_unneeded_ingredients() {
    let recipe = entries(&[("flour", 1), ("slime", 9), ("dust", 0)]);
    let pantry = entries(&[("flour", 5), ("gold", 3)]);
    let (cookies, after) = task2_the_secret_cookie_recipe(&recipe, &pantry);
    assert_eq!(cookies, 0);
    assert_eq!(after, pantry);

    let recipe = entries(&[("flour", 0), ("dust", 0)]);
    let (cookies, after) = task2_the_secret_cookie_recipe(&recipe, &pantry);
    assert_eq!(cookies, usize::MAX);
    assert_eq!(after, pantry);

    let recipe = entries(&[("flour", 2), ("gold", 1)]);
    let (cookies, after) = task2_the_secret_cookie_recipe(&recipe, &pantry);
    assert_eq!(cookies, 2);
    assert_eq!(after, entries(&[("flour", 1), ("gold", 1)]));
}

#[test]
fn cookies_are_the_most_the_pantry_allows() {
    let recipe = entries(&[("a", 3), ("b", 7)]);
    let pantry = entries(&[("a", 20), ("b", 29)]);
    let (cookies, _) = task2_the_secret_cookie_recipe(&recipe, &pantry);
    assert_eq!(cookies, 4);
    assert!(3 * cookies <= 20 && 7 * cookies <= 29);
    assert!(7 * (cookies + 1) > 29);
}

#[test]
fn loading_after_saving() {
    let mut store = TimeStore::new();
    assert_eq!(store.task1_load("packet", 10), None);
    store.task1_save("packet".to_string(), 1_000_000_000);
    assert_eq!(store.task1_load("packet", 3_500_000_000), Some(2));
    assert_eq!(store.task1_load("packet", 1_999_999_999), Some(0));
    assert_eq!(store.task1_load("packet", 5), Some(0));
    store.task1_save("other".to_string(), 0);
    assert_eq!(store.task1_load("packet", 4_000_000_000), Some(3));
    store.task1_save("packet".to_string(), 4_000_000_000);
    assert_eq!(store.task1_load("packet", 4_000_000_000), Some(0));
}

#[test]
fn ulid_text_is_checked() {
    assert!(Ulid::parse("01BJQ0E1C3Z56ABCD0E11HYX4M").is_some());
    assert!(Ulid::parse("01bjq0e1c3z56abcd0e11hyx4m").is_some());
    assert!(Ulid::parse("01BJQ0E1C3Z56ABCD0E11HYX4").is_none());
    assert!(Ulid::parse("81BJQ0E1C3Z56ABCD0E11HYX4M").is_none());
    assert!(Ulid::parse("01BJQ0E1C3Z56ABCD0E11HYX4U").is_none());
}

#[test]
fn ulids_as_uuids_reversed() {
    let a = Ulid::parse("01BJQ0E1C3Z56ABCD0E11HYX4M").unwrap();
    assert_eq!(ulid_to_uuid(&a), "015cae07-0583-f94c-a5b1-a070431f7494");
    let b = Ulid::parse("01HH9SJEG4RX4W69HQRQ5MXZ4B").unwrap();
    let out = task2_unanimously_legendary_identifier_ulid(&vec![a, b]);
    assert_eq!(out, vec!["018c5399-3a04-c749-c326-37c5cb4efc8b", "015cae07-0583-f94c-a5b1-a070431f7494"]);
    assert_eq!(task2_unanimously_legendary_identifier_ulid(&vec![]), Vec::<String>::new());
}

#[test]
fn ulid_stats() {
    let ids = ["01HJDV4GG00000000000000001", "01GN396PD00000000000000002", "01Q3DCBD000000000000000003", "01HJF4AW000000000000000005"];
    let ulids: Vec<Ulid> = ids.iter().map(|s| Ulid::parse(s).unwrap()).collect();
    let stats = task3_let_santa_broil_lsb(&ulids, 6, 1703419200001);
    assert_eq!(stats, Stats { on_christmas_eve: 2, weekday: 1, in_future: 2, lsb_is_1: 3 });
    let stats = task3_let_santa_broil_lsb(&ulids, 0, 0);
    assert_eq!(stats, Stats { on_christmas_eve: 2, weekday: 1, in_future: 4, lsb_is_1: 3 });
    let stats = task3_let_santa_broil_lsb(&vec![], 3, 0);
    assert_eq!(stats, Stats { on_christmas_eve: 0, weekday: 0, in_future: 0, lsb_is_1: 0 });
    assert_eq!(
        checked_task3_let_santa_broil_lsb(&ulids, 5, 1893456000000),
        Some(Stats { on_christmas_eve: 2, weekday: 1, in_future: 0, lsb_is_1: 3 })
    );
    assert_eq!(
        ulid_counts(&ulids, 1, 1893455999999),
        UlidCounts { on_christmas_eve: 2, weekday: 1, in_future: 1, lsb_is_1: 3 }
    );
}

#[test]
fn ulid_stats_beyond_u16() {
    let ulids: Vec<Ulid> = (0..65536).map(|_| Ulid::parse("01HJDV4GG00000000000000001").unwrap()).collect();
    assert_eq!(checked_task3_let_santa_broil_lsb(&ulids, 0, 0), None);
    let fewer: Vec<Ulid> = (0..65535).map(|_| Ulid::parse("01HJDV4GG00000000000000001").unwrap()).collect();
    assert_eq!(
        checked_task3_let_santa_broil_lsb(&fewer, 0, 0),
        Some(Stats { on_christmas_eve: 65535, weekday: 0, in_future: 65535, lsb_is_1: 65535 })
    );
}

#[test]
fn ulid_symbol_aliases_read_as_digits() {
    let canonical = ulid_to_uuid(&Ulid::parse("01BJQ0E1C3Z56ABCD0E11HYX4M").unwrap());
    let aliased = ulid_to_uuid(&Ulid::parse("O1bjqOeIc3z56abcdOeLlhyx4m").unwrap());
    assert_eq!(canonical, aliased);
    assert_eq!(
        ulid_to_uuid(&Ulid::parse("0000000000000000000000000Z").unwrap()),
        "00000000-0000-0000-0000-00000000001f"
    );
}
