use cch23::day21::{lookup_step, CountryLookup, LookupAction, LookupEvent};
use cch23::text::parse_binary_u64;

#[test]
fn cached_country_is_answered_at_once() {
    let (s, a) = lookup_step(&CountryLookup::ReadingCache, LookupEvent::CacheHit { country: "Brunei".to_string() });
    assert_eq!(s, CountryLookup::Finished);
    assert_eq!(a, LookupAction::Answer { country: "Brunei".to_string() });
}

#[test]
fn uncached_country_is_fetched_after_a_second_and_cached() {
    let (s, a) = lookup_step(&CountryLookup::ReadingCache, LookupEvent::CacheMiss);
    assert_eq!((s.clone(), a), (CountryLookup::WaitingForTurn, LookupAction::CheckClock));
    let (s, a) = lookup_step(&s, LookupEvent::Clock { elapsed_secs: 0 });
    assert_eq!((s.clone(), a), (CountryLookup::WaitingForTurn, LookupAction::Sleep { secs: 1 }));
    let (s, a) = lookup_step(&s, LookupEvent::Clock { elapsed_secs: 1 });
    assert_eq!((s.clone(), a), (CountryLookup::Fetching, LookupAction::StampAndFetch));
    let (s, a) = lookup_step(&s, LookupEvent::Fetched { country: "Chile".to_string() });
    assert_eq!(a, LookupAction::WriteCache { country: "Chile".to_string() });
    let (s, a) = lookup_step(&s, LookupEvent::Saved);
    assert_eq!((s, a), (CountryLookup::Finished, LookupAction::Answer { country: "Chile".to_string() }));
}

#[test]
fn failed_fetch_or_write_fails() {
    let (s, a) = lookup_step(&CountryLookup::Fetching, LookupEvent::FetchFailed);
    assert_eq!((s, a), (CountryLookup::Finished, LookupAction::Fail));
    let saving = CountryLookup::Saving { country: "Peru".to_string() };
    let (s, a) = lookup_step(&saving, LookupEvent::SaveFailed);
    assert_eq!((s, a), (CountryLookup::Finished, LookupAction::Fail));
}

#[test]
fn cell_id_from_binary() {
    assert_eq!(parse_binary_u64("0100111110010011000110011001010101011111000010100011110001011011"), Some(0x4f93_1995_5f0a_3c5b));
    assert_eq!(parse_binary_u64("012"), None);
}
