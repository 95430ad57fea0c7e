use vstd::prelude::*;

verus! {

/// Where a country lookup stands.
#[derive(Debug, Clone, PartialEq, Eq)]
pub enum CountryLookup {
    /// Reading the answer from the cache.
    ReadingCache,
    /// Waiting until a second has passed since the service was last asked.
    WaitingForTurn,
    /// Asking the reverse-geocoding service.
    Fetching,
    /// Writing the answer to the cache.
    Saving { country: String },
    /// Done: answered or failed.
    Finished,
}

/// What the outside work reported.
#[derive(Debug, Clone, PartialEq, Eq)]
pub enum LookupEvent {
    CacheHit { country: String },
    CacheMiss,
    /// Whole seconds since the service was last asked.
    Clock { elapsed_secs: u64 },
    Fetched { country: String },
    FetchFailed,
    Saved,
    SaveFailed,
}

/// The outside work to do next.
#[derive(Debug, Clone, PartialEq, Eq)]
pub enum LookupAction {
    /// Read how long ago the service was last asked.
    CheckClock,
    /// Sleep this many seconds, then check the clock again.
    Sleep { secs: u64 },
    /// Record now as the last use of the service, then ask it.
    StampAndFetch,
    /// Write the country to the cache.
    WriteCache { country: String },
    /// Answer with the country.
    Answer { country: String },
    /// Answer with an internal error.
    Fail,
}

/// The events that can follow the action taken in `state`.
pub open spec fn expects(state: CountryLookup, event: LookupEvent) -> bool {
    match state {
        CountryLookup::ReadingCache => event is CacheHit || event is CacheMiss,
        CountryLookup::WaitingForTurn => event is Clock,
        CountryLookup::Fetching => event is Fetched || event is FetchFailed,
        CountryLookup::Saving { .. } => event is Saved || event is SaveFailed,
        CountryLookup::Finished => false,
    }
}

/// The next state and action of a country lookup.
///
/// A cached answer is given at once; otherwise the service is asked no sooner
/// than a second after its last use (sleeping a second at a time), its answer
/// is cached and then given; a failed request or cache write fails the lookup.
pub open spec fn next_step(state: CountryLookup, event: LookupEvent) -> (CountryLookup, LookupAction) {
    match (state, event) {
        (CountryLookup::ReadingCache, LookupEvent::CacheHit { country }) => (
            CountryLookup::Finished,
            LookupAction::Answer { country },
        ),
        (CountryLookup::ReadingCache, LookupEvent::CacheMiss) => (
            CountryLookup::WaitingForTurn,
            LookupAction::CheckClock,
        ),
        (CountryLookup::WaitingForTurn, LookupEvent::Clock { elapsed_secs }) => if elapsed_secs
            < 1 {
            (CountryLookup::WaitingForTurn, LookupAction::Sleep { secs: 1 })
        } else {
            (CountryLookup::Fetching, LookupAction::StampAndFetch)
        },
        (CountryLookup::Fetching, LookupEvent::Fetched { country }) => (
            CountryLookup::Saving { country },
            LookupAction::WriteCache { country },
        ),
        (CountryLookup::Saving { country }, LookupEvent::Saved) => (
            CountryLookup::Finished,
            LookupAction::Answer { country },
        ),
        _ => (CountryLookup::Finished, LookupAction::Fail),
    }
}

/// Takes one step of a country lookup.
pub fn lookup_step(state: &CountryLookup, event: LookupEvent) -> (r: (CountryLookup, LookupAction))
    requires
        expects(*state, event),
    ensures
        r == next_step(*state, event),
{
    match (state, event) {
        (CountryLookup::ReadingCache, LookupEvent::CacheHit { country }) => (
            CountryLookup::Finished,
            LookupAction::Answer { country },
        ),
        (CountryLookup::ReadingCache, LookupEvent::CacheMiss) => (
            CountryLookup::WaitingForTurn,
            LookupAction::CheckClock,
        ),
        (CountryLookup::WaitingForTurn, LookupEvent::Clock { elapsed_secs }) => {
            if elapsed_secs < 1 {
                (CountryLookup::WaitingForTurn, LookupAction::Sleep { secs: 1 })
            } else {
                (CountryLookup::Fetching, LookupAction::StampAndFetch)
            }
        },
        (CountryLookup::Fetching, LookupEvent::Fetched { country }) => {
            let saved = country.clone();
            (CountryLookup::Saving { country: saved }, LookupAction::WriteCache { country })
        },
        (CountryLookup::Saving { country }, LookupEvent::Saved) => (
            CountryLookup::Finished,
            LookupAction::Answer { country: country.clone() },
        ),
        _ => (CountryLookup::Finished, LookupAction::Fail),
    }
}

/// The service is asked only once a second has passed since its last use:
/// the only step that asks it is taken on a clock reading of at least a second.
pub proof fn law_fetch_waits_a_second(state: CountryLookup, event: LookupEvent)
    requires
        expects(state, event),
        next_step(state, event).1 == LookupAction::StampAndFetch,
    ensures
        state is WaitingForTurn,
        event matches LookupEvent::Clock { elapsed_secs } && elapsed_secs >= 1,
{
}

/// The actions a lookup takes from `state` as `events` come in, one per event,
/// until it finishes.
pub open spec fn run_actions(state: CountryLookup, events: Seq<LookupEvent>) -> Seq<LookupAction>
    decreases events.len(),
{
    if events.len() == 0 || state is Finished {
        Seq::<LookupAction>::empty()
    } else {
        let (next, action) = next_step(state, events[0]);
        seq![action] + run_actions(next, events.drop_first())
    }
}

/// Every event of `events` is one that the lookup expects when it comes.
pub open spec fn run_expected(state: CountryLookup, events: Seq<LookupEvent>) -> bool
    decreases events.len(),
{
    if events.len() == 0 || state is Finished {
        true
    } else {
        expects(state, events[0]) && run_expected(next_step(state, events[0]).0, events.drop_first())
    }
}

/// How many times the service is asked.
pub open spec fn requests(actions: Seq<LookupAction>) -> nat
    decreases actions.len(),
{
    if actions.len() == 0 {
        0
    } else {
        (if actions[0] is StampAndFetch {
            1nat
        } else {
            0nat
        }) + requests(actions.drop_first())
    }
}

/// Every answer comes right after the same country was written to the cache.
pub open spec fn answers_were_cached(actions: Seq<LookupAction>) -> bool {
    forall|k: int|
        #![trigger actions[k]]
        0 <= k < actions.len() && actions[k] is Answer ==> k >= 1 && actions[k - 1]
            == LookupAction::WriteCache { country: actions[k]->Answer_country }
}

proof fn lemma_requests_cons(a: LookupAction, rest: Seq<LookupAction>)
    ensures
        requests(seq![a] + rest) == (if a is StampAndFetch {
            1nat
        } else {
            0nat
        }) + requests(rest),
{
    assert((seq![a] + rest).drop_first() =~= rest);
}

proof fn lemma_run_from_fetching(events: Seq<LookupEvent>)
    requires
        run_expected(CountryLookup::Fetching, events),
    ensures
        requests(run_actions(CountryLookup::Fetching, events)) == 0,
        answers_were_cached(run_actions(CountryLookup::Fetching, events)),
{
    let acts = run_actions(CountryLookup::Fetching, events);
    if events.len() > 0 {
        let rest = events.drop_first();
        match events[0] {
            LookupEvent::Fetched { country } => {
                let saving = CountryLookup::Saving { country };
                let tail = run_actions(saving, rest);
                if rest.len() == 0 {
                    assert(tail.len() == 0);
                } else {
                    let rest2 = rest.drop_first();
                    assert(run_actions(CountryLookup::Finished, rest2).len() == 0);
                    match rest[0] {
                        LookupEvent::Saved => {
                            assert(tail =~= seq![LookupAction::Answer { country }]);
                        },
                        _ => {
                            assert(tail =~= seq![LookupAction::Fail]);
                        },
                    }
                }
                assert(acts == seq![LookupAction::WriteCache { country }] + tail);
                lemma_requests_cons(LookupAction::WriteCache { country }, tail);
                if tail.len() > 0 {
                    lemma_requests_cons(tail[0], tail.drop_first());
                    assert(tail.drop_first().len() == 0);
                }
            },
            _ => {
                assert(run_actions(CountryLookup::Finished, rest).len() == 0);
                assert(acts =~= seq![LookupAction::Fail]);
                lemma_requests_cons(LookupAction::Fail, Seq::<LookupAction>::empty());
            },
        }
    }
}

proof fn lemma_run_from_waiting(events: Seq<LookupEvent>)
    requires
        run_expected(CountryLookup::WaitingForTurn, events),
    ensures
        requests(run_actions(CountryLookup::WaitingForTurn, events)) <= 1,
        answers_were_cached(run_actions(CountryLookup::WaitingForTurn, events)),
    decreases events.len(),
{
    let acts = run_actions(CountryLookup::WaitingForTurn, events);
    if events.len() > 0 {
        let rest = events.drop_first();
        let (next, action) = next_step(CountryLookup::WaitingForTurn, events[0]);
        let tail = run_actions(next, rest);
        assert(acts == seq![action] + tail);
        lemma_requests_cons(action, tail);
        if action is Sleep {
            lemma_run_from_waiting(rest);
        } else {
            lemma_run_from_fetching(rest);
        }
        assert forall|k: int| #![trigger acts[k]] 0 <= k < acts.len() && acts[k] is Answer implies k
            >= 1 && acts[k - 1] == LookupAction::WriteCache { country: acts[k]->Answer_country } by {
            assert(k >= 1);
            assert(acts[k] == tail[k - 1]);
            if k >= 2 {
                assert(acts[k - 1] == tail[k - 2]);
            }
        }
    }
}

/// A whole lookup asks the service at most once; an answer from the cache is
/// given without asking, and after a cache miss every answer comes right
/// after that same country was written to the cache.
pub proof fn law_one_request_then_cached(events: Seq<LookupEvent>)
    requires
        run_expected(CountryLookup::ReadingCache, events),
    ensures
        requests(run_actions(CountryLookup::ReadingCache, events)) <= 1,
        events.len() > 0 && events[0] is CacheHit ==> run_actions(CountryLookup::ReadingCache, events)
            == seq![LookupAction::Answer { country: events[0]->CacheHit_country }],
        events.len() > 0 && events[0] is CacheMiss ==> answers_were_cached(
            run_actions(CountryLookup::ReadingCache, events),
        ),
{
    let acts = run_actions(CountryLookup::ReadingCache, events);
    if events.len() > 0 {
        let rest = events.drop_first();
        let (next, action) = next_step(CountryLookup::ReadingCache, events[0]);
        let tail = run_actions(next, rest);
        assert(acts == seq![action] + tail);
        lemma_requests_cons(action, tail);
        if events[0] is CacheHit {
            assert(tail.len() == 0);
            assert(acts =~= seq![action]);
        } else {
            lemma_run_from_waiting(rest);
            assert forall|k: int| #![trigger acts[k]] 0 <= k < acts.len() && acts[k] is Answer implies k
                >= 1 && acts[k - 1] == LookupAction::WriteCache { country: acts[k]->Answer_country } by {
                assert(k >= 1);
                assert(acts[k] == tail[k - 1]);
                if k >= 2 {
                    assert(acts[k - 1] == tail[k - 2]);
                }
            }
        }
    }
}

/// The events of clock readings, one per reading.
pub open spec fn clock_readings(readings: Seq<u64>) -> Seq<LookupEvent> {
    readings.map_values(|w: u64| LookupEvent::Clock { elapsed_secs: w })
}

/// Clock readings under a second only put the lookup to sleep: they ask the
/// service nothing and leave the rest of the run as it was.
proof fn lemma_short_waits(waits: Seq<u64>, tail: Seq<LookupEvent>)
    requires
        forall|i: int| 0 <= i < waits.len() ==> #[trigger] waits[i] < 1,
    ensures
        run_expected(CountryLookup::WaitingForTurn, clock_readings(waits) + tail) == run_expected(
            CountryLookup::WaitingForTurn,
            tail,
        ),
        requests(run_actions(CountryLookup::WaitingForTurn, clock_readings(waits) + tail)) == requests(
            run_actions(CountryLookup::WaitingForTurn, tail),
        ),
        run_actions(CountryLookup::WaitingForTurn, tail).len() > 0 ==> run_actions(
            CountryLookup::WaitingForTurn,
            clock_readings(waits) + tail,
        ).len() >= run_actions(CountryLookup::WaitingForTurn, tail).len() && run_actions(
            CountryLookup::WaitingForTurn,
            clock_readings(waits) + tail,
        ).subrange(
            run_actions(CountryLookup::WaitingForTurn, clock_readings(waits) + tail).len()
                - run_actions(CountryLookup::WaitingForTurn, tail).len(),
            run_actions(CountryLookup::WaitingForTurn, clock_readings(waits) + tail).len() as int,
        ) == run_actions(CountryLookup::WaitingForTurn, tail),
    decreases waits.len(),
{
    let evs = clock_readings(waits) + tail;
    if waits.len() == 0 {
        assert(evs =~= tail);
    } else {
        let rest = waits.drop_first();
        assert(evs[0] == LookupEvent::Clock { elapsed_secs: waits[0] });
        assert(evs.drop_first() =~= clock_readings(rest) + tail);
        assert(waits[0] < 1);
        lemma_short_waits(rest, tail);
        let acts = run_actions(CountryLookup::WaitingForTurn, evs);
        let tail_acts = run_actions(CountryLookup::WaitingForTurn, clock_readings(rest) + tail);
        assert(acts == seq![LookupAction::Sleep { secs: 1 }] + tail_acts);
        lemma_requests_cons(LookupAction::Sleep { secs: 1 }, tail_acts);
        let t = run_actions(CountryLookup::WaitingForTurn, tail);
        if t.len() > 0 {
            assert(acts.subrange(acts.len() - t.len(), acts.len() as int) =~= tail_acts.subrange(
                tail_acts.len() - t.len(),
                tail_acts.len() as int,
            ));
        }
    }
}

/// A cache miss, any number of clock readings under a second, one of at least
/// a second, the country `country` fetched and saved: the service is asked
/// exactly once, the country is written to the cache, and the lookup answers
/// with it.
pub proof fn law_miss_fetch_save_answers(waits: Seq<u64>, elapsed_secs: u64, country: String)
    requires
        forall|i: int| 0 <= i < waits.len() ==> #[trigger] waits[i] < 1,
        elapsed_secs >= 1,
    ensures
        ({
            let events = seq![LookupEvent::CacheMiss] + clock_readings(waits) + seq![
                LookupEvent::Clock { elapsed_secs },
                LookupEvent::Fetched { country },
                LookupEvent::Saved,
            ];
            let acts = run_actions(CountryLookup::ReadingCache, events);
            &&& run_expected(CountryLookup::ReadingCache, events)
            &&& requests(acts) == 1
            &&& acts.len() >= 2
            &&& acts[acts.len() - 2] == LookupAction::WriteCache { country }
            &&& acts[acts.len() - 1] == LookupAction::Answer { country }
        }),
{
    let tail = seq![
        LookupEvent::Clock { elapsed_secs },
        LookupEvent::Fetched { country },
        LookupEvent::Saved,
    ];
    let events = seq![LookupEvent::CacheMiss] + clock_readings(waits) + tail;
    let saving = CountryLookup::Saving { country };
    // The last three events, one step at a time.
    let t1 = tail.drop_first();
    let t2 = t1.drop_first();
    let t3 = t2.drop_first();
    assert(t1 =~= seq![LookupEvent::Fetched { country }, LookupEvent::Saved]);
    assert(t2 =~= seq![LookupEvent::Saved]);
    assert(t3.len() == 0);
    assert(run_actions(CountryLookup::Finished, t3).len() == 0);
    assert(run_actions(saving, t2) =~= seq![LookupAction::Answer { country }]);
    assert(run_actions(CountryLookup::Fetching, t1) =~= seq![
        LookupAction::WriteCache { country },
        LookupAction::Answer { country },
    ]);
    let last3 = seq![
        LookupAction::StampAndFetch,
        LookupAction::WriteCache { country },
        LookupAction::Answer { country },
    ];
    assert(run_actions(CountryLookup::WaitingForTurn, tail) =~= last3);
    assert(run_expected(CountryLookup::Finished, t3));
    assert(run_expected(saving, t2));
    assert(run_expected(CountryLookup::Fetching, t1));
    assert(run_expected(CountryLookup::WaitingForTurn, tail));
    lemma_requests_cons(LookupAction::Answer { country }, Seq::<LookupAction>::empty());
    lemma_requests_cons(LookupAction::WriteCache { country }, seq![LookupAction::Answer { country }]);
    assert(seq![LookupAction::WriteCache { country }] + seq![LookupAction::Answer { country }] =~= last3.drop_first());
    lemma_requests_cons(LookupAction::StampAndFetch, last3.drop_first());
    assert(seq![LookupAction::StampAndFetch] + last3.drop_first() =~= last3);
    assert(requests(last3) == 1);
    lemma_short_waits(waits, tail);
    // The cache miss.
    assert(events[0] == LookupEvent::CacheMiss);
    assert(events.drop_first() =~= clock_readings(waits) + tail);
    let rest = run_actions(CountryLookup::WaitingForTurn, clock_readings(waits) + tail);
    let acts = run_actions(CountryLookup::ReadingCache, events);
    assert(acts == seq![LookupAction::CheckClock] + rest);
    lemma_requests_cons(LookupAction::CheckClock, rest);
    assert(rest[rest.len() - 1] == rest.subrange(rest.len() - 3, rest.len() as int)[2]);
    assert(rest[rest.len() - 2] == rest.subrange(rest.len() - 3, rest.len() as int)[1]);
}

} // verus!
