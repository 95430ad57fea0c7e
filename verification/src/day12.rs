use vstd::prelude::*;
use vstd::hash_map::StringHashMap;
use chrono::{Datelike, Utc};
use ulid_generator_rs::{Endian, ULID};

verus! {

broadcast use vstd::hash_map::group_hash_map_axioms;

// ---------------------------------------------------------------------------
// Saving and loading packet ids
// ---------------------------------------------------------------------------

/// Nanoseconds in a second.
pub const NANOS_PER_SEC: u64 = 1_000_000_000;

/// Whole seconds from `then` to `now` (both in nanoseconds on one monotonic
/// clock); 0 where `now` is earlier, as `Instant::duration_since` saturates.
pub open spec fn elapsed_secs(then: u64, now: u64) -> u64 {
    if now >= then {
        ((now - then) / (NANOS_PER_SEC as int)) as u64
    } else {
        0
    }
}

/// What loading `id` at `now` gives from the saved times `saved`.
pub open spec fn load_result(saved: Map<Seq<char>, u64>, id: Seq<char>, now: u64) -> Option<u64> {
    if saved.contains_key(id) {
        Some(elapsed_secs(saved[id], now))
    } else {
        None
    }
}

/// When each packet id was last saved (nanoseconds on a monotonic clock).
pub struct TimeStore {
    saved: StringHashMap<u64>,
}

impl View for TimeStore {
    type V = Map<Seq<char>, u64>;

    closed spec fn view(&self) -> Map<Seq<char>, u64> {
        self.saved@
    }
}

impl TimeStore {
    /// A store with no ids.
    pub fn new() -> (r: TimeStore)
        ensures
            r@ == Map::<Seq<char>, u64>::empty(),
    {
        TimeStore { saved: StringHashMap::new() }
    }

    /// Records that `id` was saved at `now`.
    pub fn task1_save(&mut self, id: String, now: u64)
        ensures
            final(self)@ == old(self)@.insert(id@, now),
    {
        self.saved.insert(id, now);
    }

    /// Whole seconds since `id` was last saved, or `None` for an id never saved.
    pub fn task1_load(&self, id: &str, now: u64) -> (r: Option<u64>)
        ensures
            r == load_result(self@, id@, now),
    {
        match self.saved.get(id) {
            Some(then) => {
                let then = *then;
                if now >= then {
                    Some((now - then) / NANOS_PER_SEC)
                } else {
                    Some(0)
                }
            },
            None => None,
        }
    }
}

/// Loading an id right after saving it at `then` gives the whole seconds from
/// `then` to the time of loading.
pub proof fn law_load_after_save(before: Map<Seq<char>, u64>, id: Seq<char>, then: u64, now: u64)
    ensures
        load_result(before.insert(id, then), id, now) == Some(elapsed_secs(then, now)),
{
}

/// Saving one id leaves what is loaded for every other id unchanged.
pub proof fn law_save_keeps_others(
    before: Map<Seq<char>, u64>,
    id: Seq<char>,
    then: u64,
    other: Seq<char>,
    now: u64,
)
    requires
        other != id,
    ensures
        load_result(before.insert(id, then), other, now) == load_result(before, other, now),
{
}

/// An id never saved loads as `None`.
pub proof fn law_unsaved_is_unknown(id: Seq<char>, now: u64)
    ensures
        load_result(Map::<Seq<char>, u64>::empty(), id, now) is None,
{
}

/// Loading gives the whole seconds elapsed since saving: the largest number
/// of full seconds within the time that passed, and 0 where the clock reads
/// earlier than the save.
pub proof fn law_elapsed_is_whole_seconds(then: u64, now: u64)
    ensures
        now >= then ==> elapsed_secs(then, now) * 1_000_000_000 <= now - then < (elapsed_secs(
            then,
            now,
        ) + 1) * 1_000_000_000,
        now < then ==> elapsed_secs(then, now) == 0,
{
    if now >= then {
        let x: int = now - then;
        let q: int = x / 1_000_000_000;
        assert(0 <= q <= x && q * 1_000_000_000 <= x < (q + 1) * 1_000_000_000) by (nonlinear_arith)
            requires
                0 <= x,
                q == x / 1_000_000_000,
        ;
        assert(elapsed_secs(then, now) == q);
    }
}

// ---------------------------------------------------------------------------
// ULIDs
// ---------------------------------------------------------------------------

#[verifier::external_type_specification]
#[verifier::external_body]
pub struct ExULID(ulid_generator_rs::ULID);

/// The value of one Crockford base32 symbol, as `ULID::from_str` reads it:
/// digits and the letters of `0123456789ABCDEFGHJKMNPQRSTVWXYZ` in either case,
/// with `I` and `L` read as 1 and `O` as 0; `None` for any other character.
pub open spec fn crockford_digit(c: char) -> Option<int> {
    let u: int = if 'a' <= c && c <= 'z' { c as int - 32 } else { c as int };
    let a: int = 'A' as int;
    if '0' as int <= u && u <= '9' as int {
        Some(u - '0' as int)
    } else if u == 'I' as int || u == 'L' as int {
        Some(1int)
    } else if u == 'O' as int {
        Some(0int)
    } else if a <= u && u <= 'H' as int {
        Some(u - a + 10)
    } else if 'J' as int <= u && u <= 'K' as int {
        Some(u - a + 9)
    } else if 'M' as int <= u && u <= 'N' as int {
        Some(u - a + 8)
    } else if 'P' as int <= u && u <= 'T' as int {
        Some(u - a + 7)
    } else if 'V' as int <= u && u <= 'Z' as int {
        Some(u - a + 6)
    } else {
        None
    }
}

/// Whether `ULID::from_str` accepts `text`: 26 Crockford symbols, the first
/// at most 7, so that the value fits in 128 bits.
pub open spec fn ulid_text_valid(text: Seq<char>) -> bool {
    &&& text.len() == 26
    &&& forall|i: int| 0 <= i < 26 ==> #[trigger] crockford_digit(text[i]) is Some
    &&& crockford_digit(text[0]) matches Some(d) && d <= 7
}

/// The number that a text of Crockford symbols writes in base 32, most
/// significant symbol first.
pub open spec fn crockford_value(text: Seq<char>) -> int
    decreases text.len(),
{
    if text.len() == 0 {
        0
    } else {
        crockford_value(text.drop_last()) * 32 + crockford_digit(text.last()).unwrap_or(0)
    }
}

/// The lowest `n` bytes of `value`, most significant first.
pub open spec fn be_bytes(value: int, n: nat) -> Seq<u8>
    decreases n,
{
    if n == 0 {
        Seq::<u8>::empty()
    } else {
        be_bytes(value / 256, (n - 1) as nat).push((value % 256) as u8)
    }
}

/// The 16 bytes, big-endian, of the ULID written `text`.
pub open spec fn ulid_be_bytes(text: Seq<char>) -> Seq<u8> {
    be_bytes(crockford_value(text), 16)
}

/// The (month, day of month, days since Monday) in UTC of the instant `millis`
/// milliseconds after the Unix epoch, by the proleptic Gregorian calendar
/// (days to civil date, with the year taken to start in March); the epoch
/// fell on a Thursday.
pub open spec fn utc_calendar(millis: int) -> (u32, u32, u32) {
    let days = millis / 86400000;
    let z = days + 719468;
    let era = z / 146097;
    let doe = z - era * 146097;
    let yoe = (doe - doe / 1460 + doe / 36524 - doe / 146096) / 365;
    let doy = doe - (365 * yoe + yoe / 4 - yoe / 100);
    let mp = (5 * doy + 2) / 153;
    let day = doy - (153 * mp + 2) / 5 + 1;
    let month = if mp < 10 { mp + 3 } else { mp - 9 };
    (month as u32, day as u32, ((days + 3) % 7) as u32)
}

/// The unsigned big-endian value of `bytes`.
pub open spec fn be_value(bytes: Seq<u8>) -> int
    decreases bytes.len(),
{
    if bytes.len() == 0 {
        0
    } else {
        be_value(bytes.drop_last()) * 256 + bytes.last()
    }
}

/// A parsed ULID, with the text it was parsed from.
///
/// Values are built only by `parse_ulid`, which stores in `id` the ULID that
/// `ULID::from_str` parsed from `text`.
pub struct Ulid {
    id: ULID,
    text: String,
}

impl View for Ulid {
    type V = Seq<char>;

    /// The text the ULID was parsed from.
    closed spec fn view(&self) -> Seq<char> {
        self.text@
    }
}

/// `<ULID as FromStr>::from_str`, kept together with the text it parsed:
/// `Some` exactly for the texts that `ulid_text_valid` describes (the crate
/// checks the byte length, then each symbol against its decoding table, and
/// the first against 7).  The value holds the ULID parsed from `text` and a
/// copy of `text` itself.
#[verifier::external_body]
fn parse_ulid(text: &str) -> (r: Option<Ulid>)
    ensures
        r is Some <==> ulid_text_valid(text@),
        r matches Some(u) ==> u@ == text@,
{
    text.parse::<ULID>().ok().map(|id| Ulid { id, text: text.to_owned() })
}

impl Ulid {
    /// Parses a ULID from its 26-character text; `None` where it is not one.
    pub fn parse(text: &str) -> (r: Option<Ulid>)
        ensures
            r is Some <==> ulid_text_valid(text@),
            r matches Some(u) ==> u@ == text@,
    {
        parse_ulid(text)
    }
}

/// `ULID::to_byte_array(Endian::BE)`: the `u128` that `from_str` built from
/// the text (each symbol's value shifted into place), written as 16 big-endian
/// bytes.
#[verifier::external_body]
fn ulid_bytes(u: &Ulid) -> (r: Vec<u8>)
    ensures
        r@ == ulid_be_bytes(u@),
        r@.len() == 16,
{
    u.id.to_byte_array(Endian::BE)
}

/// `ULID::least_significant_bits`: the low 64 bits of the ULID, which are its
/// last 8 big-endian bytes.
#[verifier::external_body]
fn ulid_lsb(u: &Ulid) -> (r: u64)
    ensures
        r == be_value(ulid_be_bytes(u@).subrange(8, 16)),
{
    u.id.least_significant_bits()
}

/// The calendar fields of a ULID's timestamp.
pub struct UlidDate {
    /// Milliseconds since the Unix epoch.
    pub millis: i64,
    /// Month, 1 to 12, in UTC.
    pub month: u32,
    /// Day of the month, in UTC.
    pub day: u32,
    /// Days since Monday, 0 to 6, in UTC.
    pub weekday: u32,
}

/// `ULID::to_date_time`, moved to UTC by `with_timezone`: the timestamp is the top
/// 48 bits of the ULID (its first 6 big-endian bytes), in milliseconds, and the
/// calendar fields are those `chrono` gives for it, as `utc_calendar` computes them;
/// `chrono` documents the month as 1 to 12, the day as 1 to 31 and the days
/// since Monday as 0 to 6.
#[verifier::external_body]
fn ulid_date(u: &Ulid) -> (r: UlidDate)
    ensures
        r.millis == be_value(ulid_be_bytes(u@).subrange(0, 6)),
        (r.month, r.day, r.weekday) == utc_calendar(r.millis as int),
        1 <= r.month <= 12,
        1 <= r.day <= 31,
        r.weekday <= 6,
{
    let d = u.id.to_date_time().with_timezone(&Utc);
    UlidDate {
        millis: d.timestamp_millis(),
        month: d.month(),
        day: d.day(),
        weekday: d.weekday().num_days_from_monday(),
    }
}

/// The lower-case hexadecimal digits.
pub open spec fn hex_lower_digits() -> Seq<char> {
    seq!['0', '1', '2', '3', '4', '5', '6', '7', '8', '9', 'a', 'b', 'c', 'd', 'e', 'f']
}

/// Two lower-case hex digits per byte, high nibble first.
pub open spec fn hex_lower(data: Seq<u8>) -> Seq<char>
    decreases data.len(),
{
    if data.len() == 0 {
        Seq::<char>::empty()
    } else {
        hex_lower(data.drop_last()) + seq![
            hex_lower_digits()[data.last() as int / 16],
            hex_lower_digits()[data.last() as int % 16],
        ]
    }
}

/// The hyphenated form of a UUID: hex groups of 4, 2, 2, 2 and 6 bytes joined by `-`.
pub open spec fn uuid_hyphenated(b: Seq<u8>) -> Seq<char> {
    hex_lower(b.subrange(0, 4)) + seq!['-'] + hex_lower(b.subrange(4, 6)) + seq!['-'] + hex_lower(
        b.subrange(6, 8),
    ) + seq!['-'] + hex_lower(b.subrange(8, 10)) + seq!['-'] + hex_lower(b.subrange(10, 16))
}

/// `Uuid::from_bytes` followed by its `Display`, which writes the hyphenated
/// lower-case form.
#[verifier::external_body]
fn uuid_text(bytes: &Vec<u8>) -> (r: String)
    requires
        bytes@.len() == 16,
    ensures
        r@ == uuid_hyphenated(bytes@),
{
    let array: [u8; 16] = bytes.as_slice().try_into().unwrap();
    uuid::Uuid::from_bytes(array).to_string()
}

/// The UUID that has the same 16 bytes as the ULID.
pub fn ulid_to_uuid(u: &Ulid) -> (r: String)
    ensures
        r@ == uuid_hyphenated(ulid_be_bytes(u@)),
{
    let bytes = ulid_bytes(u);
    uuid_text(&bytes)
}

/// The ULIDs as UUIDs, in reverse order.
pub fn task2_unanimously_legendary_identifier_ulid(ulids: &Vec<Ulid>) -> (r: Vec<String>)
    ensures
        r@.len() == ulids@.len(),
        forall|i: int|
            0 <= i < r@.len() ==> #[trigger] r@[i]@ == uuid_hyphenated(
                ulid_be_bytes(ulids@[ulids@.len() - 1 - i]@),
            ),
{
    let mut out: Vec<String> = Vec::new();
    let mut i: usize = ulids.len();
    while i > 0
        invariant
            i <= ulids.len(),
            out@.len() == ulids.len() - i,
            forall|k: int|
                0 <= k < out@.len() ==> #[trigger] out@[k]@ == uuid_hyphenated(
                    ulid_be_bytes(ulids@[ulids@.len() - 1 - k]@),
                ),
        decreases i,
    {
        let s = ulid_to_uuid(&ulids[i - 1]);
        out.push(s);
        i = i - 1;
    }
    out
}

/// The counts reported about a list of ULIDs.
#[derive(Debug, Clone, Copy, PartialEq, Eq)]
pub struct Stats {
    /// Timestamps on 24 December (UTC).
    pub on_christmas_eve: u16,
    /// Timestamps on the requested weekday (UTC).
    pub weekday: u16,
    /// Timestamps later than now.
    pub in_future: u16,
    /// ULIDs whose least significant bit is 1.
    pub lsb_is_1: u16,
}

/// How many elements of `s` satisfy `f`.
pub open spec fn count_where(s: Seq<Ulid>, f: spec_fn(Seq<char>) -> bool) -> nat
    decreases s.len(),
{
    if s.len() == 0 {
        0
    } else {
        count_where(s.drop_last(), f) + if f(s.last()@) {
            1nat
        } else {
            0nat
        }
    }
}

/// The timestamp of the ULID written `t`, in milliseconds.
pub open spec fn ulid_millis(t: Seq<char>) -> int {
    be_value(ulid_be_bytes(t).subrange(0, 6))
}

pub open spec fn on_christmas_eve(t: Seq<char>) -> bool {
    utc_calendar(ulid_millis(t)).0 == 12 && utc_calendar(ulid_millis(t)).1 == 24
}

pub open spec fn on_weekday(t: Seq<char>, weekday: u32) -> bool {
    utc_calendar(ulid_millis(t)).2 == weekday
}

pub open spec fn lsb_odd(t: Seq<char>) -> bool {
    be_value(ulid_be_bytes(t).subrange(8, 16)) % 2 == 1
}

proof fn lemma_count_where_le(s: Seq<Ulid>, f: spec_fn(Seq<char>) -> bool)
    ensures
        count_where(s, f) <= s.len(),
    decreases s.len(),
{
    if s.len() > 0 {
        lemma_count_where_le(s.drop_last(), f);
    }
}

/// ULIDs whose timestamp falls on Christmas Eve (UTC).
pub open spec fn eve_count(s: Seq<Ulid>) -> nat {
    count_where(s, |t: Seq<char>| on_christmas_eve(t))
}

/// ULIDs whose timestamp falls on `weekday` (0 is Monday, UTC).
pub open spec fn weekday_count(s: Seq<Ulid>, weekday: u32) -> nat {
    count_where(s, |t: Seq<char>| on_weekday(t, weekday))
}

/// ULIDs whose timestamp is later than `now_millis`.
pub open spec fn future_count(s: Seq<Ulid>, now_millis: i64) -> nat {
    count_where(s, |t: Seq<char>| ulid_millis(t) > now_millis)
}

/// ULIDs whose least significant bit is 1.
pub open spec fn lsb_count(s: Seq<Ulid>) -> nat {
    count_where(s, |t: Seq<char>| lsb_odd(t))
}

/// Taking one ULID out of a list changes a count by whether that ULID is counted.
proof fn lemma_count_where_remove(s: Seq<Ulid>, f: spec_fn(Seq<char>) -> bool, i: int)
    requires
        0 <= i < s.len(),
    ensures
        count_where(s, f) == count_where(s.remove(i), f) + if f(s[i]@) {
            1nat
        } else {
            0nat
        },
    decreases s.len(),
{
    if i == s.len() - 1 {
        assert(s.remove(i) =~= s.drop_last());
    } else {
        let dl = s.drop_last();
        lemma_count_where_remove(dl, f, i);
        assert(s.remove(i).drop_last() =~= dl.remove(i));
        assert(s.remove(i).last() == s.last());
        assert(dl[i] == s[i]);
    }
}

/// A count over a list of ULIDs depends only on which ULIDs it holds (as many
/// times each), not on their order.
proof fn lemma_count_where_order_free(s1: Seq<Ulid>, s2: Seq<Ulid>, f: spec_fn(Seq<char>) -> bool)
    requires
        s1.to_multiset() == s2.to_multiset(),
    ensures
        count_where(s1, f) == count_where(s2, f),
    decreases s1.len(),
{
    broadcast use vstd::seq_lib::group_to_multiset_ensures;

    assert(s1.to_multiset().len() == s1.len());
    assert(s2.to_multiset().len() == s2.len());
    if s1.len() > 0 {
        let x = s1.last();
        assert(s1.contains(x)) by {
            assert(s1[s1.len() - 1] == x);
        }
        assert(s1.to_multiset().count(x) > 0);
        assert(s2.contains(x));
        let j = choose|j: int| 0 <= j < s2.len() && s2[j] == x;
        assert(s1.remove(s1.len() - 1) =~= s1.drop_last());
        assert(s1.drop_last().to_multiset() == s2.remove(j).to_multiset());
        lemma_count_where_order_free(s1.drop_last(), s2.remove(j), f);
        lemma_count_where_remove(s2, f, j);
    }
}

/// The statistics do not depend on the order of the ULIDs: two lists with the
/// same ULIDs (as many times each) give the same four counts.
pub proof fn law_counts_order_free(s1: Seq<Ulid>, s2: Seq<Ulid>, weekday: u32, now_millis: i64)
    requires
        s1.to_multiset() == s2.to_multiset(),
    ensures
        eve_count(s1) == eve_count(s2),
        weekday_count(s1, weekday) == weekday_count(s2, weekday),
        future_count(s1, now_millis) == future_count(s2, now_millis),
        lsb_count(s1) == lsb_count(s2),
{
    lemma_count_where_order_free(s1, s2, |t: Seq<char>| on_christmas_eve(t));
    lemma_count_where_order_free(s1, s2, |t: Seq<char>| on_weekday(t, weekday));
    lemma_count_where_order_free(s1, s2, |t: Seq<char>| ulid_millis(t) > now_millis);
    lemma_count_where_order_free(s1, s2, |t: Seq<char>| lsb_odd(t));
}

/// A count over two lists put together is the sum of the counts.
proof fn lemma_count_where_concat(s: Seq<Ulid>, t: Seq<Ulid>, f: spec_fn(Seq<char>) -> bool)
    ensures
        count_where(s + t, f) == count_where(s, f) + count_where(t, f),
    decreases t.len(),
{
    if t.len() == 0 {
        assert(s + t =~= s);
    } else {
        lemma_count_where_concat(s, t.drop_last(), f);
        assert((s + t).drop_last() =~= s + t.drop_last());
        assert((s + t).last() == t.last());
    }
}

/// Each count over two lists of ULIDs put together is the sum of its counts
/// over each list, and every count over no ULIDs is 0.
pub proof fn law_counts_add_up(s: Seq<Ulid>, t: Seq<Ulid>, weekday: u32, now_millis: i64)
    ensures
        eve_count(s + t) == eve_count(s) + eve_count(t),
        weekday_count(s + t, weekday) == weekday_count(s, weekday) + weekday_count(t, weekday),
        future_count(s + t, now_millis) == future_count(s, now_millis) + future_count(t, now_millis),
        lsb_count(s + t) == lsb_count(s) + lsb_count(t),
        eve_count(Seq::<Ulid>::empty()) == 0,
        weekday_count(Seq::<Ulid>::empty(), weekday) == 0,
        future_count(Seq::<Ulid>::empty(), now_millis) == 0,
        lsb_count(Seq::<Ulid>::empty()) == 0,
{
    lemma_count_where_concat(s, t, |t: Seq<char>| on_christmas_eve(t));
    lemma_count_where_concat(s, t, |t: Seq<char>| on_weekday(t, weekday));
    lemma_count_where_concat(s, t, |t: Seq<char>| ulid_millis(t) > now_millis);
    lemma_count_where_concat(s, t, |t: Seq<char>| lsb_odd(t));
}

/// What one ULID adds to each count: Christmas Eve only where its UTC date is
/// the 24th of December; the weekday only where its UTC day of the week is
/// that one; the future only where its timestamp is later than now; the odd
/// count only where its lowest bit is 1.
pub proof fn law_counts_of_one_ulid(u: Ulid, weekday: u32, now_millis: i64)
    ensures
        eve_count(seq![u]) == (if utc_calendar(ulid_millis(u@)).0 == 12 && utc_calendar(
            ulid_millis(u@),
        ).1 == 24 {
            1nat
        } else {
            0nat
        }),
        weekday_count(seq![u], weekday) == (if utc_calendar(ulid_millis(u@)).2 == weekday {
            1nat
        } else {
            0nat
        }),
        future_count(seq![u], now_millis) == (if ulid_millis(u@) > now_millis {
            1nat
        } else {
            0nat
        }),
        lsb_count(seq![u]) == (if be_value(ulid_be_bytes(u@)) % 2 == 1 {
            1nat
        } else {
            0nat
        }),
{
    reveal_with_fuel(count_where, 2);
    assert(seq![u].drop_last() =~= Seq::<Ulid>::empty());
    assert(seq![u].last() == u);
    lemma_be_bytes_len(crockford_value(u@), 16);
    lemma_be_value_low_bit(ulid_be_bytes(u@), 8);
}

proof fn lemma_be_bytes_len(value: int, n: nat)
    ensures
        be_bytes(value, n).len() == n,
    decreases n,
{
    if n > 0 {
        lemma_be_bytes_len(value / 256, (n - 1) as nat);
    }
}

/// The lowest bit of a big-endian number is that of any tail of its bytes.
proof fn lemma_be_value_low_bit(bytes: Seq<u8>, k: int)
    requires
        0 <= k < bytes.len(),
    ensures
        be_value(bytes.subrange(k, bytes.len() as int)) % 2 == be_value(bytes) % 2,
    decreases bytes.len(),
{
    let tail = bytes.subrange(k, bytes.len() as int);
    assert(tail.drop_last() =~= bytes.drop_last().subrange(k, bytes.len() - 1));
    assert(tail.last() == bytes.last());
    let a = be_value(tail.drop_last());
    let b = be_value(bytes.drop_last());
    let c = bytes.last() as int;
    assert((a * 256 + c) % 2 == c % 2 && (b * 256 + c) % 2 == c % 2) by (nonlinear_arith);
}

/// `b` to the power `n`.
pub open spec fn power_of(b: int, n: nat) -> int
    decreases n,
{
    if n == 0 {
        1
    } else {
        power_of(b, (n - 1) as nat) * b
    }
}

proof fn lemma_power_of_positive(b: int, n: nat)
    requires
        b > 0,
    ensures
        power_of(b, n) > 0,
    decreases n,
{
    if n > 0 {
        let k = (n - 1) as nat;
        lemma_power_of_positive(b, k);
        let p = power_of(b, k);
        assert(p * b > 0) by (nonlinear_arith)
            requires
                p > 0,
                b > 0,
        ;
    }
}

/// The big-endian value of the lowest `n` bytes of `v` is `v` modulo 256^n.
proof fn lemma_be_value_be_bytes(v: int, n: nat)
    requires
        v >= 0,
    ensures
        be_value(be_bytes(v, n)) == v % power_of(256, n),
    decreases n,
{
    if n == 0 {
        assert(be_bytes(v, 0) =~= Seq::<u8>::empty());
        assert(v % 1 == 0);
    } else {
        let k = (n - 1) as nat;
        lemma_be_value_be_bytes(v / 256, k);
        let bs = be_bytes(v, n);
        assert(bs.drop_last() =~= be_bytes(v / 256, k));
        assert(bs.last() == (v % 256) as u8);
        lemma_power_of_positive(256, k);
        let p = power_of(256, k);
        vstd::arithmetic::div_mod::lemma_mod_breakdown(v, 256, p);
        assert(power_of(256, n) == p * 256);
        assert(256 * p == p * 256);
    }
}

/// The first `m` of the lowest `m + n` bytes of `v` are the lowest `m` bytes
/// of `v` shifted down by `n` bytes.
proof fn lemma_be_bytes_prefix(v: int, m: nat, n: nat)
    requires
        v >= 0,
    ensures
        be_bytes(v, m + n).subrange(0, m as int) == be_bytes(v / power_of(256, n), m),
    decreases n,
{
    lemma_be_bytes_len(v, m + n);
    if n == 0 {
        assert(v / 1 == v);
        assert(be_bytes(v, m).subrange(0, m as int) =~= be_bytes(v, m));
    } else {
        let k = (n - 1) as nat;
        assert(((m + n) - 1) as nat == m + k);
        lemma_be_bytes_prefix(v / 256, m, k);
        lemma_be_bytes_len(v / 256, m + k);
        assert(be_bytes(v, m + n) == be_bytes(v / 256, m + k).push((v % 256) as u8));
        assert(be_bytes(v, m + n).subrange(0, m as int) =~= be_bytes(v / 256, m + k).subrange(
            0,
            m as int,
        ));
        lemma_power_of_positive(256, k);
        let p = power_of(256, k);
        vstd::arithmetic::div_mod::lemma_div_denominator(v, 256, p);
        assert(power_of(256, n) == p * 256);
        assert(256 * p == p * 256);
    }
}

/// Reading two texts one after the other in base 32.
proof fn lemma_crockford_concat(s: Seq<char>, r: Seq<char>)
    ensures
        crockford_value(s + r) == crockford_value(s) * power_of(32, r.len()) + crockford_value(r),
    decreases r.len(),
{
    if r.len() == 0 {
        assert(s + r =~= s);
    } else {
        let r1 = r.drop_last();
        lemma_crockford_concat(s, r1);
        assert((s + r).drop_last() =~= s + r1);
        assert((s + r).last() == r.last());
        let a = crockford_value(s);
        let p = power_of(32, r1.len());
        let b = crockford_value(r1);
        let d = crockford_digit(r.last()).unwrap_or(0);
        assert((a * p + b) * 32 + d == a * (p * 32) + (b * 32 + d)) by (nonlinear_arith);
    }
}

/// A Crockford symbol is worth 0 to 31.
proof fn lemma_crockford_digit_range(c: char)
    ensures
        0 <= crockford_digit(c).unwrap_or(0) < 32,
{
}

/// A text of `n` Crockford symbols writes a number below 32^n.
proof fn lemma_crockford_bound(r: Seq<char>)
    ensures
        0 <= crockford_value(r) < power_of(32, r.len()),
    decreases r.len(),
{
    if r.len() > 0 {
        let r1 = r.drop_last();
        lemma_crockford_bound(r1);
        lemma_crockford_digit_range(r.last());
        let b = crockford_value(r1);
        let p = power_of(32, r1.len());
        let d = crockford_digit(r.last()).unwrap_or(0);
        assert(0 <= b * 32 + d < p * 32) by (nonlinear_arith)
            requires
                0 <= b < p,
                0 <= d < 32,
        ;
    }
}

/// The 128-bit value of a ULID: its first ten symbols give the high 48 bits
/// and the other sixteen the low 80.
proof fn lemma_ulid_value_split(t: Seq<char>)
    requires
        ulid_text_valid(t),
    ensures
        crockford_value(t) == crockford_value(t.take(10)) * power_of(256, 10) + crockford_value(
            t.skip(10),
        ),
        0 <= crockford_value(t.take(10)) < power_of(256, 6),
        0 <= crockford_value(t.skip(10)) < power_of(256, 10),
        power_of(256, 16) == power_of(256, 6) * power_of(256, 10),
{
    let a = t.take(10);
    let b = t.skip(10);
    assert(t =~= a + b);
    lemma_crockford_concat(a, b);
    lemma_crockford_bound(b);
    let a0 = a.take(1);
    let a1 = a.skip(1);
    assert(a =~= a0 + a1);
    lemma_crockford_concat(a0, a1);
    lemma_crockford_bound(a1);
    assert(a0.drop_last() =~= Seq::<char>::empty());
    assert(a0.last() == t[0]);
    assert(a0.len() == 1);
    assert(crockford_value(a0.drop_last()) == 0);
    assert(crockford_value(a0) == crockford_digit(t[0]).unwrap_or(0));
    reveal_with_fuel(power_of, 17);
    assert(power_of(32, 16) == 1208925819614629174706176);
    assert(power_of(256, 10) == 1208925819614629174706176);
    assert(power_of(32, 9) == 35184372088832);
    assert(power_of(256, 6) == 281474976710656);
    assert(power_of(256, 16) == 340282366920938463463374607431768211456);
    let d0 = crockford_value(a0);
    let c = crockford_value(a1);
    assert(0 <= d0 * 35184372088832 + c < 281474976710656) by (nonlinear_arith)
        requires
            0 <= d0 <= 7,
            0 <= c < 35184372088832,
    ;
}

/// The timestamp of a ULID is the number written by its first ten symbols.
pub proof fn law_ulid_timestamp_is_first_ten_symbols(t: Seq<char>)
    requires
        ulid_text_valid(t),
    ensures
        ulid_millis(t) == crockford_value(t.take(10)),
{
    lemma_ulid_value_split(t);
    let v = crockford_value(t);
    let a = crockford_value(t.take(10));
    let b = crockford_value(t.skip(10));
    let p10 = power_of(256, 10);
    let p6 = power_of(256, 6);
    assert(v >= 0) by (nonlinear_arith)
        requires
            v == a * p10 + b,
            a >= 0,
            b >= 0,
            p10 > 0,
    ;
    vstd::arithmetic::div_mod::lemma_fundamental_div_mod_converse(v, p10, a, b);
    lemma_be_bytes_prefix(v, 6, 10);
    assert(6nat + 10nat == 16nat);
    lemma_be_value_be_bytes(a, 6);
    vstd::arithmetic::div_mod::lemma_fundamental_div_mod_converse(a, p6, 0, a);
}

/// The lowest bit of a ULID is that of the value of its last symbol.
pub proof fn law_ulid_lowest_bit_is_last_symbol_parity(t: Seq<char>)
    requires
        ulid_text_valid(t),
    ensures
        lsb_odd(t) <==> crockford_digit(t[25]).unwrap_or(0) % 2 == 1,
{
    lemma_ulid_value_split(t);
    let v = crockford_value(t);
    let a = crockford_value(t.take(10));
    let b = crockford_value(t.skip(10));
    let p10 = power_of(256, 10);
    let p6 = power_of(256, 6);
    let p16 = power_of(256, 16);
    assert(0 <= v < p16) by (nonlinear_arith)
        requires
            v == a * p10 + b,
            0 <= a < p6,
            0 <= b < p10,
            p16 == p6 * p10,
    ;
    lemma_be_value_be_bytes(v, 16);
    vstd::arithmetic::div_mod::lemma_fundamental_div_mod_converse(v, p16, 0, v);
    lemma_be_bytes_len(v, 16);
    lemma_be_value_low_bit(be_bytes(v, 16), 8);
    let rest = crockford_value(t.drop_last());
    let d = crockford_digit(t.last()).unwrap_or(0);
    assert(v == rest * 32 + d);
    assert((rest * 32 + d) % 2 == d % 2) by (nonlinear_arith);
}

/// Every instant falls in a month 1 to 12, on a day 1 to 31, and on a day of
/// the week 0 to 6.
pub proof fn law_calendar_fields_in_range(millis: int)
    ensures
        1 <= utc_calendar(millis).0 <= 12,
        1 <= utc_calendar(millis).1 <= 31,
        utc_calendar(millis).2 <= 6,
{
    let days = millis / 86400000;
    let z = days + 719468;
    let era = z / 146097;
    let doe = z - era * 146097;
    assert(0 <= doe < 146097);
    let yoe = (doe - doe / 1460 + doe / 36524 - doe / 146096) / 365;
    let doy = doe - (365 * yoe + yoe / 4 - yoe / 100);
    assert(0 <= yoe <= 399 && 0 <= doy <= 365) by (nonlinear_arith)
        requires
            0 <= doe < 146097,
            yoe == (doe - doe / 1460 + doe / 36524 - doe / 146096) / 365,
            doy == doe - (365 * yoe + yoe / 4 - yoe / 100),
    ;
}

/// The calendar date depends only on the day: every instant of a UTC day has
/// the calendar of its first millisecond; and each day falls on the day of
/// the week after the one before, the epoch (1 January 1970) on a Thursday
/// and Christmas Eve 2023 on a Sunday.
pub proof fn law_calendar_goes_by_days(millis: int)
    ensures
        utc_calendar(millis) == utc_calendar(millis - millis % 86400000),
        utc_calendar(millis + 86400000).2 == (utc_calendar(millis).2 + 1) % 7,
        utc_calendar(0) == (1u32, 1u32, 3u32),
        utc_calendar(1703376000000) == (12u32, 24u32, 6u32),
        utc_calendar(1703462399999) == (12u32, 24u32, 6u32),
        utc_calendar(1703462400000) == (12u32, 25u32, 0u32),
{
    let days = millis / 86400000;
    assert((millis - millis % 86400000) / 86400000 == days);
    assert((millis + 86400000) / 86400000 == days + 1);
    assert((days + 1 + 3) % 7 == ((days + 3) % 7 + 1) % 7);
}

/// The four counts over a list of ULIDs, before they are narrowed to `u16`.
#[derive(Debug, Clone, Copy, PartialEq, Eq)]
pub struct UlidCounts {
    pub on_christmas_eve: usize,
    pub weekday: usize,
    pub in_future: usize,
    pub lsb_is_1: usize,
}

/// Counts, over the ULIDs' timestamps: those on Christmas Eve, those on
/// `weekday` (0 is Monday), those later than `now_millis` (the current time in
/// whole milliseconds since the epoch, rounded down), and the ULIDs whose
/// least significant bit is 1.
pub fn ulid_counts(ulids: &Vec<Ulid>, weekday: u32, now_millis: i64) -> (r: UlidCounts)
    ensures
        r.on_christmas_eve == eve_count(ulids@),
        r.weekday == weekday_count(ulids@, weekday),
        r.in_future == future_count(ulids@, now_millis),
        r.lsb_is_1 == lsb_count(ulids@),
{
    let ghost f_eve = |t: Seq<char>| on_christmas_eve(t);
    let ghost f_wd = |t: Seq<char>| on_weekday(t, weekday);
    let ghost f_fut = |t: Seq<char>| ulid_millis(t) > now_millis;
    let ghost f_lsb = |t: Seq<char>| lsb_odd(t);
    let mut result = UlidCounts { on_christmas_eve: 0, weekday: 0, in_future: 0, lsb_is_1: 0 };
    let mut i: usize = 0;
    while i < ulids.len()
        invariant
            0 <= i <= ulids.len(),
            f_eve == (|t: Seq<char>| on_christmas_eve(t)),
            f_wd == (|t: Seq<char>| on_weekday(t, weekday)),
            f_fut == (|t: Seq<char>| ulid_millis(t) > now_millis),
            f_lsb == (|t: Seq<char>| lsb_odd(t)),
            result.on_christmas_eve == count_where(ulids@.take(i as int), f_eve),
            result.weekday == count_where(ulids@.take(i as int), f_wd),
            result.in_future == count_where(ulids@.take(i as int), f_fut),
            result.lsb_is_1 == count_where(ulids@.take(i as int), f_lsb),
        decreases ulids.len() - i,
    {
        let u = &ulids[i];
        let ghost pre = ulids@.take(i as int);
        let ghost next = ulids@.take(i + 1);
        assert(next.drop_last() == pre);
        assert(next.last() == ulids@[i as int]);
        proof {
            lemma_count_where_le(pre, f_eve);
            lemma_count_where_le(pre, f_wd);
            lemma_count_where_le(pre, f_fut);
            lemma_count_where_le(pre, f_lsb);
        }
        let date = ulid_date(u);
        if date.month == 12 && date.day == 24 {
            result.on_christmas_eve = result.on_christmas_eve + 1;
        }
        if date.weekday == weekday {
            result.weekday = result.weekday + 1;
        }
        if date.millis > now_millis {
            result.in_future = result.in_future + 1;
        }
        let lsb = ulid_lsb(u);
        if lsb % 2 == 1 {
            result.lsb_is_1 = result.lsb_is_1 + 1;
        }
        i = i + 1;
    }
    assert(ulids@.take(ulids.len() as int) == ulids@);
    result
}

/// Every count fits in a `u16`, the width of the counters in `Stats`.
pub open spec fn counts_fit(s: Seq<Ulid>, weekday: u32, now_millis: i64) -> bool {
    &&& eve_count(s) <= u16::MAX
    &&& weekday_count(s, weekday) <= u16::MAX
    &&& future_count(s, now_millis) <= u16::MAX
    &&& lsb_count(s) <= u16::MAX
}

/// The statistics of the ULIDs (see `ulid_counts`), where every count fits in a `u16`.
pub fn task3_let_santa_broil_lsb(ulids: &Vec<Ulid>, weekday: u32, now_millis: i64) -> (r: Stats)
    requires
        counts_fit(ulids@, weekday, now_millis),
    ensures
        r.on_christmas_eve == eve_count(ulids@),
        r.weekday == weekday_count(ulids@, weekday),
        r.in_future == future_count(ulids@, now_millis),
        r.lsb_is_1 == lsb_count(ulids@),
{
    let c = ulid_counts(ulids, weekday, now_millis);
    Stats {
        on_christmas_eve: c.on_christmas_eve as u16,
        weekday: c.weekday as u16,
        in_future: c.in_future as u16,
        lsb_is_1: c.lsb_is_1 as u16,
    }
}

/// The statistics of the ULIDs, or `None` where a count does not fit in a `u16`.
pub fn checked_task3_let_santa_broil_lsb(ulids: &Vec<Ulid>, weekday: u32, now_millis: i64) -> (r: Option<Stats>)
    ensures
        r is Some <==> counts_fit(ulids@, weekday, now_millis),
        r matches Some(s) ==> s.on_christmas_eve == eve_count(ulids@) && s.weekday
            == weekday_count(ulids@, weekday) && s.in_future == future_count(ulids@, now_millis)
            && s.lsb_is_1 == lsb_count(ulids@),
{
    let c = ulid_counts(ulids, weekday, now_millis);
    if c.on_christmas_eve <= 65535 && c.weekday <= 65535 && c.in_future <= 65535 && c.lsb_is_1
        <= 65535 {
        Some(task3_let_santa_broil_lsb(ulids, weekday, now_millis))
    } else {
        None
    }
}

} // verus!
