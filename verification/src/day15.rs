use vstd::prelude::*;
use crate::day04::{sum_of, running_sums_fit};
use crate::pattern::{Matcher, count_matches, find_all, is_match, regex_compiles, regex_matches};
use crate::text::{chars_of, parse_i32, spec_parse_i32};

verus! {

broadcast use vstd::string::group_string_axioms;

// ---------------------------------------------------------------------------
// Outside functions
// ---------------------------------------------------------------------------

/// Whether `c` has the Unicode `Alphabetic` property, as `char::is_alphabetic` says.
pub uninterp spec fn alphabetic(c: char) -> bool;

/// Whether `c` has the Unicode `Emoji_Presentation` property, as
/// `unic_emoji_char::is_emoji_presentation` says.
pub uninterp spec fn emoji_presentation(c: char) -> bool;

/// The SHA-256 digest of `data`, as `ring::digest::digest` computes it.
pub uninterp spec fn sha256(data: Seq<u8>) -> Seq<u8>;

/// `char::is_alphabetic`; its result is named by `alphabetic`.
#[verifier::external_body]
fn is_alphabetic(c: char) -> (r: bool)
    ensures
        r == alphabetic(c),
{
    c.is_alphabetic()
}

/// `unic_emoji_char::is_emoji_presentation`; its result is named by `emoji_presentation`.
#[verifier::external_body]
fn is_emoji(c: char) -> (r: bool)
    ensures
        r == emoji_presentation(c),
{
    unic_emoji_char::is_emoji_presentation(c)
}

/// `ring::digest::digest` with `SHA256`: named by `sha256`; the digest is 32 bytes
/// long (`SHA256_OUTPUT_LEN`).  `ring` panics on inputs of 2^61 bytes or more.
#[verifier::external_body]
fn sha256_digest(data: &[u8]) -> (r: Vec<u8>)
    requires
        data@.len() < 0x2000_0000_0000_0000,
    ensures
        r@ == sha256(data@),
        r@.len() == 32,
{
    ring::digest::digest(&ring::digest::SHA256, data).as_ref().to_vec()
}

/// The upper-case hexadecimal digits.
pub open spec fn hex_upper_digits() -> Seq<char> {
    seq!['0', '1', '2', '3', '4', '5', '6', '7', '8', '9', 'A', 'B', 'C', 'D', 'E', 'F']
}

/// Base16 with upper-case digits: two digits per byte, high nibble first.
pub open spec fn hex_upper(data: Seq<u8>) -> Seq<char>
    decreases data.len(),
{
    if data.len() == 0 {
        Seq::<char>::empty()
    } else {
        hex_upper(data.drop_last()) + seq![
            hex_upper_digits()[data.last() as int / 16],
            hex_upper_digits()[data.last() as int % 16],
        ]
    }
}

/// `data_encoding::HEXUPPER.encode`: the RFC 4648 base16 encoding with the
/// symbols `0123456789ABCDEF`.
#[verifier::external_body]
fn hex_upper_encode(data: &[u8]) -> (r: String)
    ensures
        r@ == hex_upper(data@),
{
    data_encoding::HEXUPPER.encode(data)
}

// ---------------------------------------------------------------------------
// Task 1: naughty or nice
// ---------------------------------------------------------------------------

/// The JSON body `{"result": ...}`.
pub struct ResultJson {
    pub result: String,
}

impl ResultJson {
    pub fn new(value: &str) -> (r: ResultJson)
        ensures
            r.result@ == value@,
    {
        ResultJson { result: value.to_owned() }
    }
}

/// How a password is judged.
#[derive(Debug, Clone, Copy, PartialEq, Eq)]
pub enum PasswordType {
    Nice,
    Naughty,
    BadRequest,
}

impl PasswordType {
    /// The HTTP status and JSON body that answer this judgement (`None`: empty body).
    pub fn response(&self) -> (r: (u16, Option<ResultJson>))
        ensures
            match *self {
                PasswordType::Nice => r.0 == 200 && (r.1 matches Some(b) && b.result@ == "nice"@),
                PasswordType::Naughty => r.0 == 400 && (r.1 matches Some(b) && b.result@
                    == "naughty"@),
                PasswordType::BadRequest => r.0 == 400 && r.1 is None,
            },
    {
        match self {
            PasswordType::Nice => (200, Some(ResultJson::new("nice"))),
            PasswordType::Naughty => (400, Some(ResultJson::new("naughty"))),
            PasswordType::BadRequest => (400, None),
        }
    }
}

/// Some alphabetic character directly repeats the one before it.
pub open spec fn has_letter_twice(s: Seq<char>) -> bool {
    exists|i: int| 1 <= i < s.len() && s[i] == s[i - 1] && #[trigger] alphabetic(s[i])
}

/// Whether some alphabetic character of `password` directly repeats the one before it.
pub fn check_string_for_2_consecutive_letters(password: &str) -> (r: bool)
    ensures
        r == has_letter_twice(password@),
{
    let cs = chars_of(password);
    if cs.len() == 0 {
        return false;
    }
    let mut last_char = cs[0];
    let mut i: usize = 1;
    while i < cs.len()
        invariant
            1 <= i <= cs.len(),
            cs@ == password@,
            last_char == cs@[i - 1],
            forall|j: int| 1 <= j < i ==> !(cs@[j] == cs@[j - 1] && #[trigger] alphabetic(cs@[j])),
        decreases cs.len() - i,
    {
        let c = cs[i];
        if is_alphabetic(c) && c == last_char {
            return true;
        } else {
            last_char = c;
        }
        i = i + 1;
    }
    false
}

/// The regexes that judge a password in task 1.
pub struct NiceMatchers {
    pub vowel: Matcher,
    pub naughty: Matcher,
}

impl NiceMatchers {
    pub open spec fn wf(&self) -> bool {
        &&& self.vowel@ == "[aeiouy]"@
        &&& self.naughty@ == "ab|cd|pq|xy"@
    }

    /// Compiles the regexes; `None` where one does not compile.
    pub fn new() -> (r: Option<NiceMatchers>)
        ensures
            r is Some <==> regex_compiles("[aeiouy]"@) && regex_compiles("ab|cd|pq|xy"@),
            r matches Some(m) ==> m.wf(),
    {
        let vowel = Matcher::new("[aeiouy]")?;
        let naughty = Matcher::new("ab|cd|pq|xy")?;
        Some(NiceMatchers { vowel, naughty })
    }
}

/// Nice: at least three vowels, none of `ab`, `cd`, `pq`, `xy`, and a letter
/// that appears twice in a row.
pub open spec fn is_nice(p: Seq<char>) -> bool {
    &&& regex_matches("[aeiouy]"@, p).len() >= 3
    &&& regex_matches("ab|cd|pq|xy"@, p).len() == 0
    &&& has_letter_twice(p)
}

/// Judges a password: nice or naughty.
pub fn task1_naughty_or_nice_strings(m: &NiceMatchers, password: &str) -> (r: PasswordType)
    requires
        m.wf(),
    ensures
        r == (if is_nice(password@) {
            PasswordType::Nice
        } else {
            PasswordType::Naughty
        }),
{
    let has_3_vowels = count_matches(&m.vowel, password) >= 3;
    let has_no_naughty_substrings = !is_match(&m.naughty, password);
    let has_letter_twice = check_string_for_2_consecutive_letters(password);
    if has_3_vowels && has_no_naughty_substrings && has_letter_twice {
        PasswordType::Nice
    } else {
        PasswordType::Naughty
    }
}

// ---------------------------------------------------------------------------
// Task 2: game of the year
// ---------------------------------------------------------------------------

/// The JSON body of a game answer.
pub struct GameResult {
    pub result: String,
    pub reason: String,
}

impl GameResult {
    pub fn ok() -> (r: GameResult)
        ensures
            r.result@ == "nice"@,
            r.reason@ == "that's a nice password"@,
    {
        GameResult { result: "nice".to_owned(), reason: "that's a nice password".to_owned() }
    }

    pub fn error(msg: &str) -> (r: GameResult)
        ensures
            r.result@ == "naughty"@,
            r.reason@ == msg@,
    {
        GameResult { result: "naughty".to_owned(), reason: msg.to_owned() }
    }
}

/// A game answer: HTTP status and JSON body.
pub struct GameResponse {
    pub status: u16,
    pub body: GameResult,
}

/// A refusal with the given status and reason.
fn refuse(status: u16, msg: &str) -> (r: Option<GameResponse>)
    ensures
        r matches Some(g) && g.status == status && g.body.result@ == "naughty"@ && g.body.reason@
            == msg@,
{
    Some(GameResponse { status, body: GameResult::error(msg) })
}

/// The regexes of the game rules.
pub struct GameMatchers {
    pub upper: Matcher,
    pub lower: Matcher,
    pub digit: Matcher,
    pub number: Matcher,
}

impl GameMatchers {
    pub open spec fn wf(&self) -> bool {
        &&& self.upper@ == "[A-Z]"@
        &&& self.lower@ == "[a-z]"@
        &&& self.digit@ == "\\d"@
        &&& self.number@ == "\\d+"@
    }

    /// Compiles the regexes; `None` where one does not compile.
    pub fn new() -> (r: Option<GameMatchers>)
        ensures
            r is Some <==> regex_compiles("[A-Z]"@) && regex_compiles("[a-z]"@) && regex_compiles(
                "\\d"@,
            ) && regex_compiles("\\d+"@),
            r matches Some(m) ==> m.wf(),
    {
        let upper = Matcher::new("[A-Z]")?;
        let lower = Matcher::new("[a-z]")?;
        let digit = Matcher::new("\\d")?;
        let number = Matcher::new("\\d+")?;
        Some(GameMatchers { upper, lower, digit, number })
    }
}

pub open spec fn rule1_passes(p: Seq<char>) -> bool {
    p.len() >= 8
}

pub open spec fn rule2_passes(p: Seq<char>) -> bool {
    &&& regex_matches("[A-Z]"@, p).len() > 0
    &&& regex_matches("[a-z]"@, p).len() > 0
    &&& regex_matches("\\d"@, p).len() > 0
}

pub open spec fn rule3_passes(p: Seq<char>) -> bool {
    regex_matches("\\d"@, p).len() >= 5
}

/// Every text parses as an `i32`.
pub open spec fn all_parse_i32(ms: Seq<Seq<char>>) -> bool {
    forall|i: int| 0 <= i < ms.len() ==> (#[trigger] spec_parse_i32(ms[i])) is Some
}

/// The `i32` values of the texts.
pub open spec fn parsed_i32(ms: Seq<Seq<char>>) -> Seq<i32> {
    ms.map_values(|m: Seq<char>| spec_parse_i32(m)->0)
}

/// The numbers of `p` all parse as `i32` and their running sum does not overflow:
/// where this fails, rule 4 panics.
pub open spec fn rule4_defined(p: Seq<char>) -> bool {
    let ms = regex_matches("\\d+"@, p);
    all_parse_i32(ms) && running_sums_fit(parsed_i32(ms))
}

pub open spec fn rule4_passes(p: Seq<char>) -> bool {
    sum_of(parsed_i32(regex_matches("\\d+"@, p))) == 2023
}

/// The letters `j`, `o`, `y` of `s`, in order.
pub open spec fn joy_letters(s: Seq<char>) -> Seq<char>
    decreases s.len(),
{
    if s.len() == 0 {
        Seq::<char>::empty()
    } else if s.last() == 'j' || s.last() == 'o' || s.last() == 'y' {
        joy_letters(s.drop_last()).push(s.last())
    } else {
        joy_letters(s.drop_last())
    }
}

pub open spec fn rule5_passes(p: Seq<char>) -> bool {
    joy_letters(p) == seq!['j', 'o', 'y']
}

/// Three alphabetic characters at `i` whose outer two are equal and differ from the middle one.
pub open spec fn sandwich_at(p: Seq<char>, i: int) -> bool {
    &&& 0 <= i
    &&& i + 2 < p.len()
    &&& alphabetic(p[i])
    &&& alphabetic(p[i + 1])
    &&& alphabetic(p[i + 2])
    &&& p[i] == p[i + 2]
    &&& p[i + 1] != p[i + 2]
}

pub open spec fn rule6_passes(p: Seq<char>) -> bool {
    exists|i: int| #[trigger] sandwich_at(p, i)
}

pub open spec fn in_math_range(c: char) -> bool {
    '\u{2980}' <= c <= '\u{2BFF}'
}

pub open spec fn rule7_passes(p: Seq<char>) -> bool {
    exists|i: int| 0 <= i < p.len() && #[trigger] in_math_range(p[i])
}

pub open spec fn rule8_passes(p: Seq<char>) -> bool {
    exists|i: int| 0 <= i < p.len() && #[trigger] emoji_presentation(p[i])
}

/// The upper-case hex SHA-256 digest of the UTF-8 bytes of `p`.
pub open spec fn hex_digest(p: Seq<char>) -> Seq<char> {
    hex_upper(sha256(vstd::utf8::encode_utf8(p)))
}

pub open spec fn rule9_passes(p: Seq<char>) -> bool {
    hex_digest(p).last() == 'a' || hex_digest(p).last() == 'A'
}

/// A string whose UTF-8 encoding SHA-256 accepts.
pub open spec fn hashable(p: Seq<char>) -> bool {
    vstd::utf8::encode_utf8(p).len() < 0x2000_0000_0000_0000
}

/// The status and reason of the first rule that `p` breaks, or 200 and the
/// praise where it breaks none.
pub open spec fn game_answer(p: Seq<char>) -> (u16, Seq<char>) {
    if !rule1_passes(p) {
        (400, "8 chars"@)
    } else if !rule2_passes(p) {
        (400, "more types of chars"@)
    } else if !rule3_passes(p) {
        (400, "55555"@)
    } else if !rule4_passes(p) {
        (400, "math is hard"@)
    } else if !rule5_passes(p) {
        (406, "not joyful enough"@)
    } else if !rule6_passes(p) {
        (451, "illegal: no sandwich"@)
    } else if !rule7_passes(p) {
        (416, "outranged"@)
    } else if !rule8_passes(p) {
        (426, "\u{1F633}"@)
    } else if !rule9_passes(p) {
        (418, "not a coffee brewer"@)
    } else {
        (200, "that's a nice password"@)
    }
}

/// The answer `r` is the refusal `(status, reason)`.
pub open spec fn refuses(r: GameResponse, status: u16, reason: Seq<char>) -> bool {
    r.status == status && r.body.result@ == "naughty"@ && r.body.reason@ == reason
}

/// Rule 1: at least 8 characters.
pub fn rule1(p: &str) -> (r: Option<GameResponse>)
    ensures
        r is None <==> rule1_passes(p@),
        r matches Some(g) ==> refuses(g, 400, "8 chars"@),
{
    let cs = chars_of(p);
    if cs.len() >= 8 {
        return None;
    }
    refuse(400, "8 chars")
}

/// Rule 2: an upper-case letter, a lower-case letter and a digit.
pub fn rule2(m: &GameMatchers, p: &str) -> (r: Option<GameResponse>)
    requires
        m.wf(),
    ensures
        r is None <==> rule2_passes(p@),
        r matches Some(g) ==> refuses(g, 400, "more types of chars"@),
{
    if is_match(&m.upper, p) && is_match(&m.lower, p) && is_match(&m.digit, p) {
        return None;
    }
    refuse(400, "more types of chars")
}

/// Rule 3: at least 5 digits.
pub fn rule3(m: &GameMatchers, p: &str) -> (r: Option<GameResponse>)
    requires
        m.wf(),
    ensures
        r is None <==> rule3_passes(p@),
        r matches Some(g) ==> refuses(g, 400, "55555"@),
{
    if count_matches(&m.digit, p) >= 5 {
        return None;
    }
    refuse(400, "55555")
}

/// The sum of the numbers written in `ms`: `None` where one does not parse as
/// an `i32` or a running sum overflows.
pub fn sum_numbers(ms: &Vec<String>) -> (r: Option<i32>)
    ensures
        r is Some <==> all_parse_i32(ms@.map_values(|s: String| s@)) && running_sums_fit(
            parsed_i32(ms@.map_values(|s: String| s@)),
        ),
        r matches Some(v) ==> v == sum_of(parsed_i32(ms@.map_values(|s: String| s@))),
{
    let ghost texts = ms@.map_values(|s: String| s@);
    let ghost vals = parsed_i32(texts);
    let mut total: i32 = 0;
    let mut i: usize = 0;
    while i < ms.len()
        invariant
            0 <= i <= ms.len(),
            texts == ms@.map_values(|s: String| s@),
            vals == parsed_i32(texts),
            forall|j: int| 0 <= j < i ==> (#[trigger] spec_parse_i32(texts[j])) is Some,
            forall|k: int| 0 <= k <= i ==> i32::MIN <= #[trigger] sum_of(vals.take(k)) <= i32::MAX,
            total == sum_of(vals.take(i as int)),
        decreases ms.len() - i,
    {
        assert(texts[i as int] == ms@[i as int]@);
        let n = match parse_i32(ms[i].as_str()) {
            Some(n) => n,
            None => {
                assert(!all_parse_i32(texts));
                return None;
            },
        };
        assert(vals.take(i + 1).drop_last() == vals.take(i as int));
        assert(vals[i as int] == n);
        if (total >= 0 && n > i32::MAX - total) || (total < 0 && n < i32::MIN - total) {
            assert(!running_sums_fit(vals)) by {
                assert(!(i32::MIN <= sum_of(vals.take(i + 1)) <= i32::MAX));
            }
            return None;
        }
        total = total + n;
        i = i + 1;
    }
    assert(vals.take(ms.len() as int) == vals);
    Some(total)
}

/// Rule 4: the numbers in the password add up to 2023.
pub fn rule4(m: &GameMatchers, p: &str) -> (r: Option<GameResponse>)
    requires
        m.wf(),
        rule4_defined(p@),
    ensures
        r is None <==> rule4_passes(p@),
        r matches Some(g) ==> refuses(g, 400, "math is hard"@),
{
    let numbers = find_all(&m.number, p);
    match sum_numbers(&numbers) {
        Some(total) => {
            if total == 2023 {
                return None;
            }
            refuse(400, "math is hard")
        },
        None => refuse(400, "math is hard"),
    }
}

/// Rule 4 where it is defined: `None` where the numbers of `p` do not all
/// parse as `i32` or their sum overflows, else the answer of `rule4`.
pub fn checked_rule4(m: &GameMatchers, p: &str) -> (r: Option<Option<GameResponse>>)
    requires
        m.wf(),
    ensures
        r is Some <==> rule4_defined(p@),
        r matches Some(a) ==> (a is None <==> rule4_passes(p@)),
        r matches Some(a) ==> (a matches Some(g) ==> refuses(g, 400, "math is hard"@)),
{
    let numbers = find_all(&m.number, p);
    match sum_numbers(&numbers) {
        Some(_) => Some(rule4(m, p)),
        None => None,
    }
}

/// Rule 5: `j`, `o`, `y` appear exactly once each, in that order.
pub fn rule5(p: &str) -> (r: Option<GameResponse>)
    ensures
        r is None <==> rule5_passes(p@),
        r matches Some(g) ==> refuses(g, 406, "not joyful enough"@),
{
    let cs = chars_of(p);
    // how many of 'j', 'o', 'y' have been seen, in order
    let mut seen: usize = 0;
    let mut i: usize = 0;
    while i < cs.len()
        invariant
            0 <= i <= cs.len(),
            cs@ == p@,
            seen <= 3,
            joy_letters(cs@.take(i as int)) == seq!['j', 'o', 'y'].take(seen as int),
        decreases cs.len() - i,
    {
        let c = cs[i];
        assert(cs@.take(i + 1).drop_last() == cs@.take(i as int));
        if c == 'j' || c == 'o' || c == 'y' {
            let expected = if seen == 0 {
                'j'
            } else if seen == 1 {
                'o'
            } else {
                'y'
            };
            if seen < 3 && c == expected {
                seen = seen + 1;
                assert(joy_letters(cs@.take(i + 1)) =~= seq!['j', 'o', 'y'].take(seen as int));
            } else {
                proof {
                    lemma_joy_letters_prefix(cs@, i + 1);
                    let jl = joy_letters(cs@.take(i + 1));
                    assert(jl.len() == seen + 1);
                    assert(jl[seen as int] == c);
                    if joy_letters(cs@) == seq!['j', 'o', 'y'] {
                        assert(joy_letters(cs@)[seen as int] == jl[seen as int]);
                    }
                }
                return refuse(406, "not joyful enough");
            }
        } else {
            assert(joy_letters(cs@.take(i + 1)) == joy_letters(cs@.take(i as int)));
        }
        i = i + 1;
    }
    assert(cs@.take(cs.len() as int) == cs@);
    if seen == 3 {
        assert(seq!['j', 'o', 'y'].take(3) =~= seq!['j', 'o', 'y']);
        None
    } else {
        assert(joy_letters(cs@).len() < 3);
        refuse(406, "not joyful enough")
    }
}

/// The joy letters of a prefix are a prefix of the joy letters of the whole.
proof fn lemma_joy_letters_prefix(s: Seq<char>, k: int)
    requires
        0 <= k <= s.len(),
    ensures
        joy_letters(s.take(k)).len() <= joy_letters(s).len(),
        forall|j: int|
            0 <= j < joy_letters(s.take(k)).len() ==> #[trigger] joy_letters(s.take(k))[j]
                == joy_letters(s)[j],
    decreases s.len(),
{
    if k == s.len() {
        assert(s.take(k) == s);
    } else {
        assert(s.drop_last().take(k) == s.take(k));
        lemma_joy_letters_prefix(s.drop_last(), k);
    }
}

/// Rule 6: a sandwich of letters, like `xyx`.
pub fn rule6(p: &str) -> (r: Option<GameResponse>)
    ensures
        r is None <==> rule6_passes(p@),
        r matches Some(g) ==> refuses(g, 451, "illegal: no sandwich"@),
{
    let cs = chars_of(p);
    let mut i: usize = 0;
    while cs.len() >= 3 && i < cs.len() - 2
        invariant
            cs@ == p@,
            forall|j: int| 0 <= j < i ==> !#[trigger] sandwich_at(p@, j),
        decreases cs.len() - i,
    {
        let a = cs[i];
        let b = cs[i + 1];
        let c = cs[i + 2];
        if is_alphabetic(a) && is_alphabetic(b) && is_alphabetic(c) {
            if a == c && b != c {
                assert(sandwich_at(p@, i as int));
                return None;
            }
        }
        i = i + 1;
    }
    refuse(451, "illegal: no sandwich")
}

/// Rule 7: a character in the range U+2980 ..= U+2BFF.
pub fn rule7(p: &str) -> (r: Option<GameResponse>)
    ensures
        r is None <==> rule7_passes(p@),
        r matches Some(g) ==> refuses(g, 416, "outranged"@),
{
    let cs = chars_of(p);
    let mut i: usize = 0;
    while i < cs.len()
        invariant
            0 <= i <= cs.len(),
            cs@ == p@,
            forall|j: int| 0 <= j < i ==> !#[trigger] in_math_range(p@[j]),
        decreases cs.len() - i,
    {
        let c = cs[i];
        if '\u{2980}' <= c && c <= '\u{2BFF}' {
            assert(in_math_range(p@[i as int]));
            return None;
        }
        i = i + 1;
    }
    refuse(416, "outranged")
}

/// Rule 8: an emoji.
pub fn rule8(p: &str) -> (r: Option<GameResponse>)
    ensures
        r is None <==> rule8_passes(p@),
        r matches Some(g) ==> refuses(g, 426, "\u{1F633}"@),
{
    let cs = chars_of(p);
    let mut i: usize = 0;
    while i < cs.len()
        invariant
            0 <= i <= cs.len(),
            cs@ == p@,
            forall|j: int| 0 <= j < i ==> !#[trigger] emoji_presentation(p@[j]),
        decreases cs.len() - i,
    {
        if is_emoji(cs[i]) {
            return None;
        }
        i = i + 1;
    }
    refuse(426, "\u{1F633}")
}

proof fn lemma_hex_upper_len(data: Seq<u8>)
    ensures
        hex_upper(data).len() == 2 * data.len(),
    decreases data.len(),
{
    if data.len() > 0 {
        lemma_hex_upper_len(data.drop_last());
    }
}

/// Rule 9: the upper-case hex SHA-256 digest of the password ends in `A`.
pub fn rule9(p: &str) -> (r: Option<GameResponse>)
    requires
        hashable(p@),
    ensures
        r is None <==> rule9_passes(p@),
        r matches Some(g) ==> refuses(g, 418, "not a coffee brewer"@),
        hex_digest(p@).len() == 64,
{
    let digest = sha256_digest(p.as_bytes());
    let hex = hex_upper_encode(digest.as_slice());
    let cs = chars_of(hex.as_str());
    proof {
        lemma_hex_upper_len(digest@);
    }
    let last = cs[cs.len() - 1];
    if last == 'a' || last == 'A' {
        return None;
    }
    refuse(418, "not a coffee brewer")
}

/// The answer to a password in the game: the status and reason of the first
/// rule it breaks, or 200 and the praise.  `None` exactly where rules 1 to 3
/// hold and rule 4 is not defined (the numbers do not parse or overflow).
pub fn task2_game_of_the_year(m: &GameMatchers, p: &str) -> (r: Option<GameResponse>)
    requires
        m.wf(),
        hashable(p@),
    ensures
        r is None <==> rule1_passes(p@) && rule2_passes(p@) && rule3_passes(p@) && !rule4_defined(
            p@,
        ),
        r matches Some(g) ==> g.status == game_answer(p@).0 && g.body.reason@ == game_answer(
            p@,
        ).1 && g.body.result@ == (if g.status == 200 {
            "nice"@
        } else {
            "naughty"@
        }),
{
    if let Some(e) = rule1(p) {
        return Some(e);
    }
    if let Some(e) = rule2(m, p) {
        return Some(e);
    }
    if let Some(e) = rule3(m, p) {
        return Some(e);
    }
    match checked_rule4(m, p) {
        None => {
            return None;
        },
        Some(Some(e)) => {
            return Some(e);
        },
        Some(None) => {},
    }
    if let Some(e) = rule5(p) {
        return Some(e);
    }
    if let Some(e) = rule6(p) {
        return Some(e);
    }
    if let Some(e) = rule7(p) {
        return Some(e);
    }
    if let Some(e) = rule8(p) {
        return Some(e);
    }
    if let Some(e) = rule9(p) {
        return Some(e);
    }
    Some(GameResponse { status: 200, body: GameResult::ok() })
}

/// Rule 6 passes exactly where three consecutive characters are all
/// alphabetic, the outer two equal and the middle one different from them.
pub proof fn law_rule6_needs_a_letter_sandwich(p: Seq<char>)
    ensures
        rule6_passes(p) <==> exists|i: int|
            0 <= i && i + 2 < p.len() && #[trigger] alphabetic(p[i]) && alphabetic(p[i + 1])
                && alphabetic(p[i + 2]) && p[i] == p[i + 2] && p[i + 1] != p[i],
{
    if rule6_passes(p) {
        let i = choose|i: int| #[trigger] sandwich_at(p, i);
        assert(alphabetic(p[i]));
    }
    if exists|i: int|
        0 <= i && i + 2 < p.len() && #[trigger] alphabetic(p[i]) && alphabetic(p[i + 1])
            && alphabetic(p[i + 2]) && p[i] == p[i + 2] && p[i + 1] != p[i] {
        let i = choose|i: int|
            0 <= i && i + 2 < p.len() && #[trigger] alphabetic(p[i]) && alphabetic(p[i + 1])
                && alphabetic(p[i + 2]) && p[i] == p[i + 2] && p[i + 1] != p[i];
        assert(sandwich_at(p, i));
    }
}

/// A password is nice exactly where the regex `[aeiouy]` matches at least
/// three times, `ab|cd|pq|xy` nowhere, and some alphabetic character directly
/// repeats the one before it.
pub proof fn law_nice_needs_vowels_no_pairs_and_a_double_letter(p: Seq<char>)
    ensures
        is_nice(p) <==> (regex_matches("[aeiouy]"@, p).len() >= 3 && regex_matches(
            "ab|cd|pq|xy"@,
            p,
        ).len() == 0 && exists|i: int| 1 <= i < p.len() && p[i - 1] == p[i] && #[trigger] alphabetic(p[i])),
{
}

/// The game answers 200 exactly where all nine rules pass, and otherwise
/// the reason of the first rule broken: each reason comes exactly where every
/// earlier rule passes and its own rule fails.
pub proof fn law_game_reports_first_broken_rule(p: Seq<char>)
    ensures
        game_answer(p).0 == 200 <==> (rule1_passes(p) && rule2_passes(p) && rule3_passes(p)
            && rule4_passes(p) && rule5_passes(p) && rule6_passes(p) && rule7_passes(p)
            && rule8_passes(p) && rule9_passes(p)),
        game_answer(p).1 == "8 chars"@ <==> !rule1_passes(p),
        game_answer(p).1 == "more types of chars"@ <==> (rule1_passes(p) && !rule2_passes(p)),
        game_answer(p).1 == "55555"@ <==> (rule1_passes(p) && rule2_passes(p) && !rule3_passes(p)),
        game_answer(p).1 == "math is hard"@ <==> (rule1_passes(p) && rule2_passes(p) && rule3_passes(
            p,
        ) && !rule4_passes(p)),
        game_answer(p).1 == "not joyful enough"@ <==> (rule1_passes(p) && rule2_passes(p)
            && rule3_passes(p) && rule4_passes(p) && !rule5_passes(p)),
        game_answer(p).1 == "illegal: no sandwich"@ <==> (rule1_passes(p) && rule2_passes(p)
            && rule3_passes(p) && rule4_passes(p) && rule5_passes(p) && !rule6_passes(p)),
        game_answer(p).1 == "outranged"@ <==> (rule1_passes(p) && rule2_passes(p) && rule3_passes(p)
            && rule4_passes(p) && rule5_passes(p) && rule6_passes(p) && !rule7_passes(p)),
        game_answer(p).1 == "\u{1F633}"@ <==> (rule1_passes(p) && rule2_passes(p) && rule3_passes(p)
            && rule4_passes(p) && rule5_passes(p) && rule6_passes(p) && rule7_passes(p)
            && !rule8_passes(p)),
        game_answer(p).1 == "not a coffee brewer"@ <==> (rule1_passes(p) && rule2_passes(p)
            && rule3_passes(p) && rule4_passes(p) && rule5_passes(p) && rule6_passes(p)
            && rule7_passes(p) && rule8_passes(p) && !rule9_passes(p)),
{
    reveal_strlit("8 chars");
    reveal_strlit("more types of chars");
    reveal_strlit("55555");
    reveal_strlit("math is hard");
    reveal_strlit("not joyful enough");
    reveal_strlit("illegal: no sandwich");
    reveal_strlit("outranged");
    reveal_strlit("\u{1F633}");
    reveal_strlit("not a coffee brewer");
    reveal_strlit("that's a nice password");
    assert("8 chars"@.len() == 7);
    assert("more types of chars"@.len() == 19 && "more types of chars"@[0] == 'm');
    assert("55555"@.len() == 5);
    assert("math is hard"@.len() == 12);
    assert("not joyful enough"@.len() == 17);
    assert("illegal: no sandwich"@.len() == 20);
    assert("outranged"@.len() == 9);
    assert("\u{1F633}"@.len() == 1);
    assert("not a coffee brewer"@.len() == 19 && "not a coffee brewer"@[0] == 'n');
    assert("that's a nice password"@.len() == 22);
}

/// The `j`, `o`, `y` letters of two texts put together are those of the first
/// followed by those of the second, and a single character contributes itself
/// exactly when it is `j`, `o` or `y`: rule 5 sees every such letter, in order,
/// and nothing else.
pub proof fn law_joy_letters_in_order(s: Seq<char>, t: Seq<char>, c: char)
    ensures
        joy_letters(s + t) == joy_letters(s) + joy_letters(t),
        joy_letters(seq![c]) == (if c == 'j' || c == 'o' || c == 'y' {
            seq![c]
        } else {
            Seq::<char>::empty()
        }),
    decreases t.len(),
{
    reveal_with_fuel(joy_letters, 2);
    assert(seq![c].drop_last() =~= Seq::<char>::empty());
    if t.len() == 0 {
        assert(s + t =~= s);
        assert(joy_letters(t) =~= Seq::<char>::empty());
        assert(joy_letters(s) + joy_letters(t) =~= joy_letters(s));
    } else {
        law_joy_letters_in_order(s, t.drop_last(), c);
        assert((s + t).drop_last() =~= s + t.drop_last());
        assert((s + t).last() == t.last());
        if t.last() == 'j' || t.last() == 'o' || t.last() == 'y' {
            assert(joy_letters(s) + joy_letters(t) =~= (joy_letters(s) + joy_letters(t.drop_last())).push(
                t.last(),
            ));
        }
    }
}

} // verus!
