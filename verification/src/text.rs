use vstd::prelude::*;

verus! {

broadcast use vstd::string::group_string_axioms;

/// The characters of `s`, in order.
pub fn chars_of(s: &str) -> (r: Vec<char>)
    ensures
        r@ == s@,
{
    let mut r: Vec<char> = Vec::new();
    for c in iter: s.chars()
        invariant
            r@ == iter.seq().take(iter.index()),
    {
        r.push(c);
    }
    r
}

/// The pieces of `s` between occurrences of `sep` (as `str::split` with a
/// `char` pattern yields them): always at least one piece.
pub open spec fn split_on(s: Seq<char>, sep: char) -> Seq<Seq<char>>
    decreases s.len(),
{
    if s.len() == 0 {
        seq![Seq::<char>::empty()]
    } else {
        let rest = split_on(s.drop_last(), sep);
        if s.last() == sep {
            rest.push(Seq::<char>::empty())
        } else {
            rest.update(rest.len() - 1, rest.last().push(s.last()))
        }
    }
}

/// Splitting always yields at least one piece.
pub proof fn lemma_split_on_nonempty(s: Seq<char>, sep: char)
    ensures
        split_on(s, sep).len() >= 1,
    decreases s.len(),
{
    if s.len() > 0 {
        lemma_split_on_nonempty(s.drop_last(), sep);
    }
}

/// Writing `sep` and then a piece `t` without `sep` after `s` adds `t` as one
/// more piece after those of `s`.
pub proof fn lemma_split_on_append(s: Seq<char>, sep: char, t: Seq<char>)
    requires
        forall|i: int| 0 <= i < t.len() ==> t[i] != sep,
    ensures
        split_on(s + seq![sep] + t, sep) == split_on(s, sep).push(t),
    decreases t.len(),
{
    let whole = s + seq![sep] + t;
    if t.len() == 0 {
        assert(whole.drop_last() =~= s);
        assert(whole.last() == sep);
        assert(t =~= Seq::<char>::empty());
        assert(split_on(whole, sep) == split_on(whole.drop_last(), sep).push(Seq::<char>::empty()));
    } else {
        let shorter = t.drop_last();
        lemma_split_on_append(s, sep, shorter);
        assert(whole.drop_last() =~= s + seq![sep] + shorter);
        assert(whole.last() == t.last());
        let rest = split_on(s, sep).push(shorter);
        assert(t.last() != sep);
        assert(split_on(whole, sep) == rest.update(rest.len() - 1, rest.last().push(t.last())));
        assert(rest.update(rest.len() - 1, rest.last().push(t.last())) =~= split_on(s, sep).push(t)) by {
            assert(shorter.push(t.last()) =~= t);
        }
    }
}

/// The pieces joined back together with `sep` between them.
pub open spec fn join_with(pieces: Seq<Seq<char>>, sep: char) -> Seq<char>
    decreases pieces.len(),
{
    if pieces.len() <= 1 {
        if pieces.len() == 0 {
            Seq::<char>::empty()
        } else {
            pieces[0]
        }
    } else {
        join_with(pieces.drop_last(), sep) + seq![sep] + pieces.last()
    }
}

/// Splitting at `sep` loses nothing: joining the pieces with `sep` gives the
/// string back, and no piece holds `sep`.
pub proof fn law_split_then_join(s: Seq<char>, sep: char)
    ensures
        join_with(split_on(s, sep), sep) == s,
        forall|i: int, j: int|
            0 <= i < split_on(s, sep).len() && 0 <= j < split_on(s, sep)[i].len() ==> #[trigger] split_on(
                s,
                sep,
            )[i][j] != sep,
    decreases s.len(),
{
    lemma_split_on_nonempty(s, sep);
    if s.len() == 0 {
        assert(join_with(split_on(s, sep), sep) =~= s);
    } else {
        let t = s.drop_last();
        let c = s.last();
        let rest = split_on(t, sep);
        law_split_then_join(t, sep);
        lemma_split_on_nonempty(t, sep);
        if c == sep {
            let p = rest.push(Seq::<char>::empty());
            assert(p.drop_last() =~= rest);
            assert(join_with(p, sep) =~= s);
            assert forall|i: int, j: int| 0 <= i < p.len() && 0 <= j < p[i].len() implies p[i][j]
                != sep by {
                assert(p[i] == rest[i]);
            }
        } else {
            let last = rest.len() - 1;
            let p = rest.update(last, rest.last().push(c));
            if rest.len() == 1 {
                assert(join_with(p, sep) =~= s);
            } else {
                assert(p.drop_last() =~= rest.drop_last());
                assert(join_with(p, sep) =~= join_with(rest.drop_last(), sep) + seq![sep]
                    + rest.last().push(c));
                assert(join_with(rest, sep) == join_with(rest.drop_last(), sep) + seq![sep]
                    + rest.last());
                assert(s =~= t.push(c));
                assert(join_with(p, sep) =~= s);
            }
            assert forall|i: int, j: int| 0 <= i < p.len() && 0 <= j < p[i].len() implies p[i][j]
                != sep by {
                if i != last {
                    assert(p[i] == rest[i]);
                } else if j < rest.last().len() {
                    assert(p[i][j] == rest[last][j]);
                }
            }
        }
    }
}

/// Splits `s` at every `sep`, as `s.split(sep)` does.
pub fn split_chars(s: &str, sep: char) -> (r: Vec<String>)
    ensures
        r@.map_values(|p: String| p@) == split_on(s@, sep),
{
    let cs = chars_of(s);
    let mut pieces: Vec<Vec<char>> = Vec::new();
    pieces.push(Vec::new());
    let mut i: usize = 0;
    while i < cs.len()
        invariant
            0 <= i <= cs.len(),
            cs@ == s@,
            pieces.len() >= 1,
            pieces@.map_values(|p: Vec<char>| p@) == split_on(s@.take(i as int), sep),
        decreases cs.len() - i,
    {
        let c = cs[i];
        let ghost before = pieces@.map_values(|p: Vec<char>| p@);
        assert(s@.take(i + 1).drop_last() == s@.take(i as int));
        if c == sep {
            pieces.push(Vec::new());
        } else {
            let last = pieces.len() - 1;
            let mut p = pieces.pop().unwrap();
            p.push(c);
            pieces.push(p);
            assert(pieces@.map_values(|p: Vec<char>| p@) =~= before.update(
                last as int,
                before.last().push(c),
            ));
        }
        assert(pieces@.map_values(|p: Vec<char>| p@) =~= split_on(s@.take(i + 1), sep));
        i = i + 1;
    }
    assert(s@.take(cs.len() as int) == s@);
    let mut r: Vec<String> = Vec::new();
    let mut j: usize = 0;
    while j < pieces.len()
        invariant
            0 <= j <= pieces.len(),
            r@.map_values(|p: String| p@) == pieces@.map_values(|p: Vec<char>| p@).take(j as int),
        decreases pieces.len() - j,
    {
        assert(pieces@.map_values(|p: Vec<char>| p@)[j as int] == pieces@[j as int]@);
        let s = string_of(&pieces[j]);
        let ghost old_r = r@;
        r.push(s);
        assert(r@ == old_r.push(s));
        assert(r@.map_values(|p: String| p@) =~= old_r.map_values(|p: String| p@).push(s@));
        assert(r@.map_values(|p: String| p@) =~= pieces@.map_values(|p: Vec<char>| p@).take(
            j + 1,
        ));
        j = j + 1;
    }
    assert(pieces@.map_values(|p: Vec<char>| p@).take(pieces.len() as int) =~= pieces@.map_values(
        |p: Vec<char>| p@,
    ));
    r
}

/// `String::from_iter` over `char`s: the string made of the characters `cs`, in order.
#[verifier::external_body]
fn string_of(cs: &Vec<char>) -> (r: String)
    ensures
        r@ == cs@,
{
    String::from_iter(cs.iter())
}

pub open spec fn is_dec_digit(c: char) -> bool {
    '0' <= c <= '9'
}

pub open spec fn all_dec_digits(s: Seq<char>) -> bool {
    forall|i: int| 0 <= i < s.len() ==> is_dec_digit(#[trigger] s[i])
}

/// The value of a string of decimal digits.
pub open spec fn decimal_value(s: Seq<char>) -> int
    decreases s.len(),
{
    if s.len() == 0 {
        0
    } else {
        decimal_value(s.drop_last()) * 10 + (s.last() as int - '0' as int)
    }
}

/// What `str::parse::<i32>` accepts and returns: an optional `+` or `-`, then
/// one or more ASCII digits, whose value fits in an `i32`.
pub open spec fn spec_parse_i32(s: Seq<char>) -> Option<i32> {
    let neg = s.len() > 0 && s[0] == '-';
    let digits = if s.len() > 0 && (s[0] == '-' || s[0] == '+') {
        s.drop_first()
    } else {
        s
    };
    let v = if neg {
        -decimal_value(digits)
    } else {
        decimal_value(digits)
    };
    if digits.len() == 0 || !all_dec_digits(digits) || v < i32::MIN || v > i32::MAX {
        None
    } else {
        Some(v as i32)
    }
}

proof fn lemma_decimal_value_grows(s: Seq<char>, k: int)
    requires
        all_dec_digits(s),
        0 <= k <= s.len(),
    ensures
        decimal_value(s) >= decimal_value(s.take(k)),
        decimal_value(s) >= 0,
    decreases s.len(),
{
    if s.len() > 0 {
        assert(all_dec_digits(s.drop_last()));
        if k == s.len() {
            assert(s.take(k) == s);
            lemma_decimal_value_grows(s.drop_last(), 0);
        } else {
            assert(s.drop_last().take(k) == s.take(k));
            lemma_decimal_value_grows(s.drop_last(), k);
        }
    } else {
        assert(s.take(k).len() == 0);
    }
}

/// The value of the ASCII decimal digits `s[start..]`, or `None` where a
/// character is not an ASCII digit or the value exceeds `bound`.
fn decimal_digits_value(s: &Vec<char>, start: usize, bound: u64) -> (r: Option<u64>)
    requires
        start <= s.len(),
        bound < 1_000_000_000_000u64,
    ensures
        r is Some <==> all_dec_digits(s@.skip(start as int)) && decimal_value(s@.skip(start as int))
            <= bound,
        r matches Some(v) ==> v == decimal_value(s@.skip(start as int)),
{
    let ghost digits = s@.skip(start as int);
    let mut acc: u64 = 0;
    let mut i: usize = start;
    while i < s.len()
        invariant
            start <= i <= s.len(),
            bound < 1_000_000_000_000u64,
            digits == s@.skip(start as int),
            all_dec_digits(digits.take(i - start)),
            acc == decimal_value(digits.take(i - start)),
            acc <= bound,
        decreases s.len() - i,
    {
        let c = s[i];
        let ghost pre = digits.take(i - start);
        let ghost next = digits.take(i - start + 1);
        assert(next.drop_last() == pre);
        assert(digits[i - start] == c);
        if !('0' <= c && c <= '9') {
            return None;
        }
        let d: u64 = (c as u32 - '0' as u32) as u64;
        acc = acc * 10 + d;
        assert(all_dec_digits(next)) by {
            assert forall|k: int| 0 <= k < next.len() implies is_dec_digit(#[trigger] next[k]) by {
                if k < pre.len() {
                    assert(next[k] == pre[k]);
                }
            }
        }
        if acc > bound {
            proof {
                if all_dec_digits(digits) {
                    lemma_decimal_value_grows(digits, i - start + 1);
                }
            }
            return None;
        }
        i = i + 1;
    }
    assert(digits.take(i - start) == digits);
    Some(acc)
}

/// Parses `s` as `str::parse::<i32>` does.
pub fn parse_i32(s: &str) -> (r: Option<i32>)
    ensures
        r == spec_parse_i32(s@),
{
    let cs = chars_of(s);
    if cs.len() == 0 {
        return None;
    }
    let neg = cs[0] == '-';
    let start: usize = if cs[0] == '-' || cs[0] == '+' { 1 } else { 0 };
    if start == cs.len() {
        return None;
    }
    let ghost digits = cs@.skip(start as int);
    assert(digits == (if cs@[0] == '-' || cs@[0] == '+' {
        cs@.drop_first()
    } else {
        cs@
    }));
    let bound: u64 = if neg { 2147483648 } else { 2147483647 };
    match decimal_digits_value(&cs, start, bound) {
        None => None,
        Some(v) => {
            if neg {
                Some((0 - (v as i64)) as i32)
            } else {
                Some(v as i32)
            }
        },
    }
}

/// What `u64::from_str_radix(s, 2)` accepts and returns: an optional `+`, then
/// one or more of `0` and `1`, whose value fits in a `u64`.
pub open spec fn spec_parse_binary_u64(s: Seq<char>) -> Option<u64> {
    let digits = if s.len() > 0 && s[0] == '+' {
        s.drop_first()
    } else {
        s
    };
    let v = binary_value(digits);
    if digits.len() == 0 || !all_bin_digits(digits) || v > u64::MAX {
        None
    } else {
        Some(v as u64)
    }
}

pub open spec fn all_bin_digits(s: Seq<char>) -> bool {
    forall|i: int| 0 <= i < s.len() ==> (#[trigger] s[i] == '0' || s[i] == '1')
}

/// The value of a string of binary digits.
pub open spec fn binary_value(s: Seq<char>) -> int
    decreases s.len(),
{
    if s.len() == 0 {
        0
    } else {
        binary_value(s.drop_last()) * 2 + (if s.last() == '1' {
            1int
        } else {
            0int
        })
    }
}

proof fn lemma_binary_value_grows(s: Seq<char>, k: int)
    requires
        0 <= k <= s.len(),
    ensures
        binary_value(s) >= binary_value(s.take(k)),
        binary_value(s) >= 0,
    decreases s.len(),
{
    if s.len() > 0 {
        if k == s.len() {
            assert(s.take(k) == s);
            lemma_binary_value_grows(s.drop_last(), 0);
        } else {
            assert(s.drop_last().take(k) == s.take(k));
            lemma_binary_value_grows(s.drop_last(), k);
        }
    } else {
        assert(s.take(k).len() == 0);
    }
}

/// Parses `s` as `u64::from_str_radix(s, 2)` does.
pub fn parse_binary_u64(s: &str) -> (r: Option<u64>)
    ensures
        r == spec_parse_binary_u64(s@),
{
    let cs = chars_of(s);
    if cs.len() == 0 {
        return None;
    }
    let start: usize = if cs[0] == '+' { 1 } else { 0 };
    if start == cs.len() {
        return None;
    }
    let ghost digits = cs@.skip(start as int);
    assert(digits == (if cs@[0] == '+' {
        cs@.drop_first()
    } else {
        cs@
    }));
    let mut acc: u64 = 0;
    let mut i: usize = start;
    while i < cs.len()
        invariant
            start <= i <= cs.len(),
            digits == cs@.skip(start as int),
            cs@ == s@,
            digits == (if s@.len() > 0 && s@[0] == '+' {
                s@.drop_first()
            } else {
                s@
            }),
            all_bin_digits(digits.take(i - start)),
            acc == binary_value(digits.take(i - start)),
        decreases cs.len() - i,
    {
        let c = cs[i];
        let ghost pre = digits.take(i - start);
        let ghost next = digits.take(i - start + 1);
        assert(next.drop_last() == pre);
        assert(digits[i - start] == c);
        if c != '0' && c != '1' {
            assert(!all_bin_digits(digits));
            return None;
        }
        if acc > 0x7fff_ffff_ffff_ffffu64 {
            proof {
                assert(binary_value(next) >= binary_value(pre) * 2);
                lemma_binary_value_grows(digits, i - start + 1);
            }
            return None;
        }
        let bit: u64 = if c == '1' { 1 } else { 0 };
        acc = acc * 2 + bit;
        assert(all_bin_digits(next)) by {
            assert forall|k: int| 0 <= k < next.len() implies (#[trigger] next[k] == '0' || next[k]
                == '1') by {
                if k < pre.len() {
                    assert(next[k] == pre[k]);
                }
            }
        }
        i = i + 1;
    }
    assert(digits.take(i - start) == digits);
    Some(acc)
}

} // verus!
