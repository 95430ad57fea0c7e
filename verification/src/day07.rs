use vstd::prelude::*;
use vstd::utf8::{valid_utf8, decode_utf8, encode_utf8};
use base64::Engine;

verus! {

// ---------------------------------------------------------------------------
// Decoding the recipe cookie
// ---------------------------------------------------------------------------

#[verifier::external_type_specification]
#[verifier::external_body]
pub struct ExDecodeError(base64::DecodeError);

#[verifier::external_type_specification]
#[verifier::external_body]
pub struct ExFromUtf8Error(std::string::FromUtf8Error);

/// The bytes that the standard base64 engine (alphabet `A-Z a-z 0-9 + /`,
/// canonical `=` padding) decodes `input` to, or `None` where it rejects it.
pub uninterp spec fn base64_standard_decode(input: Seq<u8>) -> Option<Seq<u8>>;

/// `base64::engine::general_purpose::STANDARD.decode`; named by `base64_standard_decode`.
#[verifier::external_body]
fn base64_decode(input: &[u8]) -> (r: Result<Vec<u8>, base64::DecodeError>)
    ensures
        match base64_standard_decode(input@) {
            Some(bytes) => r matches Ok(v) && v@ == bytes,
            None => r is Err,
        },
{
    base64::engine::general_purpose::STANDARD.decode(input)
}

/// `String::from_utf8`: the string whose UTF-8 encoding `bytes` are, or an
/// error where they are not valid UTF-8.
#[verifier::external_body]
fn string_from_utf8(bytes: Vec<u8>) -> (r: Result<String, std::string::FromUtf8Error>)
    ensures
        r is Ok <==> valid_utf8(bytes@),
        r matches Ok(s) ==> s@ == decode_utf8(bytes@),
{
    String::from_utf8(bytes)
}

/// Why a recipe cookie could not be read.
#[derive(Debug)]
pub enum RecipeError {
    /// The value is not standard base64.
    Base64(base64::DecodeError),
    /// The decoded bytes are not UTF-8.
    Utf8(std::string::FromUtf8Error),
}

/// The text that the cookie value holds: its UTF-8 bytes decoded from base64,
/// read as UTF-8.
pub fn decode_recipe(value: &str) -> (r: Result<String, RecipeError>)
    ensures
        match base64_standard_decode(encode_utf8(value@)) {
            None => r matches Err(RecipeError::Base64(_)),
            Some(bytes) => if valid_utf8(bytes) {
                r matches Ok(s) && s@ == decode_utf8(bytes)
            } else {
                r matches Err(RecipeError::Utf8(_))
            },
        },
{
    let decoded = match base64_decode(value.as_bytes()) {
        Ok(d) => d,
        Err(e) => {
            return Err(RecipeError::Base64(e));
        },
    };
    match string_from_utf8(decoded) {
        Ok(s) => Ok(s),
        Err(e) => Err(RecipeError::Utf8(e)),
    }
}

// ---------------------------------------------------------------------------
// Baking
// ---------------------------------------------------------------------------

/// No two entries share an ingredient name.
pub open spec fn names_distinct(v: Seq<(String, usize)>) -> bool {
    forall|i: int, j: int| 0 <= i < j < v.len() ==> v[i].0@ != v[j].0@
}

/// The quantity listed for `name`, if any (the last entry for it).
pub open spec fn lookup(v: Seq<(String, usize)>, name: Seq<char>) -> Option<usize>
    decreases v.len(),
{
    if v.len() == 0 {
        None
    } else if v.last().0@ == name {
        Some(v.last().1)
    } else {
        lookup(v.drop_last(), name)
    }
}

pub open spec fn min(a: int, b: int) -> int {
    if a <= b {
        a
    } else {
        b
    }
}

/// How many cookies the pantry allows: the least `available / needed` over the
/// ingredients the recipe needs (a nonzero amount of); 0 where one of them is
/// not in the pantry; `usize::MAX` where the recipe needs nothing.
pub open spec fn cookies_for(recipe: Seq<(String, usize)>, pantry: Seq<(String, usize)>) -> int
    decreases recipe.len(),
{
    if recipe.len() == 0 {
        usize::MAX as int
    } else {
        let rest = cookies_for(recipe.drop_last(), pantry);
        let needed = recipe.last().1;
        if needed == 0 {
            rest
        } else {
            match lookup(pantry, recipe.last().0@) {
                None => 0,
                Some(available) => min(rest, (available / needed) as int),
            }
        }
    }
}

/// What is left of an ingredient after baking `cookies` cookies.
pub open spec fn left_over(recipe: Seq<(String, usize)>, entry: (String, usize), cookies: int) -> int {
    match lookup(recipe, entry.0@) {
        Some(needed) => entry.1 - needed * cookies,
        None => entry.1 as int,
    }
}

proof fn lemma_cookies_bounds(recipe: Seq<(String, usize)>, pantry: Seq<(String, usize)>)
    ensures
        0 <= cookies_for(recipe, pantry) <= usize::MAX,
    decreases recipe.len(),
{
    if recipe.len() > 0 {
        lemma_cookies_bounds(recipe.drop_last(), pantry);
    }
}

proof fn lemma_cookies_shrink(recipe: Seq<(String, usize)>, pantry: Seq<(String, usize)>, k: int)
    requires
        0 <= k <= recipe.len(),
    ensures
        cookies_for(recipe, pantry) <= cookies_for(recipe.take(k), pantry),
    decreases recipe.len(),
{
    if k == recipe.len() {
        assert(recipe.take(k) == recipe);
    } else {
        assert(recipe.drop_last().take(k) == recipe.take(k));
        lemma_cookies_bounds(recipe.drop_last(), pantry);
        lemma_cookies_shrink(recipe.drop_last(), pantry, k);
    }
}

/// Where the recipe needs `needed > 0` of `name` and the pantry holds
/// `available` of it, at most `available / needed` cookies are baked.
proof fn lemma_cookies_within(
    recipe: Seq<(String, usize)>,
    pantry: Seq<(String, usize)>,
    name: Seq<char>,
    needed: usize,
    available: usize,
)
    requires
        lookup(recipe, name) == Some(needed),
        needed > 0,
        lookup(pantry, name) == Some(available),
    ensures
        cookies_for(recipe, pantry) <= available / needed,
    decreases recipe.len(),
{
    lemma_cookies_bounds(recipe.drop_last(), pantry);
    if recipe.last().0@ != name {
        lemma_cookies_within(recipe.drop_last(), pantry, name, needed, available);
    }
}

/// In a list with distinct names, the entry at `i` is the one found for its name.
proof fn lemma_lookup_distinct(v: Seq<(String, usize)>, i: int)
    requires
        names_distinct(v),
        0 <= i < v.len(),
    ensures
        lookup(v, v[i].0@) == Some(v[i].1),
    decreases v.len(),
{
    if i < v.len() - 1 {
        assert(names_distinct(v.drop_last()));
        lemma_lookup_distinct(v.drop_last(), i);
    }
}

/// The quantity listed for `name` in `v`.
fn find_quantity(v: &Vec<(String, usize)>, name: &String) -> (r: Option<usize>)
    ensures
        r == lookup(v@, name@),
{
    let mut i: usize = v.len();
    assert(v@.take(i as int) == v@);
    while i > 0
        invariant
            i <= v.len(),
            lookup(v@, name@) == lookup(v@.take(i as int), name@),
        decreases i,
    {
        assert(v@.take(i as int).drop_last() == v@.take(i - 1));
        if v[i - 1].0 == *name {
            return Some(v[i - 1].1);
        }
        i = i - 1;
    }
    None
}

/// Bakes as many cookies as the pantry allows: the number of cookies and the
/// pantry after baking, its entries in the same order.
pub fn task2_the_secret_cookie_recipe(
    recipe: &Vec<(String, usize)>,
    pantry: &Vec<(String, usize)>,
) -> (r: (usize, Vec<(String, usize)>))
    requires
        names_distinct(recipe@),
        names_distinct(pantry@),
    ensures
        r.0 == cookies_for(recipe@, pantry@),
        r.1@.len() == pantry@.len(),
        forall|i: int|
            0 <= i < pantry@.len() ==> r.1@[i].0 == pantry@[i].0 && r.1@[i].1 == left_over(
                recipe@,
                #[trigger] pantry@[i],
                r.0 as int,
            ),
{
    let mut cookies: usize = usize::MAX;
    let mut i: usize = 0;
    assert(recipe@.take(recipe.len() as int) == recipe@);
    while i < recipe.len()
        invariant_except_break
            cookies == cookies_for(recipe@.take(i as int), pantry@),
        invariant
            0 <= i <= recipe.len(),
            recipe@.take(recipe.len() as int) == recipe@,
        ensures
            cookies == cookies_for(recipe@, pantry@),
        decreases recipe.len() - i,
    {
        assert(recipe@.take(i + 1).drop_last() == recipe@.take(i as int));
        let needed = recipe[i].1;
        if needed != 0 {
            match find_quantity(pantry, &recipe[i].0) {
                None => {
                    proof {
                        lemma_cookies_shrink(recipe@, pantry@, i + 1);
                        lemma_cookies_bounds(recipe@, pantry@);
                    }
                    cookies = 0;
                    assert(cookies == cookies_for(recipe@, pantry@));
                    break ;
                },
                Some(available) => {
                    let per = available / needed;
                    if per < cookies {
                        cookies = per;
                    }
                },
            }
        }
        i = i + 1;
    }
    let mut after: Vec<(String, usize)> = Vec::new();
    let mut j: usize = 0;
    while j < pantry.len()
        invariant
            0 <= j <= pantry.len(),
            names_distinct(pantry@),
            cookies == cookies_for(recipe@, pantry@),
            after@.len() == j,
            forall|k: int|
                0 <= k < j ==> after@[k].0 == pantry@[k].0 && after@[k].1 == left_over(
                    recipe@,
                    #[trigger] pantry@[k],
                    cookies as int,
                ),
        decreases pantry.len() - j,
    {
        let qty = pantry[j].1;
        let left = match find_quantity(recipe, &pantry[j].0) {
            Some(needed) => {
                proof {
                    lemma_cookies_bounds(recipe@, pantry@);
                    if needed > 0 {
                        lemma_lookup_distinct(pantry@, j as int);
                        lemma_cookies_within(recipe@, pantry@, pantry@[j as int].0@, needed, qty);
                        assert(needed * cookies <= needed * (qty / needed)) by (nonlinear_arith)
                            requires
                                cookies <= qty / needed,
                                needed > 0,
                        ;
                        assert(needed * (qty / needed) <= qty) by (nonlinear_arith)
                            requires
                                needed > 0,
                        ;
                    }
                }
                qty - needed * cookies
            },
            None => qty,
        };
        after.push((pantry[j].0.clone(), left));
        j = j + 1;
    }
    (cookies, after)
}


/// The recipe needs a nonzero amount of some ingredient.
pub open spec fn needs_something(recipe: Seq<(String, usize)>) -> bool {
    exists|i: int| 0 <= i < recipe.len() && #[trigger] recipe[i].1 > 0
}

/// Baking `cookies` cookies stays within what the pantry holds of the
/// ingredient at `i` of the recipe.
pub open spec fn within_stock(
    recipe: Seq<(String, usize)>,
    pantry: Seq<(String, usize)>,
    i: int,
    cookies: int,
) -> bool {
    match lookup(pantry, recipe[i].0@) {
        Some(available) => recipe[i].1 * cookies <= available,
        None => cookies == 0 || recipe[i].1 == 0,
    }
}

proof fn lemma_cookies_fit(recipe: Seq<(String, usize)>, pantry: Seq<(String, usize)>, i: int)
    requires
        names_distinct(recipe),
        0 <= i < recipe.len(),
    ensures
        within_stock(recipe, pantry, i, cookies_for(recipe, pantry)),
    decreases recipe.len(),
{
    let c = cookies_for(recipe, pantry);
    lemma_cookies_bounds(recipe, pantry);
    let needed = recipe[i].1;
    if needed > 0 {
        match lookup(pantry, recipe[i].0@) {
            Some(available) => {
                lemma_lookup_distinct(recipe, i);
                lemma_cookies_within(recipe, pantry, recipe[i].0@, needed, available);
                assert(needed * c <= needed * (available / needed)) by (nonlinear_arith)
                    requires
                        c <= available / needed,
                        needed > 0,
                ;
                assert(needed * (available / needed) <= available) by (nonlinear_arith)
                    requires
                        needed > 0,
                ;
            },
            None => {
                lemma_cookies_zero_when_missing(recipe, pantry, i);
            },
        }
    }
}

proof fn lemma_cookies_zero_when_missing(recipe: Seq<(String, usize)>, pantry: Seq<(String, usize)>, i: int)
    requires
        0 <= i < recipe.len(),
        recipe[i].1 > 0,
        lookup(pantry, recipe[i].0@) is None,
    ensures
        cookies_for(recipe, pantry) == 0,
    decreases recipe.len(),
{
    lemma_cookies_bounds(recipe.drop_last(), pantry);
    if i < recipe.len() - 1 {
        lemma_cookies_zero_when_missing(recipe.drop_last(), pantry, i);
    }
}

proof fn lemma_cookies_max_when_nothing_needed(recipe: Seq<(String, usize)>, pantry: Seq<(String, usize)>)
    requires
        !needs_something(recipe),
    ensures
        cookies_for(recipe, pantry) == usize::MAX,
    decreases recipe.len(),
{
    if recipe.len() > 0 {
        assert(!needs_something(recipe.drop_last())) by {
            if needs_something(recipe.drop_last()) {
                let j = choose|j: int|
                    0 <= j < recipe.drop_last().len() && #[trigger] recipe.drop_last()[j].1 > 0;
                assert(recipe[j].1 > 0);
            }
        }
        lemma_cookies_max_when_nothing_needed(recipe.drop_last(), pantry);
        assert(!(recipe[recipe.len() - 1].1 > 0));
    }
}

proof fn lemma_cookies_tight(recipe: Seq<(String, usize)>, pantry: Seq<(String, usize)>)
    requires
        needs_something(recipe),
    ensures
        exists|i: int|
            0 <= i < recipe.len() && recipe[i].1 > 0 && !#[trigger] within_stock(
                recipe,
                pantry,
                i,
                cookies_for(recipe, pantry) + 1,
            ),
    decreases recipe.len(),
{
    let c = cookies_for(recipe, pantry);
    let rest = recipe.drop_last();
    let last = recipe.len() - 1;
    let needed = recipe[last].1;
    lemma_cookies_bounds(rest, pantry);
    if needed == 0 {
        assert(needs_something(rest)) by {
            let j = choose|j: int| 0 <= j < recipe.len() && #[trigger] recipe[j].1 > 0;
            assert(j != last);
            assert(rest[j].1 > 0);
        }
        lemma_cookies_tight(rest, pantry);
        let j = choose|j: int|
            0 <= j < rest.len() && rest[j].1 > 0 && !#[trigger] within_stock(
                rest,
                pantry,
                j,
                cookies_for(rest, pantry) + 1,
            );
        assert(rest[j] == recipe[j]);
        assert(!within_stock(recipe, pantry, j, c + 1));
    } else {
        match lookup(pantry, recipe[last].0@) {
            None => {
                assert(!within_stock(recipe, pantry, last, c + 1));
            },
            Some(available) => {
                let per = available / needed;
                if per <= cookies_for(rest, pantry) {
                    assert(needed * (per + 1) > available) by (nonlinear_arith)
                        requires
                            per == available / needed,
                            needed > 0,
                    ;
                    assert(!within_stock(recipe, pantry, last, c + 1));
                } else {
                    assert(needs_something(rest)) by {
                        if !needs_something(rest) {
                            lemma_cookies_max_when_nothing_needed(rest, pantry);
                        }
                    }
                    lemma_cookies_tight(rest, pantry);
                    let j = choose|j: int|
                        0 <= j < rest.len() && rest[j].1 > 0 && !#[trigger] within_stock(
                            rest,
                            pantry,
                            j,
                            cookies_for(rest, pantry) + 1,
                        );
                    assert(rest[j] == recipe[j]);
                    assert(!within_stock(recipe, pantry, j, c + 1));
                }
            },
        }
    }
}

/// The number of cookies baked is the most the pantry allows: every ingredient
/// the recipe needs is in stock for that many cookies, and (where the recipe
/// needs anything) some ingredient is not in stock for one cookie more; a
/// recipe that needs nothing bakes `usize::MAX` cookies.
pub proof fn law_cookies_are_the_most(recipe: Seq<(String, usize)>, pantry: Seq<(String, usize)>)
    requires
        names_distinct(recipe),
    ensures
        forall|i: int|
            0 <= i < recipe.len() ==> #[trigger] within_stock(
                recipe,
                pantry,
                i,
                cookies_for(recipe, pantry),
            ),
        needs_something(recipe) ==> exists|i: int|
            0 <= i < recipe.len() && recipe[i].1 > 0 && !#[trigger] within_stock(
                recipe,
                pantry,
                i,
                cookies_for(recipe, pantry) + 1,
            ),
        !needs_something(recipe) ==> cookies_for(recipe, pantry) == usize::MAX,
{
    assert forall|i: int| 0 <= i < recipe.len() implies #[trigger] within_stock(
        recipe,
        pantry,
        i,
        cookies_for(recipe, pantry),
    ) by {
        lemma_cookies_fit(recipe, pantry, i);
    }
    if needs_something(recipe) {
        lemma_cookies_tight(recipe, pantry);
    } else {
        lemma_cookies_max_when_nothing_needed(recipe, pantry);
    }
}

/// Baking takes from each ingredient exactly what the recipe needs of it per
/// cookie times the cookies baked, and never more than the pantry holds.
pub proof fn law_baking_uses_what_is_needed(
    recipe: Seq<(String, usize)>,
    pantry: Seq<(String, usize)>,
    i: int,
)
    requires
        names_distinct(recipe),
        names_distinct(pantry),
        0 <= i < pantry.len(),
    ensures
        0 <= left_over(recipe, pantry[i], cookies_for(recipe, pantry)) <= pantry[i].1,
        lookup(recipe, pantry[i].0@) matches Some(needed) ==> pantry[i].1 - left_over(
            recipe,
            pantry[i],
            cookies_for(recipe, pantry),
        ) == needed * cookies_for(recipe, pantry),
{
    let c = cookies_for(recipe, pantry);
    lemma_cookies_bounds(recipe, pantry);
    match lookup(recipe, pantry[i].0@) {
        Some(needed) => {
            if needed > 0 {
                lemma_lookup_distinct(pantry, i);
                lemma_cookies_within(recipe, pantry, pantry[i].0@, needed, pantry[i].1);
                assert(needed * c <= needed * (pantry[i].1 / needed)) by (nonlinear_arith)
                    requires
                        c <= pantry[i].1 / needed,
                        needed > 0,
                ;
                assert(needed * (pantry[i].1 / needed) <= pantry[i].1) by (nonlinear_arith)
                    requires
                        needed > 0,
                ;
                assert(needed * c >= 0) by (nonlinear_arith)
                    requires
                        c >= 0,
                        needed > 0,
                ;
            }
        },
        None => {},
    }
}

} // verus!
