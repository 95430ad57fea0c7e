use vstd::prelude::*;
use crate::text::{
    parse_i32, spec_parse_i32, split_chars, split_on, lemma_split_on_append, lemma_split_on_nonempty,
};

verus! {

/// The cube of `x`, computed over the integers.
pub open spec fn spec_cube(x: int) -> int {
    x * x * x
}

/// Whether `x` cubed fits in an `i32` (where `i32::pow` does not overflow).
pub open spec fn cube_fits(x: i32) -> bool {
    i32::MIN <= spec_cube(x as int) <= i32::MAX
}

/// `x` cubed.
pub fn cube(x: i32) -> (r: i32)
    requires
        cube_fits(x),
    ensures
        r == spec_cube(x as int),
{
    assert(-2147483648 <= x * x <= 2147483647) by (nonlinear_arith)
        requires
            -2147483648 <= x * x * x <= 2147483647,
    {
        if x > 1290 || x < -1290 {
            assert(x * x > 1290 * 1290) by (nonlinear_arith)
                requires
                    x > 1290 || x < -1290,
            ;
        }
    }
    x * x * x
}

/// The cube of the bitwise XOR of the two numbers.
pub fn task1_cube_the_bits(num1: i32, num2: i32) -> (r: i32)
    requires
        cube_fits(num1 ^ num2),
    ensures
        r == spec_cube((num1 ^ num2) as int),
{
    cube(num1 ^ num2)
}

/// The XOR of all numbers, folded from the left.
pub open spec fn xor_fold(s: Seq<i32>) -> i32
    recommends
        s.len() > 0,
    decreases s.len(),
{
    if s.len() <= 1 {
        s[0]
    } else {
        xor_fold(s.drop_last()) ^ s.last()
    }
}

/// XOR of all the numbers of a non-empty list.
pub fn xor_all(nums: &Vec<i32>) -> (r: i32)
    requires
        nums.len() > 0,
    ensures
        r == xor_fold(nums@),
{
    let mut acc = nums[0];
    let mut i: usize = 1;
    while i < nums.len()
        invariant
            1 <= i <= nums.len(),
            acc == xor_fold(nums@.take(i as int)),
        decreases nums.len() - i,
    {
        assert(nums@.take(i + 1).drop_last() == nums@.take(i as int));
        acc = acc ^ nums[i];
        i = i + 1;
    }
    assert(nums@.take(nums.len() as int) == nums@);
    acc
}

/// The `/`-separated pieces of a sled-id path, each parsed as an `i32`:
/// the list of numbers, or the first piece that does not parse.
pub open spec fn spec_sled_ids(args: Seq<char>) -> Result<Seq<i32>, Seq<char>> {
    let pieces = split_on(args, '/');
    if exists|i: int| 0 <= i < pieces.len() && spec_parse_i32(#[trigger] pieces[i]) is None {
        let i = choose|i: int|
            0 <= i < pieces.len() && spec_parse_i32(#[trigger] pieces[i]) is None && forall|j: int|
                0 <= j < i ==> spec_parse_i32(#[trigger] pieces[j]) is Some;
        Err(pieces[i])
    } else {
        Ok(pieces.map_values(|p: Seq<char>| spec_parse_i32(p)->0))
    }
}

/// Splits the path at `/` and parses every piece as an `i32`.
pub fn parse_sled_ids(args: &str) -> (r: Result<Vec<i32>, String>)
    ensures
        match spec_sled_ids(args@) {
            Ok(nums) => r matches Ok(v) && v@ == nums,
            Err(piece) => r matches Err(e) && e@ == piece,
        },
{
    let pieces = split_chars(args, '/');
    let ghost sp = split_on(args@, '/');
    assert(pieces@.len() == sp.len());
    let mut nums: Vec<i32> = Vec::new();
    let mut i: usize = 0;
    while i < pieces.len()
        invariant
            0 <= i <= pieces.len(),
            sp == split_on(args@, '/'),
            pieces@.map_values(|p: String| p@) == sp,
            nums@ == sp.take(i as int).map_values(|p: Seq<char>| spec_parse_i32(p)->0),
            forall|j: int| 0 <= j < i ==> spec_parse_i32(#[trigger] sp[j]) is Some,
        decreases pieces.len() - i,
    {
        assert(sp[i as int] == pieces@[i as int]@);
        match parse_i32(pieces[i].as_str()) {
            Some(n) => {
                nums.push(n);
                assert(nums@ =~= sp.take(i + 1).map_values(|p: Seq<char>| spec_parse_i32(p)->0));
            },
            None => {
                proof {
                    let k = choose|k: int|
                        0 <= k < sp.len() && spec_parse_i32(#[trigger] sp[k]) is None && forall|
                            j: int,
                        | 0 <= j < k ==> spec_parse_i32(#[trigger] sp[j]) is Some;
                    assert(k == i) by {
                        if k < i {
                        } else if k > i {
                        }
                    }
                }
                return Err(pieces[i].clone());
            },
        }
        i = i + 1;
    }
    assert(sp.take(pieces.len() as int) == sp);
    Ok(nums)
}

/// The sled id of a path: the cube of the XOR of all its numbers, or the
/// first piece that is not an `i32`.
pub fn task2_the_sled_id_system(args: &str) -> (r: Result<i32, String>)
    requires
        spec_sled_ids(args@) matches Ok(nums) ==> cube_fits(xor_fold(nums)),
    ensures
        match spec_sled_ids(args@) {
            Ok(nums) => r matches Ok(v) && v == spec_cube(xor_fold(nums) as int),
            Err(piece) => r matches Err(e) && e@ == piece,
        },
{
    proof {
        lemma_split_on_nonempty(args@, '/');
    }
    match parse_sled_ids(args) {
        Ok(nums) => {
            let x = xor_all(&nums);
            Ok(cube(x))
        },
        Err(piece) => Err(piece),
    }
}

/// The sled id of a path, or `None` where the pieces are all numbers but the
/// cube of their XOR does not fit in an `i32` (where `i32::pow` overflows).
pub fn checked_task2_the_sled_id_system(args: &str) -> (r: Option<Result<i32, String>>)
    ensures
        r is None <==> (spec_sled_ids(args@) matches Ok(nums) && !cube_fits(xor_fold(nums))),
        r matches Some(x) ==> match spec_sled_ids(args@) {
            Ok(nums) => x matches Ok(v) && v == spec_cube(xor_fold(nums) as int),
            Err(piece) => x matches Err(e) && e@ == piece,
        },
{
    proof {
        lemma_split_on_nonempty(args@, '/');
    }
    match parse_sled_ids(args) {
        Err(piece) => Some(Err(piece)),
        Ok(nums) => {
            let x = xor_all(&nums);
            match x.checked_mul(x) {
                None => {
                    assert(!cube_fits(x)) by (nonlinear_arith)
                        requires
                            x * x > i32::MAX || x * x < i32::MIN,
                    {
                        assert(x * x >= 0);
                        assert(x != 0 && x != 1 && x != -1);
                        if x > 0 {
                            assert(x * x * x >= 2 * (x * x));
                        } else {
                            assert(x * x * x <= -2 * (x * x));
                        }
                    }
                    None
                },
                Some(sq) => match sq.checked_mul(x) {
                    None => None,
                    Some(_) => Some(task2_the_sled_id_system(args)),
                },
            }
        },
    }
}

/// A sled-id path of exactly two numbers gets the same answer as cubing the
/// bits of those two numbers.
pub proof fn law_two_ids_cube_the_bits(args: Seq<char>, num1: i32, num2: i32)
    requires
        spec_sled_ids(args) == Ok::<Seq<i32>, Seq<char>>(seq![num1, num2]),
    ensures
        xor_fold(seq![num1, num2]) == num1 ^ num2,
        cube_fits(xor_fold(seq![num1, num2])) == cube_fits(num1 ^ num2),
        spec_cube(xor_fold(seq![num1, num2]) as int) == spec_cube((num1 ^ num2) as int),
{
    let s = seq![num1, num2];
    assert(s.drop_last() =~= seq![num1]);
    assert(xor_fold(seq![num1]) == num1);
    assert(xor_fold(s) == xor_fold(s.drop_last()) ^ s.last());
}

proof fn lemma_xor_facts(a: i32, b: i32, c: i32)
    ensures
        a ^ b == b ^ a,
        (a ^ b) ^ c == (a ^ c) ^ b,
        (a ^ b) ^ b == a,
{
    assert(a ^ b == b ^ a) by (bit_vector);
    assert((a ^ b) ^ c == (a ^ c) ^ b) by (bit_vector);
    assert((a ^ b) ^ b == a) by (bit_vector);
}

/// Taking any one number out of the fold and XOR-ing it back in gives the same.
proof fn lemma_xor_fold_remove(s: Seq<i32>, i: int)
    requires
        s.len() >= 2,
        0 <= i < s.len(),
    ensures
        xor_fold(s) == xor_fold(s.remove(i)) ^ s[i],
    decreases s.len(),
{
    let dl = s.drop_last();
    let last = s.last();
    if i == s.len() - 1 {
        assert(s.remove(i) =~= dl);
    } else if s.len() == 2 {
        assert(s.remove(i) =~= seq![last]);
        assert(dl =~= seq![s[0]]);
        assert(xor_fold(seq![last]) == last);
        assert(xor_fold(seq![s[0]]) == s[0]);
        assert(xor_fold(s) == xor_fold(dl) ^ last);
        lemma_xor_facts(s[0], last, 0);
    } else {
        lemma_xor_fold_remove(dl, i);
        assert(s.remove(i).drop_last() =~= dl.remove(i));
        assert(s.remove(i).last() == last);
        assert(dl[i] == s[i]);
        assert(xor_fold(s) == xor_fold(dl) ^ last);
        assert(xor_fold(s.remove(i)) == xor_fold(s.remove(i).drop_last()) ^ s.remove(i).last());
        lemma_xor_facts(xor_fold(dl.remove(i)), s[i], last);
    }
}

/// The sled id does not depend on the order of the numbers: any two lists with
/// the same numbers (as many times each) XOR to the same value.
pub proof fn law_xor_order_free(s1: Seq<i32>, s2: Seq<i32>)
    requires
        s1.len() >= 1,
        s1.to_multiset() == s2.to_multiset(),
    ensures
        xor_fold(s1) == xor_fold(s2),
    decreases s1.len(),
{
    broadcast use vstd::seq_lib::group_to_multiset_ensures;

    let x = s1.last();
    assert(s1.to_multiset().count(x) > 0) by {
        assert(s1.contains(x)) by {
            assert(s1[s1.len() - 1] == x);
        }
    }
    assert(s2.contains(x));
    let j = choose|j: int| 0 <= j < s2.len() && s2[j] == x;
    assert(s1.remove(s1.len() - 1) =~= s1.drop_last());
    assert(s1.to_multiset().len() == s1.len());
    assert(s2.to_multiset().len() == s2.len());
    if s1.len() == 1 {
        assert(s2.len() == 1);
        assert(s2 =~= seq![x]);
        assert(s1 =~= seq![x]);
    } else {
        assert(s1.drop_last().to_multiset() == s2.remove(j).to_multiset());
        law_xor_order_free(s1.drop_last(), s2.remove(j));
        lemma_xor_fold_remove(s2, j);
    }
}

/// Adding the same number twice leaves the sled id unchanged.
pub proof fn law_xor_pair_cancels(s: Seq<i32>, a: i32)
    requires
        s.len() >= 1,
    ensures
        xor_fold(s + seq![a, a]) == xor_fold(s),
{
    let t = s + seq![a, a];
    assert(t.drop_last() =~= s.push(a));
    assert(s.push(a).drop_last() =~= s);
    assert(t.last() == a);
    assert(xor_fold(t) == xor_fold(s.push(a)) ^ a);
    assert(xor_fold(s.push(a)) == xor_fold(s) ^ a);
    lemma_xor_facts(xor_fold(s), a, 0);
}

/// Mapping two lists with the same items (as many times each) gives two lists
/// with the same items.
proof fn lemma_map_keeps_multiset<A, B>(s1: Seq<A>, s2: Seq<A>, f: spec_fn(A) -> B)
    requires
        s1.to_multiset() == s2.to_multiset(),
    ensures
        s1.map_values(f).to_multiset() == s2.map_values(f).to_multiset(),
    decreases s1.len(),
{
    broadcast use vstd::seq_lib::group_to_multiset_ensures;

    assert(s1.to_multiset().len() == s1.len());
    assert(s2.to_multiset().len() == s2.len());
    if s1.len() == 0 {
        assert(s1.map_values(f) =~= Seq::<B>::empty());
        assert(s2.map_values(f) =~= Seq::<B>::empty());
    } else {
        let x = s1.last();
        assert(s1.to_multiset().count(x) > 0) by {
            assert(s1.contains(x)) by {
                assert(s1[s1.len() - 1] == x);
            }
        }
        assert(s2.to_multiset().count(x) > 0);
        assert(s2.contains(x));
        let j = choose|j: int| 0 <= j < s2.len() && s2[j] == x;
        assert(s1.remove(s1.len() - 1) =~= s1.drop_last());
        assert(s1.drop_last().to_multiset() == s2.remove(j).to_multiset());
        lemma_map_keeps_multiset(s1.drop_last(), s2.remove(j), f);
        assert(s1.map_values(f) =~= s1.drop_last().map_values(f).push(f(x)));
        assert(s2.map_values(f).remove(j) =~= s2.remove(j).map_values(f));
        assert(s2.map_values(f)[j] == f(x));
        assert(s1.map_values(f).remove(s1.len() - 1) =~= s1.drop_last().map_values(f));
        assert(s1.map_values(f)[s1.len() - 1] == f(x));
    }
}

/// Two paths whose `/`-separated pieces are the same, in another order, get
/// the same sled id: where every piece of the first is a number, so is every
/// piece of the second, and the numbers XOR to the same value.
pub proof fn law_sled_id_path_order_free(args1: Seq<char>, args2: Seq<char>)
    requires
        split_on(args1, '/').to_multiset() == split_on(args2, '/').to_multiset(),
    ensures
        spec_sled_ids(args1) matches Ok(n1) ==> (spec_sled_ids(args2) matches Ok(n2) && xor_fold(n1)
            == xor_fold(n2)),
{
    broadcast use vstd::seq_lib::group_to_multiset_ensures;

    let p1 = split_on(args1, '/');
    let p2 = split_on(args2, '/');
    if spec_sled_ids(args1) is Ok {
        assert forall|i: int| 0 <= i < p2.len() implies spec_parse_i32(#[trigger] p2[i]) is Some by {
            assert(p2.contains(p2[i]));
            assert(p2.to_multiset().count(p2[i]) > 0);
            assert(p1.to_multiset().count(p2[i]) > 0);
            assert(p1.contains(p2[i]));
            let k = choose|k: int| 0 <= k < p1.len() && p1[k] == p2[i];
            assert(spec_parse_i32(p1[k]) is Some);
        }
        let f = |p: Seq<char>| spec_parse_i32(p)->0;
        let n1 = p1.map_values(f);
        let n2 = p2.map_values(f);
        assert(spec_sled_ids(args1)->Ok_0 =~= n1);
        assert(spec_sled_ids(args2)->Ok_0 =~= n2);
        lemma_map_keeps_multiset(p1, p2, f);
        lemma_split_on_nonempty(args1, '/');
        law_xor_order_free(n1, n2);
    }
}

/// Appending `/a/a` to a path, where `a` is a number, leaves its sled id
/// unchanged: the two equal numbers cancel in the XOR.
pub proof fn law_sled_id_pair_appended(args: Seq<char>, a: Seq<char>)
    requires
        forall|i: int| 0 <= i < a.len() ==> a[i] != '/',
        spec_parse_i32(a) is Some,
    ensures
        spec_sled_ids(args) matches Ok(n1) ==> (spec_sled_ids(args + seq!['/'] + a + seq!['/'] + a) matches Ok(n2)
            && xor_fold(n2) == xor_fold(n1)),
{
    let longer = args + seq!['/'] + a + seq!['/'] + a;
    lemma_split_on_append(args, '/', a);
    lemma_split_on_append(args + seq!['/'] + a, '/', a);
    let p1 = split_on(args, '/');
    let p2 = split_on(longer, '/');
    assert(p2 == p1.push(a).push(a));
    if spec_sled_ids(args) is Ok {
        assert forall|i: int| 0 <= i < p2.len() implies spec_parse_i32(#[trigger] p2[i]) is Some by {
            if i < p1.len() {
                assert(p2[i] == p1[i]);
            }
        }
        let f = |p: Seq<char>| spec_parse_i32(p)->0;
        let v = spec_parse_i32(a)->0;
        let n1 = p1.map_values(f);
        assert(spec_sled_ids(args)->Ok_0 =~= n1);
        assert(spec_sled_ids(longer)->Ok_0 =~= n1 + seq![v, v]);
        lemma_split_on_nonempty(args, '/');
        law_xor_pair_cancels(n1, v);
    }
}

} // verus!
