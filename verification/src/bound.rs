//! A counting argument: only finitely many distinct baskets exist whose
//! counts all lie below a common bound.  This bounds the length of the
//! explored-state table and so provides the termination measure for the
//! exploration loop.

use vstd::prelude::*;
use vstd::arithmetic::div_mod::lemma_fundamental_div_mod_converse;
use vstd::set_lib::lemma_len_subset;
use vstd::set_lib::lemma_int_range;
use vstd::set_lib::set_int_range;

use crate::basket::Candies;

verus! {

/// Encodes a basket as a single integer in mixed radix `base`.
/// Injective on baskets whose counts all lie in `[0, base)`.
pub open spec fn encode(b: Candies, base: int) -> int {
    (((b.eggs * base + b.worms) * base + b.cakes) * base + b.fishes) * base + b.meats
}

/// All five counts of `b` lie in `[0, base)`.
pub open spec fn below(b: Candies, base: int) -> bool {
    &&& 0 <= b.eggs < base
    &&& 0 <= b.worms < base
    &&& 0 <= b.cakes < base
    &&& 0 <= b.fishes < base
    &&& 0 <= b.meats < base
}

/// `base` raised to the fifth power: the number of available codes.
pub open spec fn pool(base: int) -> int {
    base * base * base * base * base
}

/// The code of a basket with counts below `base` lies in `[0, pool(base))`.
proof fn lemma_encode_range(b: Candies, base: int)
    requires
        base > 0,
        below(b, base),
    ensures
        0 <= encode(b, base) < pool(base),
{
    let v1 = b.eggs as int;
    let v2 = v1 * base + b.worms;
    let v3 = v2 * base + b.cakes;
    let v4 = v3 * base + b.fishes;
    let v5 = v4 * base + b.meats;
    assert(0 <= v2 < base * base) by (nonlinear_arith)
        requires
            base > 0,
            0 <= v1 < base,
            0 <= b.worms < base,
            v2 == v1 * base + b.worms;
    assert(0 <= v3 < base * base * base) by (nonlinear_arith)
        requires
            base > 0,
            0 <= v2 < base * base,
            0 <= b.cakes < base,
            v3 == v2 * base + b.cakes;
    assert(0 <= v4 < base * base * base * base) by (nonlinear_arith)
        requires
            base > 0,
            0 <= v3 < base * base * base,
            0 <= b.fishes < base,
            v4 == v3 * base + b.fishes;
    assert(0 <= v5 < base * base * base * base * base) by (nonlinear_arith)
        requires
            base > 0,
            0 <= v4 < base * base * base * base,
            0 <= b.meats < base,
            v5 == v4 * base + b.meats;
}

/// Two baskets with counts below `base` and equal codes are equal.
proof fn lemma_encode_injective(x: Candies, y: Candies, base: int)
    requires
        base > 0,
        below(x, base),
        below(y, base),
        encode(x, base) == encode(y, base),
    ensures
        x == y,
{
    let x4 = ((x.eggs * base + x.worms) * base + x.cakes) * base + x.fishes;
    let y4 = ((y.eggs * base + y.worms) * base + y.cakes) * base + y.fishes;
    lemma_fundamental_div_mod_converse(encode(x, base), base, x4, x.meats as int);
    lemma_fundamental_div_mod_converse(encode(y, base), base, y4, y.meats as int);
    assert(x4 == y4 && x.meats == y.meats);
    let x3 = (x.eggs * base + x.worms) * base + x.cakes;
    let y3 = (y.eggs * base + y.worms) * base + y.cakes;
    lemma_fundamental_div_mod_converse(x4, base, x3, x.fishes as int);
    lemma_fundamental_div_mod_converse(y4, base, y3, y.fishes as int);
    assert(x3 == y3 && x.fishes == y.fishes);
    let x2 = x.eggs * base + x.worms;
    let y2 = y.eggs * base + y.worms;
    lemma_fundamental_div_mod_converse(x3, base, x2, x.cakes as int);
    lemma_fundamental_div_mod_converse(y3, base, y2, y.cakes as int);
    assert(x2 == y2 && x.cakes == y.cakes);
    lemma_fundamental_div_mod_converse(x2, base, x.eggs as int, x.worms as int);
    lemma_fundamental_div_mod_converse(y2, base, y.eggs as int, y.worms as int);
    assert(x.eggs == y.eggs && x.worms == y.worms);
}

/// A sequence of pairwise-distinct baskets whose counts all lie below
/// `base` has at most `pool(base)` elements.
pub proof fn lemma_distinct_bounded(s: Seq<Candies>, base: int)
    requires
        base > 0,
        forall|i: int| 0 <= i < s.len() ==> below(#[trigger] s[i], base),
        forall|i: int, j: int| 0 <= i < j < s.len() ==> s[i] != s[j],
    ensures
        s.len() <= pool(base),
{
    let codes = s.map_values(|b: Candies| encode(b, base));
    assert forall|i: int, j: int|
        0 <= i < codes.len() && 0 <= j < codes.len() && i != j implies codes[i] != codes[j] by {
        if codes[i] == codes[j] {
            lemma_encode_injective(s[i], s[j], base);
        }
    }
    assert(codes.no_duplicates());
    codes.unique_seq_to_set();
    assert forall|i: int| 0 <= i < codes.len() implies 0 <= #[trigger] codes[i] < pool(base) by {
        lemma_encode_range(s[i], base);
    }
    let range = set_int_range(0, pool(base));
    lemma_int_range(0, pool(base));
    assert forall|c: int| codes.to_set().contains(c) implies range.contains(c) by {
        let i = choose|i: int| 0 <= i < codes.len() && codes[i] == c;
        assert(0 <= codes[i] < pool(base));
    }
    assert(codes.to_set().subset_of(range));
    lemma_len_subset(codes.to_set(), range);
}

} // verus!
