//! The painter's order: triangles are drawn from the farthest to the nearest.
//!
//! A triangle's depth is the mean `z` of its projected corners, an `f64`,
//! handed over as its IEEE 754 bit pattern. Depths compare as `f64`s do: a NaN
//! is neither less nor greater than anything, and `-0.0` equals `0.0`.
use vstd::prelude::*;
use std::cmp::Ordering;

verus! {

/// The bit pattern without its sign bit.
pub open spec fn magnitude(bits: u64) -> u64 {
    bits % 0x8000_0000_0000_0000
}

/// The sign bit is set.
pub open spec fn is_negative(bits: u64) -> bool {
    bits >= 0x8000_0000_0000_0000
}

/// The bit pattern of a NaN: all exponent bits set and a non-zero fraction.
pub open spec fn is_nan_bits(bits: u64) -> bool {
    magnitude(bits) > 0x7ff0_0000_0000_0000
}

/// For a bit pattern that is not a NaN, a number that orders as the `f64`
/// does: binary64 values of one sign order as their magnitude bits.
pub open spec fn signed_magnitude(bits: u64) -> int {
    if is_negative(bits) {
        0 - magnitude(bits)
    } else {
        magnitude(bits) + 0
    }
}

/// `a < b` for the `f64` values with bit patterns `a` and `b`.
pub open spec fn depth_lt(a: u64, b: u64) -> bool {
    !is_nan_bits(a) && !is_nan_bits(b) && signed_magnitude(a) < signed_magnitude(b)
}

/// The order in which the painter wants two depths: the farther (greater) one first.
pub open spec fn depth_order(a: u64, b: u64) -> Ordering {
    if depth_lt(a, b) {
        Ordering::Greater
    } else if depth_lt(b, a) {
        Ordering::Less
    } else {
        Ordering::Equal
    }
}

/// No earlier entry is nearer than a later one.
pub open spec fn farthest_first(s: Seq<(u64, usize)>) -> bool {
    forall|i: int, j: int| 0 <= i < j < s.len() ==> !depth_lt(#[trigger] s[i].0, #[trigger] s[j].0)
}

/// No depth among the entries is a NaN.
pub open spec fn all_comparable(s: Seq<(u64, usize)>) -> bool {
    forall|i: int| 0 <= i < s.len() ==> !is_nan_bits(#[trigger] s[i].0)
}

/// `a < b` for the `f64` values with bit patterns `a` and `b`.
pub fn depth_less(a: u64, b: u64) -> (r: bool)
    ensures
        r == depth_lt(a, b),
{
    let ma: u64 = a % 0x8000_0000_0000_0000;
    let mb: u64 = b % 0x8000_0000_0000_0000;
    if ma > 0x7ff0_0000_0000_0000 || mb > 0x7ff0_0000_0000_0000 {
        return false;
    }
    let neg_a = a >= 0x8000_0000_0000_0000;
    let neg_b = b >= 0x8000_0000_0000_0000;
    if neg_a && neg_b {
        mb < ma
    } else if neg_a {
        !(ma == 0 && mb == 0)
    } else if neg_b {
        false
    } else {
        ma < mb
    }
}

/// Compares two depths for the painter: `Less` when `a` is to be drawn first,
/// that is when `a` is farther than `b`.
pub fn compare_depth(a: u64, b: u64) -> (o: Ordering)
    ensures
        o == depth_order(a, b),
{
    if depth_less(a, b) {
        Ordering::Greater
    } else if depth_less(b, a) {
        Ordering::Less
    } else {
        Ordering::Equal
    }
}

/// Sorts `(depth, index)` entries with `pdqsort::sort_by`, farthest depth first.
///
/// `pdqsort::sort_by` only swaps elements, so the entries come out as a
/// permutation of those that went in, whatever the comparisons; and when the
/// comparison is a total preorder on the entries (no depth is a NaN) they come
/// out sorted by it. Which of two equal entries comes first is not stated:
/// the sort is unstable.
#[verifier::external_body]
fn sort_far_to_near(entries: &mut Vec<(u64, usize)>)
    ensures
        final(entries)@.to_multiset() == old(entries)@.to_multiset(),
        all_comparable(old(entries)@) ==> farthest_first(final(entries)@),
{
    pdqsort::sort_by(entries.as_mut_slice(), |a: &(u64, usize), b: &(u64, usize)| compare_depth(a.0, b.0));
}

/// Whether `order` lists each position of `depths` once, no nearer depth
/// just before a farther one.
fn is_painter_order(depths: &Vec<u64>, order: &Vec<usize>) -> (ok: bool)
    ensures
        ok ==> order@.len() == depths@.len(),
        ok ==> forall|i: int| 0 <= i < order@.len() ==> #[trigger] order@[i] < depths@.len(),
        ok ==> order@.no_duplicates(),
        ok ==> forall|i: int|
            0 <= i < order@.len() - 1 ==> !depth_lt(
                depths@[#[trigger] order@[i] as int],
                depths@[order@[i + 1] as int],
            ),
{
    let n = depths.len();
    if order.len() != n {
        return false;
    }
    let mut seen: Vec<bool> = Vec::new();
    let mut k: usize = 0;
    while k < n
        invariant
            k <= n,
            seen@.len() == k,
            forall|j: int| 0 <= j < k ==> !#[trigger] seen@[j],
        decreases n - k,
    {
        seen.push(false);
        k = k + 1;
    }
    let mut i: usize = 0;
    while i < n
        invariant
            i <= n == depths@.len() == order@.len() == seen@.len(),
            forall|j: int| 0 <= j < i ==> #[trigger] order@[j] < n && seen@[order@[j] as int],
            forall|x: int|
                0 <= x < n && #[trigger] seen@[x] ==> exists|j: int|
                    #![trigger order@[j]]
                    0 <= j < i && order@[j] == x,
            forall|a: int, b: int| 0 <= a < b < i ==> order@[a] != order@[b],
            forall|j: int|
                0 <= j < i - 1 ==> !depth_lt(
                    depths@[#[trigger] order@[j] as int],
                    depths@[order@[j + 1] as int],
                ),
        decreases n - i,
    {
        let x = order[i];
        if x >= n || seen[x] {
            return false;
        }
        if i > 0 && depth_less(depths[order[i - 1]], depths[x]) {
            return false;
        }
        proof {
            assert forall|a: int| 0 <= a < i implies order@[a] != x by {
                assert(seen@[order@[a] as int]);
            }
        }
        seen.set(x, true);
        i = i + 1;
    }
    true
}

/// The positions of `depths`, each once, every one farther than or as far
/// as each that follows it (when a NaN is among the depths it is equal to all).
fn selection_order(depths: &Vec<u64>) -> (order: Vec<usize>)
    ensures
        order@.len() == depths@.len(),
        forall|i: int| 0 <= i < order@.len() ==> #[trigger] order@[i] < depths@.len(),
        order@.no_duplicates(),
        forall|i: int, j: int|
            0 <= i < j < order@.len() ==> !depth_lt(
                depths@[#[trigger] order@[i] as int],
                depths@[#[trigger] order@[j] as int],
            ),
{
    let n = depths.len();
    let mut rest: Vec<usize> = Vec::new();
    let mut k: usize = 0;
    while k < n
        invariant
            k <= n == depths@.len(),
            rest@.len() == k,
            forall|j: int| 0 <= j < k ==> #[trigger] rest@[j] == j,
        decreases n - k,
    {
        rest.push(k);
        k = k + 1;
    }
    let mut order: Vec<usize> = Vec::new();
    while rest.len() > 0
        invariant
            n == depths@.len(),
            order@.len() + rest@.len() == n,
            forall|i: int| 0 <= i < order@.len() ==> #[trigger] order@[i] < n,
            forall|i: int| 0 <= i < rest@.len() ==> #[trigger] rest@[i] < n,
            forall|a: int, b: int| 0 <= a < b < order@.len() ==> order@[a] != order@[b],
            forall|a: int, b: int| 0 <= a < b < rest@.len() ==> rest@[a] != rest@[b],
            forall|a: int, b: int|
                0 <= a < order@.len() && 0 <= b < rest@.len() ==> #[trigger] order@[a]
                    != #[trigger] rest@[b],
            forall|a: int, b: int|
                0 <= a < b < order@.len() ==> !depth_lt(
                    depths@[#[trigger] order@[a] as int],
                    depths@[#[trigger] order@[b] as int],
                ),
            forall|a: int, b: int|
                0 <= a < order@.len() && 0 <= b < rest@.len() ==> !depth_lt(
                    depths@[#[trigger] order@[a] as int],
                    depths@[#[trigger] rest@[b] as int],
                ),
        decreases rest.len(),
    {
        let mut best: usize = 0;
        let mut j: usize = 1;
        while j < rest.len()
            invariant
                n == depths@.len(),
                forall|i: int| 0 <= i < rest@.len() ==> #[trigger] rest@[i] < n,
                0 <= best < rest@.len(),
                1 <= j <= rest@.len(),
                best < j,
                forall|i: int|
                    0 <= i < j ==> !depth_lt(
                        depths@[rest@[best as int] as int],
                        depths@[#[trigger] rest@[i] as int],
                    ),
            decreases rest.len() - j,
        {
            if depth_less(depths[rest[best]], depths[rest[j]]) {
                best = j;
            }
            j = j + 1;
        }
        let ghost old_order = order@;
        let ghost old_rest = rest@;
        let x = rest.remove(best);
        order.push(x);
        proof {
            assert forall|i: int| 0 <= i < rest@.len() implies #[trigger] rest@[i] == (if i < best {
                old_rest[i]
            } else {
                old_rest[i + 1]
            }) by {}
            assert forall|a: int, b: int|
                0 <= a < order@.len() && 0 <= b < rest@.len() implies #[trigger] order@[a]
                != #[trigger] rest@[b] && !depth_lt(depths@[order@[a] as int], depths@[rest@[b] as int]) by {
                let ob = if b < best {
                    b
                } else {
                    b + 1
                };
                assert(rest@[b] == old_rest[ob]);
                if a < old_order.len() {
                    assert(order@[a] == old_order[a]);
                } else {
                    assert(order@[a] == old_rest[best as int]);
                }
            }
            assert forall|a: int, b: int| 0 <= a < b < order@.len() implies order@[a] != order@[b]
                && !depth_lt(depths@[order@[a] as int], depths@[order@[b] as int]) by {
                if b == old_order.len() {
                    assert(order@[b] == old_rest[best as int]);
                    assert(order@[a] == old_order[a]);
                }
            }
            assert forall|a: int, b: int| 0 <= a < b < rest@.len() implies rest@[a] != rest@[b] by {
                let oa = if a < best {
                    a
                } else {
                    a + 1
                };
                let ob = if b < best {
                    b
                } else {
                    b + 1
                };
                assert(rest@[a] == old_rest[oa]);
                assert(rest@[b] == old_rest[ob]);
            }
        }
    }
    proof {
        assert forall|a: int, b: int|
            0 <= a < order@.len() && 0 <= b < order@.len() && a != b implies order@[a]
            != order@[b] by {}
    }
    order
}

proof fn lemma_consecutive_order_is_total(depths: Seq<u64>, order: Seq<usize>)
    requires
        forall|i: int| 0 <= i < order.len() ==> #[trigger] order[i] < depths.len(),
        forall|k: int| 0 <= k < depths.len() ==> !is_nan_bits(#[trigger] depths[k]),
        forall|i: int|
            0 <= i < order.len() - 1 ==> !depth_lt(
                depths[#[trigger] order[i] as int],
                depths[order[i + 1] as int],
            ),
    ensures
        forall|i: int, j: int|
            0 <= i < j < order.len() ==> !depth_lt(
                depths[#[trigger] order[i] as int],
                depths[#[trigger] order[j] as int],
            ),
{
    assert forall|i: int, j: int| 0 <= i < j < order.len() implies signed_magnitude(
        depths[order[j] as int],
    ) <= signed_magnitude(depths[order[i] as int]) by {
        lemma_chain(depths, order, i, j);
    }
    assert forall|i: int, j: int| 0 <= i < j < order.len() implies !depth_lt(
        depths[#[trigger] order[i] as int],
        depths[#[trigger] order[j] as int],
    ) by {
        lemma_chain(depths, order, i, j);
    }
}

proof fn lemma_chain(depths: Seq<u64>, order: Seq<usize>, i: int, j: int)
    requires
        0 <= i < j < order.len(),
        forall|i: int| 0 <= i < order.len() ==> #[trigger] order[i] < depths.len(),
        forall|k: int| 0 <= k < depths.len() ==> !is_nan_bits(#[trigger] depths[k]),
        forall|i: int|
            0 <= i < order.len() - 1 ==> !depth_lt(
                depths[#[trigger] order[i] as int],
                depths[order[i + 1] as int],
            ),
    ensures
        signed_magnitude(depths[order[j] as int]) <= signed_magnitude(depths[order[i] as int]),
    decreases j - i,
{
    assert(!depth_lt(depths[order[j - 1] as int], depths[order[j] as int]));
    assert(!is_nan_bits(depths[order[j] as int]));
    assert(!is_nan_bits(depths[order[j - 1] as int]));
    if i < j - 1 {
        lemma_chain(depths, order, i, j - 1);
    }
}

/// The order in which to paint triangles with the given depths: a permutation
/// of their positions, farthest first when no depth is a NaN.
///
/// The entries are sorted with `pdqsort`; the result is then checked, and in
/// the event that the check fails, a selection of the farthest remaining depth,
/// over and over, gives the order instead.
pub fn painter_order(depths: &Vec<u64>) -> (order: Vec<usize>)
    ensures
        order@.len() == depths@.len(),
        forall|i: int| 0 <= i < order@.len() ==> #[trigger] order@[i] < depths@.len(),
        order@.no_duplicates(),
        (forall|k: int| 0 <= k < depths@.len() ==> !is_nan_bits(#[trigger] depths@[k])) ==> forall|
            i: int,
            j: int,
        |
            0 <= i < j < order@.len() ==> !depth_lt(
                depths@[#[trigger] order@[i] as int],
                depths@[#[trigger] order@[j] as int],
            ),
{
    let n = depths.len();
    let mut entries: Vec<(u64, usize)> = Vec::new();
    let mut k: usize = 0;
    while k < n
        invariant
            k <= n == depths@.len(),
            entries@.len() == k,
        decreases n - k,
    {
        entries.push((depths[k], k));
        k = k + 1;
    }
    sort_far_to_near(&mut entries);
    let mut sorted: Vec<usize> = Vec::new();
    let mut i: usize = 0;
    while i < entries.len()
        invariant
            i <= entries@.len(),
            sorted@.len() == i,
        decreases entries.len() - i,
    {
        sorted.push(entries[i].1);
        i = i + 1;
    }
    if is_painter_order(depths, &sorted) {
        proof {
            if forall|k: int| 0 <= k < depths@.len() ==> !is_nan_bits(#[trigger] depths@[k]) {
                lemma_consecutive_order_is_total(depths@, sorted@);
            }
        }
        sorted
    } else {
        selection_order(depths)
    }
}

/// Depths compare as a total preorder when none is a NaN: every depth is
/// equal to itself, `Less` one way is `Greater` the other, and the order is
/// transitive; a NaN compares `Equal` to every depth.
pub proof fn lemma_depth_order_total_preorder(a: u64, b: u64, c: u64)
    ensures
        depth_order(a, a) == Ordering::Equal,
        (depth_order(a, b) == Ordering::Less) == (depth_order(b, a) == Ordering::Greater),
        (depth_order(a, b) == Ordering::Equal) == (depth_order(b, a) == Ordering::Equal),
        !is_nan_bits(a) && !is_nan_bits(b) && !is_nan_bits(c) && depth_order(a, b)
            != Ordering::Greater && depth_order(b, c) != Ordering::Greater ==> depth_order(a, c)
            != Ordering::Greater,
        is_nan_bits(a) ==> depth_order(a, b) == Ordering::Equal,
{
}

/// Depths compare as `f64`s do on their bit patterns: two non-negative
/// numbers (sign bit clear) as their patterns, two negative ones the other way
/// round, and a negative number below a non-negative one unless both are zeros.
pub proof fn lemma_depth_lt_on_bits(a: u64, b: u64)
    requires
        !is_nan_bits(a),
        !is_nan_bits(b),
    ensures
        a < 0x8000_0000_0000_0000 && b < 0x8000_0000_0000_0000 ==> depth_lt(a, b) == (a < b),
        a >= 0x8000_0000_0000_0000 && b >= 0x8000_0000_0000_0000 ==> depth_lt(a, b) == (b < a),
        a >= 0x8000_0000_0000_0000 && b < 0x8000_0000_0000_0000 ==> depth_lt(a, b) == !(a
            == 0x8000_0000_0000_0000 && b == 0),
        a < 0x8000_0000_0000_0000 && b >= 0x8000_0000_0000_0000 ==> !depth_lt(a, b),
{
}

/// The two zeros are equal depths.
pub proof fn lemma_zeros_equal()
    ensures
        depth_order(0, 0x8000_0000_0000_0000) == Ordering::Equal,
{
}

} // verus!
