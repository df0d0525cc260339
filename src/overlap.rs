//! The overlap detector: one pass over the encodings, each tested against the
//! union of those before it.
use crate::encoding::{bit_of, Encoding};
use crate::engine::{
    agrees_with, bdd_and, bdd_constant, bdd_functions, bdd_labels, bdd_new, bdd_or, bdd_sat_one,
    keeps_functions, labels_are_bits,
};
use std::collections::HashMap;
use vstd::prelude::*;

verus! {

broadcast use vstd::std_specs::hash::group_hash_axioms;

/// Some word satisfies both `a` and `b`.
pub open spec fn overlaps(a: Encoding, b: Encoding) -> bool {
    exists|w: u32| a.matches(w) && b.matches(w)
}

/// The encoding at `j` overlaps one at an earlier index.
pub open spec fn conflicts_at(s: Seq<Encoding>, j: int) -> bool {
    exists|i: int| 0 <= i < j && #[trigger] overlaps(s[i], s[j])
}

/// Two encodings at distinct indices of `s` overlap.
pub open spec fn has_overlap(s: Seq<Encoding>) -> bool {
    exists|j: int| 0 <= j < s.len() && #[trigger] conflicts_at(s, j)
}

/// `j` is the first index of `s` whose encoding overlaps an earlier one.
pub open spec fn first_conflict_at(s: Seq<Encoding>, j: int) -> bool {
    &&& 0 <= j < s.len()
    &&& conflicts_at(s, j)
    &&& forall|k: int| 0 <= k < j ==> !#[trigger] conflicts_at(s, k)
}

/// `w` satisfies the encodings at two distinct indices of `s`.
pub open spec fn witnesses_overlap(s: Seq<Encoding>, w: u32) -> bool {
    exists|i: int, j: int|
        0 <= i < j < s.len() && #[trigger] s[i].matches(w) && #[trigger] s[j].matches(w)
}

/// `w` satisfies the first encoding of `s` that overlaps an earlier one, and
/// some encoding before it.
pub open spec fn witnesses_first_conflict(s: Seq<Encoding>, w: u32) -> bool {
    exists|j: int| first_conflict_at(s, j) && #[trigger] s[j].matches(w) && matched_before(s, j, w)
}

/// No word satisfies the encodings at two distinct indices of `s`.
pub open spec fn no_two_overlap(s: Seq<Encoding>) -> bool {
    forall|i: int, j: int|
        0 <= i < s.len() && 0 <= j < s.len() && i != j ==> !overlaps(
            #[trigger] s[i],
            #[trigger] s[j],
        )
}

/// Some encoding among the first `n` of `s` is satisfied by `w`.
pub open spec fn matched_before(s: Seq<Encoding>, n: int, w: u32) -> bool {
    exists|i: int| 0 <= i < n && #[trigger] s[i].matches(w)
}

/// Setting bit `i` of `r` leaves the other bits as they were.
proof fn lemma_set_bit(r: u32, i: u32, k: u32)
    requires
        i < 32,
        k < 32,
    ensures
        bit_of(r | (1u32 << i), k) == (bit_of(r, k) || k == i),
{
    assert((r | (1u32 << i)) & (1u32 << k) != 0 <==> (r & (1u32 << k) != 0 || k == i))
        by (bit_vector)
        requires
            i < 32,
            k < 32,
    ;
}

/// The zero word has no bit set.
proof fn lemma_zero_bits(k: u32)
    ensures
        !bit_of(0, k),
{
    assert(0u32 & (1u32 << k) == 0) by (bit_vector);
}

/// Packs an assignment of bit positions into a word: bit `k` is set exactly
/// when the assignment gives `k` the value true.
fn pack_assignment(assignment: &HashMap<u32, bool>) -> (r: u32)
    ensures
        forall|k: u32|
            k < 32 ==> #[trigger] bit_of(r, k) == (assignment@.contains_key(k) && assignment@[k]),
{
    let mut result: u32 = 0;
    let mut bit: u32 = 0;
    proof {
        assert forall|k: u32| #![trigger bit_of(result, k)] !bit_of(result, k) by {
            lemma_zero_bits(k);
        }
    }
    while bit < 32
        invariant
            bit <= 32,
            forall|k: u32| bit <= k < 32 ==> !#[trigger] bit_of(result, k),
            forall|k: u32|
                k < bit ==> #[trigger] bit_of(result, k) == (assignment@.contains_key(k)
                    && assignment@[k]),
        decreases 32 - bit,
    {
        let set = match assignment.get(&bit) {
            Some(value) => *value,
            None => false,
        };
        if set {
            let ghost prev = result;
            result = result | (1u32 << bit);
            proof {
                assert forall|k: u32| k < 32 implies #[trigger] bit_of(result, k) == (bit_of(
                    prev,
                    k,
                ) || k == bit) by {
                    lemma_set_bit(prev, bit, k);
                }
            }
        }
        bit += 1;
    }
    result
}

/// Looks for two encodings that some word satisfies at once. Returns `None`
/// when no two encodings overlap; otherwise stops at the first encoding that
/// overlaps an earlier one, and returns a word that satisfies both.
pub fn find_overlapping_encoding(encodings: &[Encoding]) -> (r: Option<u32>)
    ensures
        r is None <==> !has_overlap(encodings@),
        match r {
            None => no_two_overlap(encodings@),
            Some(w) => witnesses_first_conflict(encodings@, w) && witnesses_overlap(
                encodings@,
                w,
            ),
        },
{
    let ghost s = encodings@;
    let mut bdd = bdd_new();
    let mut any_encoding_func = bdd_constant(&mut bdd, false);
    proof {
        assert(bdd_functions(bdd)[any_encoding_func] =~= Set::new(
            |w: u32| matched_before(s, 0, w),
        ));
    }
    let mut idx: usize = 0;
    while idx < encodings.len()
        invariant
            s == encodings@,
            idx <= s.len(),
            labels_are_bits(bdd),
            bdd_functions(bdd).contains_key(any_encoding_func),
            bdd_functions(bdd)[any_encoding_func] == Set::new(
                |w: u32| matched_before(s, idx as int, w),
            ),
            forall|k: int| 0 <= k < idx ==> !#[trigger] conflicts_at(s, k),
        decreases s.len() - idx,
    {
        let encoding = &encodings[idx];
        let encoding_func = encoding.to_bdd(&mut bdd);
        let intersection = bdd_and(&mut bdd, encoding_func, any_encoding_func);
        let ghost inter = bdd_functions(bdd)[intersection];
        assert(inter == s[idx as int].words().intersect(
            Set::new(|w: u32| matched_before(s, idx as int, w)),
        ));
        match bdd_sat_one(&bdd, intersection) {
            Some(satisfying_assignment) => {
                let result = pack_assignment(&satisfying_assignment);
                proof {
                    assert forall|k: u32| #[trigger]
                        satisfying_assignment@.contains_key(k) implies bit_of(result, k)
                        == satisfying_assignment@[k] by {
                        assert(bdd_labels(bdd).contains(k));
                    }
                    assert(agrees_with(result, satisfying_assignment@));
                    assert(inter.contains(result));
                    assert(s[idx as int].matches(result));
                    let i = choose|i: int| 0 <= i < idx && #[trigger] s[i].matches(result);
                    assert(overlaps(s[i], s[idx as int]));
                    assert(conflicts_at(s, idx as int));
                    assert(first_conflict_at(s, idx as int));
                    assert(0 <= i < idx as int && s[i].matches(result) && s[idx as int].matches(
                        result,
                    ));
                    assert(witnesses_first_conflict(s, result));
                    assert(witnesses_overlap(s, result));
                }
                return Some(result);
            },
            None => {
                proof {
                    assert forall|i: int| 0 <= i < idx implies !#[trigger] overlaps(
                        s[i],
                        s[idx as int],
                    ) by {
                        if overlaps(s[i], s[idx as int]) {
                            let w = choose|w: u32| s[i].matches(w) && s[idx as int].matches(w);
                            assert(inter.contains(w));
                        }
                    }
                }
            },
        }
        any_encoding_func = bdd_or(&mut bdd, any_encoding_func, encoding_func);
        proof {
            assert forall|w: u32| #[trigger]
                bdd_functions(bdd)[any_encoding_func].contains(w) == matched_before(
                    s,
                    idx + 1,
                    w,
                ) by {
                if s[idx as int].matches(w) {
                    assert(matched_before(s, idx + 1, w));
                }
                if matched_before(s, idx + 1, w) {
                    let i = choose|i: int| 0 <= i < idx + 1 && #[trigger] s[i].matches(w);
                    if i < idx {
                        assert(matched_before(s, idx as int, w));
                    }
                }
            }
            assert(bdd_functions(bdd)[any_encoding_func] =~= Set::new(
                |w: u32| matched_before(s, idx + 1, w),
            ));
        }
        idx += 1;
    }
    proof {
        assert forall|i: int, j: int|
            0 <= i < s.len() && 0 <= j < s.len() && i != j implies !overlaps(
            #[trigger] s[i],
            #[trigger] s[j],
        ) by {
            if i < j {
                assert(!conflicts_at(s, j));
            } else {
                assert(!conflicts_at(s, i));
                assert(overlaps(s[j], s[i]) == overlaps(s[i], s[j]));
            }
        }
    }
    None
}

/// Some encoding of `s` overlaps `x`.
pub open spec fn overlaps_any(s: Seq<Encoding>, x: Encoding) -> bool {
    exists|k: int| 0 <= k < s.len() && #[trigger] overlaps(s[k], x)
}

/// Overlap is symmetric.
pub proof fn lemma_overlaps_symmetric(a: Encoding, b: Encoding)
    ensures
        overlaps(a, b) == overlaps(b, a),
{
    if overlaps(a, b) {
        let w = choose|w: u32| a.matches(w) && b.matches(w);
        assert(b.matches(w) && a.matches(w));
    }
    if overlaps(b, a) {
        let w = choose|w: u32| b.matches(w) && a.matches(w);
        assert(a.matches(w) && b.matches(w));
    }
}

/// A list has an overlap exactly when two encodings at distinct indices
/// overlap, in either order.
pub proof fn lemma_has_overlap_pairs(s: Seq<Encoding>)
    ensures
        has_overlap(s) == exists|a: int, b: int|
            0 <= a < s.len() && 0 <= b < s.len() && a != b && #[trigger] overlaps(s[a], s[b]),
{
    if exists|a: int, b: int|
        0 <= a < s.len() && 0 <= b < s.len() && a != b && #[trigger] overlaps(s[a], s[b]) {
        let (a, b) = choose|a: int, b: int|
            0 <= a < s.len() && 0 <= b < s.len() && a != b && #[trigger] overlaps(s[a], s[b]);
        if a < b {
            assert(conflicts_at(s, b));
        } else {
            lemma_overlaps_symmetric(s[a], s[b]);
            assert(conflicts_at(s, a));
        }
    }
    if has_overlap(s) {
        let j = choose|j: int| 0 <= j < s.len() && #[trigger] conflicts_at(s, j);
        let i = choose|i: int| 0 <= i < j && #[trigger] overlaps(s[i], s[j]);
        assert(overlaps(s[i], s[j]));
    }
}

/// Whether a list has an overlap, split on the element at `i`: either the
/// rest has one, or the element overlaps some other.
proof fn lemma_has_overlap_remove(t: Seq<Encoding>, i: int)
    requires
        0 <= i < t.len(),
    ensures
        has_overlap(t) == (has_overlap(t.remove(i)) || overlaps_any(t.remove(i), t[i])),
{
    let r = t.remove(i);
    lemma_has_overlap_pairs(t);
    lemma_has_overlap_pairs(r);
    if has_overlap(t) {
        let (a, b) = choose|a: int, b: int|
            0 <= a < t.len() && 0 <= b < t.len() && a != b && #[trigger] overlaps(t[a], t[b]);
        let a2 = if a < i { a } else { a - 1 };
        let b2 = if b < i { b } else { b - 1 };
        if a == i {
            lemma_overlaps_symmetric(t[a], t[b]);
            assert(r[b2] == t[b]);
            assert(overlaps(r[b2], t[i]));
        } else if b == i {
            assert(r[a2] == t[a]);
            assert(overlaps(r[a2], t[i]));
        } else {
            assert(r[a2] == t[a] && r[b2] == t[b]);
            assert(overlaps(r[a2], r[b2]));
        }
    }
    if has_overlap(r) {
        let (a, b) = choose|a: int, b: int|
            0 <= a < r.len() && 0 <= b < r.len() && a != b && #[trigger] overlaps(r[a], r[b]);
        let a2 = if a < i { a } else { a + 1 };
        let b2 = if b < i { b } else { b + 1 };
        assert(t[a2] == r[a] && t[b2] == r[b]);
        assert(overlaps(t[a2], t[b2]));
    }
    if overlaps_any(r, t[i]) {
        let k = choose|k: int| 0 <= k < r.len() && #[trigger] overlaps(r[k], t[i]);
        let k2 = if k < i { k } else { k + 1 };
        assert(t[k2] == r[k]);
        assert(overlaps(t[k2], t[i]));
    }
}

/// Whether some element overlaps `x` depends on the elements, not on their
/// order.
proof fn lemma_overlaps_any_multiset(s: Seq<Encoding>, t: Seq<Encoding>, x: Encoding)
    requires
        s.to_multiset() == t.to_multiset(),
    ensures
        overlaps_any(s, x) == overlaps_any(t, x),
{
    broadcast use vstd::seq_lib::group_to_multiset_ensures;

    if overlaps_any(s, x) {
        let k = choose|k: int| 0 <= k < s.len() && #[trigger] overlaps(s[k], x);
        assert(s.contains(s[k]));
        assert(t.to_multiset().count(s[k]) > 0);
        let k2 = t.index_of(s[k]);
        assert(overlaps(t[k2], x));
    }
    if overlaps_any(t, x) {
        let k = choose|k: int| 0 <= k < t.len() && #[trigger] overlaps(t[k], x);
        assert(t.contains(t[k]));
        assert(s.to_multiset().count(t[k]) > 0);
        let k2 = s.index_of(t[k]);
        assert(overlaps(s[k2], x));
    }
}

/// Whether a list has an overlap does not depend on the order of its
/// encodings: any permutation of it has one exactly when it does.
pub proof fn lemma_has_overlap_permutation(s: Seq<Encoding>, t: Seq<Encoding>)
    requires
        s.to_multiset() == t.to_multiset(),
    ensures
        has_overlap(s) == has_overlap(t),
    decreases s.len(),
{
    broadcast use vstd::seq_lib::group_to_multiset_ensures;

    if s.len() == 0 {
        assert(t.to_multiset().len() == 0);
        assert(!has_overlap(s));
        assert(!has_overlap(t));
    } else {
        let last = s.len() - 1;
        let x = s[last];
        assert(s.contains(x));
        assert(t.to_multiset().count(x) > 0);
        let i = t.index_of(x);
        let s2 = s.remove(last);
        let t2 = t.remove(i);
        assert(s2.to_multiset() =~= t2.to_multiset());
        lemma_has_overlap_permutation(s2, t2);
        lemma_overlaps_any_multiset(s2, t2, x);
        lemma_has_overlap_remove(s, last);
        lemma_has_overlap_remove(t, i);
    }
}

/// Appending a copy of an encoding already in a list gives a list with an
/// overlap: the copy overlaps the original.
pub proof fn lemma_duplicate_overlaps(s: Seq<Encoding>, k: int)
    requires
        0 <= k < s.len(),
    ensures
        has_overlap(s.push(s[k])),
{
    let t = s.push(s[k]);
    let j = s.len() as int;
    assert(t[k] == s[k] && t[j] == s[k]);
    assert(t[k].matches(s[k].bits) && t[j].matches(s[k].bits));
    assert(overlaps(t[k], t[j]));
    assert(conflicts_at(t, j));
}

/// Adding encodings, before or after, to a list that has an overlap gives a
/// list that still has one.
pub proof fn lemma_overlap_monotone(s: Seq<Encoding>, extra: Seq<Encoding>)
    requires
        has_overlap(s),
    ensures
        has_overlap(s + extra),
        has_overlap(extra + s),
{
    let j = choose|j: int| 0 <= j < s.len() && #[trigger] conflicts_at(s, j);
    let i = choose|i: int| 0 <= i < j && #[trigger] overlaps(s[i], s[j]);
    let after = s + extra;
    assert(after[i] == s[i] && after[j] == s[j]);
    assert(overlaps(after[i], after[j]));
    assert(conflicts_at(after, j));
    let before = extra + s;
    let n = extra.len() as int;
    assert(before[n + i] == s[i] && before[n + j] == s[j]);
    assert(overlaps(before[n + i], before[n + j]));
    assert(conflicts_at(before, n + j));
}

} // verus!
