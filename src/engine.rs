//! The symbolic engine: binary decision diagrams of the `boolean_expression`
//! crate, with terminals labelled by bit positions.
//!
//! A handle (`BDDFunc`, a `usize`) stands for a boolean function of the
//! terminals. Over words, the function of a handle is the set of 32-bit words
//! `w` on which it evaluates true when each terminal `t` takes the value
//! `t < 32 && bit t of w`.
use crate::encoding::bit_of;
use boolean_expression::BDD;
use std::collections::HashMap;
use vstd::prelude::*;

verus! {

#[verifier::external_type_specification]
#[verifier::external_body]
#[verifier::reject_recursive_types(T)]
pub struct ExBDD<T: Clone + std::fmt::Debug + Eq + std::hash::Hash>(BDD<T>);

/// The functions that a diagram holds: each valid handle of `b`, mapped to
/// the set of words on which its function is true.
pub uninterp spec fn bdd_functions(b: BDD<u32>) -> Map<usize, Set<u32>>;

/// The terminal labels registered in `b` so far.
pub uninterp spec fn bdd_labels(b: BDD<u32>) -> Set<u32>;

/// Every label of `b` is a bit position of a 32-bit word.
pub open spec fn labels_are_bits(b: BDD<u32>) -> bool {
    forall|t: u32| bdd_labels(b).contains(t) ==> t < 32
}

/// The diagram `new` keeps every handle of `old` with the same function.
pub open spec fn keeps_functions(old: BDD<u32>, new: BDD<u32>) -> bool {
    forall|f: usize| #[trigger]
        bdd_functions(old).contains_key(f) ==> bdd_functions(new).contains_key(f)
            && bdd_functions(new)[f] == bdd_functions(old)[f]
}

/// The word `w` takes the value that `assignment` gives to each position it
/// names.
pub open spec fn agrees_with(w: u32, assignment: Map<u32, bool>) -> bool {
    forall|k: u32| #[trigger] assignment.contains_key(k) ==> bit_of(w, k) == assignment[k]
}

/// The words whose bit `t` is set.
pub open spec fn words_with_bit(t: u32) -> Set<u32> {
    Set::new(|w: u32| bit_of(w, t))
}

/// Relies on `BDD::new`: a diagram with no terminal yet.
#[verifier::external_body]
pub(crate) fn bdd_new() -> (r: BDD<u32>)
    ensures
        bdd_labels(r) == Set::<u32>::empty(),
{
    BDD::new()
}

/// Relies on `BDD::constant`: the handle of the constant function, which
/// leaves the diagram as it was.
#[verifier::external_body]
pub(crate) fn bdd_constant(b: &mut BDD<u32>, value: bool) -> (r: usize)
    ensures
        *final(b) == *old(b),
        bdd_functions(*final(b)).contains_key(r),
        bdd_functions(*final(b))[r] == (if value {
            Set::<u32>::full()
        } else {
            Set::<u32>::empty()
        }),
{
    b.constant(value)
}

/// Relies on `BDD::terminal`: the function that is true when terminal `t`
/// is; registers `t` as a label.
#[verifier::external_body]
pub(crate) fn bdd_terminal(b: &mut BDD<u32>, t: u32) -> (r: usize)
    requires
        t < 32,
    ensures
        keeps_functions(*old(b), *final(b)),
        bdd_labels(*final(b)) == bdd_labels(*old(b)).insert(t),
        bdd_functions(*final(b)).contains_key(r),
        bdd_functions(*final(b))[r] == words_with_bit(t),
{
    b.terminal(t)
}

/// Relies on `BDD::not`: the complement of a function.
#[verifier::external_body]
pub(crate) fn bdd_not(b: &mut BDD<u32>, f: usize) -> (r: usize)
    requires
        bdd_functions(*old(b)).contains_key(f),
    ensures
        keeps_functions(*old(b), *final(b)),
        bdd_labels(*final(b)) == bdd_labels(*old(b)),
        bdd_functions(*final(b)).contains_key(r),
        bdd_functions(*final(b))[r] == bdd_functions(*old(b))[f].complement(),
{
    b.not(f)
}

/// Relies on `BDD::and`: the conjunction of two functions.
#[verifier::external_body]
pub(crate) fn bdd_and(b: &mut BDD<u32>, f: usize, g: usize) -> (r: usize)
    requires
        bdd_functions(*old(b)).contains_key(f),
        bdd_functions(*old(b)).contains_key(g),
    ensures
        keeps_functions(*old(b), *final(b)),
        bdd_labels(*final(b)) == bdd_labels(*old(b)),
        bdd_functions(*final(b)).contains_key(r),
        bdd_functions(*final(b))[r] == bdd_functions(*old(b))[f].intersect(
            bdd_functions(*old(b))[g],
        ),
{
    b.and(f, g)
}

/// Relies on `BDD::or`: the disjunction of two functions.
#[verifier::external_body]
pub(crate) fn bdd_or(b: &mut BDD<u32>, f: usize, g: usize) -> (r: usize)
    requires
        bdd_functions(*old(b)).contains_key(f),
        bdd_functions(*old(b)).contains_key(g),
    ensures
        keeps_functions(*old(b), *final(b)),
        bdd_labels(*final(b)) == bdd_labels(*old(b)),
        bdd_functions(*final(b)).contains_key(r),
        bdd_functions(*final(b))[r] == bdd_functions(*old(b))[f].union(
            bdd_functions(*old(b))[g],
        ),
{
    b.or(f, g)
}

/// Relies on `BDD::sat_one`: `None` for the constant false function, else
/// the values of the terminals on one path to the true leaf; every word
/// that takes those values satisfies the function.
#[verifier::external_body]
pub(crate) fn bdd_sat_one(b: &BDD<u32>, f: usize) -> (r: Option<HashMap<u32, bool>>)
    requires
        bdd_functions(*b).contains_key(f),
        labels_are_bits(*b),
    ensures
        r is None <==> bdd_functions(*b)[f] == Set::<u32>::empty(),
        r matches Some(m) ==> m@.dom().subset_of(bdd_labels(*b)) && forall|w: u32|
            agrees_with(w, m@) ==> #[trigger] bdd_functions(*b)[f].contains(w),
{
    b.sat_one(f)
}

} // verus!
