//! Bookkeeping of the derived category: boundedness of complexes and the objects and
//! morphisms that survive a Verdier quotient.

use crate::graded::{shift_fits, shift_spec};
use std::collections::HashMap;
use vstd::prelude::*;

verus! {

broadcast use vstd::std_specs::hash::group_hash_axioms;

/// A complex is perfect when its degrees span fewer than 1000 steps and every component has
/// dimension below 10000.
pub open spec fn perfect_spec(dims: Map<i32, usize>) -> bool {
    &&& forall|j: i32, k: i32| dims.contains_key(j) && dims.contains_key(k) ==> k - j < 1000
    &&& forall|k: i32| dims.contains_key(k) ==> #[trigger] dims[k] < 10000
}

/// The distance between any two degrees is an `i32`.
pub open spec fn degree_span_fits(dims: Map<i32, usize>) -> bool {
    forall|j: i32, k: i32| dims.contains_key(j) && dims.contains_key(k) ==> k - j <= i32::MAX
}

/// Check that a complex with the given dimensions is perfect (bounded and finite dimensional):
/// its lowest and highest degrees are less than 1000 apart and every component has dimension
/// below 10000. A complex with no degrees is perfect.
pub fn is_perfect_dimensions(dims: &HashMap<i32, usize>) -> (r: bool)
    requires
        degree_span_fits(dims@),
    ensures
        r == perfect_spec(dims@),
{
    let ghost m = dims@;
    let mut lo: i32 = 0;
    let mut hi: i32 = 0;
    let mut any: bool = false;
    let mut small: bool = true;
    let ghost mut seen: Set<i32> = Set::empty();
    for k in it: dims.keys()
        invariant
            m == dims@,
            it.seq().no_duplicates(),
            it.seq().unref().to_set() == m.dom(),
            forall|x: i32| seen.contains(x) <==> exists|j: int| 0 <= j < it.index() && *it.seq()[j] == x,
            seen.subset_of(m.dom()),
            forall|x: i32|
                m.dom().contains(x) && !seen.contains(x) ==> exists|j: int|
                    it.index() <= j < it.seq().len() && *it.seq()[j] == x,
            any == (seen.len() > 0),
            seen.finite(),
            any ==> seen.contains(lo) && seen.contains(hi),
            forall|x: i32| seen.contains(x) ==> lo <= x <= hi,
            small == (forall|x: i32| seen.contains(x) ==> m[x] < 10000),
    {
        let d = *dims.get(k).unwrap();
        if !any {
            lo = *k;
            hi = *k;
            any = true;
        } else {
            if *k < lo {
                lo = *k;
            }
            if *k > hi {
                hi = *k;
            }
        }
        proof {
            assert(m[*k] == d);
            if !small {
                let x0 = choose|x: i32| seen.contains(x) && !(m[x] < 10000);
                assert(seen.insert(*k).contains(x0));
            }
        }
        if d >= 10000 {
            small = false;
        }
        proof {
            seen = seen.insert(*k);
        }
    }
    assert(seen =~= m.dom());
    if !any {
        assert(m.dom() =~= Set::empty());
        return true;
    }
    assert(hi - lo <= i32::MAX);
    let span: i32 = hi - lo;
    let r = span < 1000 && small;
    proof {
        if !(span < 1000) {
            assert(m.contains_key(lo) && m.contains_key(hi));
        }
    }
    r
}

/// Number of objects below `i` that stay in the quotient.
pub open spec fn kept_before(removed: Seq<usize>, i: nat) -> nat
    decreases i,
{
    if i == 0 {
        0
    } else {
        kept_before(removed, (i - 1) as nat) + if removed.contains((i - 1) as usize) {
            0nat
        } else {
            1nat
        }
    }
}

/// Index of object `i` in the quotient, or none when it lies in the subcategory.
pub open spec fn quotient_index_spec(removed: Seq<usize>, i: nat) -> Option<usize> {
    if removed.contains(i as usize) {
        None
    } else {
        Some(kept_before(removed, i) as usize)
    }
}

/// Whether `x` occurs in `v`.
fn contains_index(v: &Vec<usize>, x: usize) -> (r: bool)
    ensures
        r == v@.contains(x),
{
    let mut i: usize = 0;
    while i < v.len()
        invariant
            0 <= i <= v.len(),
            forall|j: int| 0 <= j < i ==> v@[j] != x,
        decreases v.len() - i,
    {
        if v[i] == x {
            return true;
        }
        i = i + 1;
    }
    false
}

/// The objects of a Verdier quotient: object `i` of `num_objects` keeps its place among the
/// objects outside the subcategory `removed`, and objects of the subcategory are dropped.
pub fn quotient_object_indices(num_objects: usize, removed: &Vec<usize>) -> (r: Vec<Option<usize>>)
    ensures
        r@.len() == num_objects,
        forall|i: int| 0 <= i < num_objects ==> r@[i] == quotient_index_spec(removed@, i as nat),
{
    let mut map: Vec<Option<usize>> = Vec::new();
    let mut kept: usize = 0;
    let mut i: usize = 0;
    while i < num_objects
        invariant
            0 <= i <= num_objects,
            map@.len() == i,
            kept == kept_before(removed@, i as nat),
            kept <= i,
            forall|j: int| 0 <= j < i ==> map@[j] == quotient_index_spec(removed@, j as nat),
        decreases num_objects - i,
    {
        if contains_index(removed, i) {
            map.push(None);
        } else {
            map.push(Some(kept));
            kept = kept + 1;
        }
        i = i + 1;
    }
    map
}

/// Position in the quotient of an object index, or none when it is dropped or out of range.
pub open spec fn lookup_index(map: Seq<Option<usize>>, i: usize) -> Option<usize> {
    if i < map.len() {
        map[i as int]
    } else {
        None
    }
}

/// The morphisms among the first `upto` whose source and target both survive, in order, each as
/// (its index, new source, new target).
pub open spec fn surviving_morphisms(
    map: Seq<Option<usize>>,
    morphisms: Seq<(usize, usize)>,
    upto: nat,
) -> Seq<(usize, usize, usize)>
    decreases upto,
{
    if upto == 0 {
        Seq::empty()
    } else {
        let prev = surviving_morphisms(map, morphisms, (upto - 1) as nat);
        let m = morphisms[upto - 1];
        match (lookup_index(map, m.0), lookup_index(map, m.1)) {
            (Some(ns), Some(nt)) => prev.push(((upto - 1) as usize, ns, nt)),
            _ => prev,
        }
    }
}

/// The morphisms of a Verdier quotient: each morphism (source, target) whose two ends survive,
/// in order, as (its index, new source, new target) under the object map `map`.
pub fn quotient_morphisms(map: &Vec<Option<usize>>, morphisms: &Vec<(usize, usize)>) -> (r: Vec<
    (usize, usize, usize),
>)
    ensures
        r@ == surviving_morphisms(map@, morphisms@, morphisms@.len()),
{
    let mut out: Vec<(usize, usize, usize)> = Vec::new();
    let mut i: usize = 0;
    while i < morphisms.len()
        invariant
            0 <= i <= morphisms.len(),
            out@ == surviving_morphisms(map@, morphisms@, i as nat),
        decreases morphisms.len() - i,
    {
        let (s, t) = morphisms[i];
        let ns: Option<usize> = if s < map.len() {
            map[s]
        } else {
            None
        };
        let nt: Option<usize> = if t < map.len() {
            map[t]
        } else {
            None
        };
        match (ns, nt) {
            (Some(a), Some(b)) => {
                out.push((i, a, b));
            },
            _ => {},
        }
        i = i + 1;
    }
    out
}


/// The positions, in order, of the morphisms with the given source and target.
pub open spec fn positions_between(morphisms: Seq<(usize, usize)>, source: usize, target: usize, upto: nat) -> Seq<usize>
    decreases upto,
{
    if upto == 0 {
        Seq::empty()
    } else {
        let prev = positions_between(morphisms, source, target, (upto - 1) as nat);
        if morphisms[upto - 1].0 == source && morphisms[upto - 1].1 == target {
            prev.push((upto - 1) as usize)
        } else {
            prev
        }
    }
}

/// The positions of all morphisms from `source` to `target`, in the order they were added.
pub fn morphisms_between(morphisms: &Vec<(usize, usize)>, source: usize, target: usize) -> (r: Vec<usize>)
    ensures
        r@ == positions_between(morphisms@, source, target, morphisms@.len()),
{
    let mut out: Vec<usize> = Vec::new();
    let mut i: usize = 0;
    while i < morphisms.len()
        invariant
            0 <= i <= morphisms.len(),
            out@ == positions_between(morphisms@, source, target, i as nat),
        decreases morphisms.len() - i,
    {
        let (s, t) = morphisms[i];
        if s == source && t == target {
            out.push(i);
        }
        i = i + 1;
    }
    out
}


/// A shift of a perfect complex is perfect: shifting moves every degree by the same amount and
/// keeps every dimension.
pub proof fn lemma_shift_perfect(dims: Map<i32, usize>, n: i32)
    requires
        shift_fits(dims, n),
        perfect_spec(dims),
    ensures
        perfect_spec(shift_spec(dims, n)),
{
    let s = shift_spec(dims, n);
    assert forall|j: i32, k: i32| s.contains_key(j) && s.contains_key(k) implies k - j < 1000 by {
        assert(dims.contains_key((j - n) as i32) && dims.contains_key((k - n) as i32));
    }
    assert forall|k: i32| s.contains_key(k) implies #[trigger] s[k] < 10000 by {
        assert(dims.contains_key((k - n) as i32));
    }
}

/// With no subcategory, the Verdier quotient keeps every object in its place.
pub proof fn lemma_quotient_by_nothing(i: nat)
    ensures
        quotient_index_spec(Seq::empty(), i) == Some(i as usize),
{
    lemma_kept_before_nothing(i);
}

proof fn lemma_kept_before_nothing(i: nat)
    ensures
        kept_before(Seq::empty(), i) == i,
    decreases i,
{
    if i > 0 {
        lemma_kept_before_nothing((i - 1) as nat);
    }
}

} // verus!
