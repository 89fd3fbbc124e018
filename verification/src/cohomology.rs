//! Betti tables of cohomology: Betti numbers from the ranks of the differentials, Poincaré
//! duality, triviality, the degrees that carry classes, and comparison of Betti tables.

use crate::graded::{
    dim_at, dim_spec, euler_spec, euler_term, lemma_sign_add, lemma_sum_add,
    lemma_sum_extend_zero, lemma_sum_reindex, lemma_sum_scale, sign_spec, strictly_sorted, sum_over,
};
use std::collections::HashMap;
use vstd::prelude::*;

verus! {

broadcast use vstd::std_specs::hash::group_hash_axioms;

/// Poincaré duality of dimension `dim`: `βₖ = β_{dim-k}` for every recorded degree `k`,
/// and `β_dim = 1`.
pub open spec fn poincare_duality_spec(betti: Map<i32, usize>, dim: i32) -> bool {
    &&& forall|k: i32| betti.contains_key(k) ==> betti[k] == dim_at(betti, dim - k)
    &&& dim_spec(betti, dim) == 1
}

/// Every complementary degree `dim - k` of a recorded degree is an `i32`.
pub open spec fn duality_fits(betti: Map<i32, usize>, dim: i32) -> bool {
    forall|k: i32| betti.contains_key(k) ==> i32::MIN <= #[trigger] (dim - k) <= i32::MAX
}

/// The recorded degrees with a nonzero Betti number.
pub open spec fn nonzero_degree_set(betti: Map<i32, usize>) -> Set<i32> {
    Set::new(|k: i32| betti.contains_key(k) && betti[k] > 0)
}

/// Check if this is a Poincaré duality algebra of dimension `dim`:
/// βₖ = β_{dim-k} for all k, and β_dim = 1.
pub fn check_poincare_duality(betti: &HashMap<i32, usize>, dim: i32) -> (r: bool)
    requires
        duality_fits(betti@, dim),
    ensures
        r == poincare_duality_spec(betti@, dim),
        r == ((forall|k: int| #[trigger] dim_at(betti@, k) == dim_at(betti@, dim - k)) && dim_at(
            betti@,
            dim as int,
        ) == 1),
{
    proof {
        lemma_poincare_duality_symmetric(betti@, dim);
    }
    let ghost m = betti@;
    let ghost mut seen: Set<i32> = Set::empty();
    for k in it: betti.keys()
        invariant
            m == betti@,
            duality_fits(m, dim),
            it.seq().no_duplicates(),
            it.seq().unref().to_set() == m.dom(),
            forall|x: i32| seen.contains(x) <==> exists|j: int| 0 <= j < it.index() && *it.seq()[j] == x,
            seen.subset_of(m.dom()),
            forall|x: i32|
                m.dom().contains(x) && !seen.contains(x) ==> exists|j: int|
                    it.index() <= j < it.seq().len() && *it.seq()[j] == x,
            forall|x: i32| seen.contains(x) ==> m[x] == dim_at(m, dim - x),
    {
        let b = *betti.get(k).unwrap();
        proof {
            assert(m.contains_key(*k));
            assert(i32::MIN <= dim - *k <= i32::MAX);
        }
        let c: i32 = dim - *k;
        let b_complement: usize = match betti.get(&c) {
            Some(v) => *v,
            None => 0,
        };
        if b != b_complement {
            proof {
                lemma_poincare_duality_symmetric(betti@, dim);
            }
            return false;
        }
        proof {
            seen = seen.insert(*k);
        }
    }
    assert(seen =~= m.dom());
    match betti.get(&dim) {
        Some(v) => *v == 1,
        None => false,
    }
}

/// Check if the cohomology is trivial (all Betti numbers zero).
pub fn is_trivial(betti: &HashMap<i32, usize>) -> (r: bool)
    ensures
        r == (forall|k: i32| betti@.contains_key(k) ==> betti@[k] == 0),
{
    let ghost m = betti@;
    let ghost mut seen: Set<i32> = Set::empty();
    for k in it: betti.keys()
        invariant
            m == betti@,
            it.seq().no_duplicates(),
            it.seq().unref().to_set() == m.dom(),
            forall|x: i32| seen.contains(x) <==> exists|j: int| 0 <= j < it.index() && *it.seq()[j] == x,
            seen.subset_of(m.dom()),
            forall|x: i32|
                m.dom().contains(x) && !seen.contains(x) ==> exists|j: int|
                    it.index() <= j < it.seq().len() && *it.seq()[j] == x,
            forall|x: i32| seen.contains(x) ==> m[x] == 0,
    {
        let b = *betti.get(k).unwrap();
        if b != 0 {
            return false;
        }
        proof {
            seen = seen.insert(*k);
        }
    }
    assert(seen =~= m.dom());
    true
}

/// Degrees where cohomology is nonzero, in increasing order.
pub fn nonzero_degrees(betti: &HashMap<i32, usize>) -> (r: Vec<i32>)
    ensures
        strictly_sorted(r@),
        r@.to_set() == nonzero_degree_set(betti@),
{
    let ghost m = betti@;
    let mut ds: Vec<i32> = Vec::new();
    let ghost mut seen: Set<i32> = Set::empty();
    for k in it: betti.keys()
        invariant
            m == betti@,
            it.seq().no_duplicates(),
            it.seq().unref().to_set() == m.dom(),
            forall|x: i32| seen.contains(x) <==> exists|j: int| 0 <= j < it.index() && *it.seq()[j] == x,
            seen.subset_of(m.dom()),
            forall|x: i32|
                m.dom().contains(x) && !seen.contains(x) ==> exists|j: int|
                    it.index() <= j < it.seq().len() && *it.seq()[j] == x,
            strictly_sorted(ds@),
            ds@.to_set() == nonzero_degree_set(m).intersect(seen),
    {
        let x: i32 = *k;
        let b = *betti.get(k).unwrap();
        proof {
            assert(!seen.contains(x));
        }
        if b > 0 {
            let mut pos: usize = 0;
            while pos < ds.len() && ds[pos] < x
                invariant
                    0 <= pos <= ds.len(),
                    forall|i: int| 0 <= i < pos ==> ds@[i] < x,
                decreases ds.len() - pos,
            {
                pos = pos + 1;
            }
            proof {
                if pos < ds.len() {
                    assert(ds@[pos as int] != x) by {
                        assert(ds@.to_set().contains(ds@[pos as int]));
                    }
                }
            }
            let ghost old_ds = ds@;
            ds.insert(pos, x);
            proof {
                assert forall|i: int, j: int| 0 <= i < j < ds@.len() implies ds@[i] < ds@[j] by {
                    if j < pos {
                    } else if j == pos {
                    } else if i < pos {
                        assert(old_ds[i] < x);
                        assert(x <= old_ds[pos as int]);
                        assert(old_ds[pos as int] <= old_ds[j - 1]);
                    } else if i == pos {
                        assert(x <= old_ds[pos as int]);
                    } else {
                    }
                }
                let target = nonzero_degree_set(m).intersect(seen.insert(x));
                assert forall|y: i32| ds@.to_set().contains(y) <==> target.contains(y) by {
                    if target.contains(y) && y != x {
                        assert(old_ds.to_set().contains(y));
                        let i = choose|i: int| 0 <= i < old_ds.len() && old_ds[i] == y;
                        if i < pos {
                            assert(ds@[i] == y);
                        } else {
                            assert(ds@[i + 1] == y);
                        }
                    }
                    if y == x {
                        assert(ds@[pos as int] == x);
                    }
                    if ds@.to_set().contains(y) {
                        let i = choose|i: int| 0 <= i < ds@.len() && ds@[i] == y;
                        if i < pos {
                            assert(old_ds[i] == y);
                            assert(old_ds.to_set().contains(y));
                        } else if i > pos {
                            assert(old_ds[i - 1] == y);
                            assert(old_ds.to_set().contains(y));
                        }
                    }
                }
                assert(ds@.to_set() =~= target);
            }
        } else {
            proof {
                assert(ds@.to_set() =~= nonzero_degree_set(m).intersect(seen.insert(x)));
            }
        }
        proof {
            seen = seen.insert(x);
        }
    }
    assert(seen =~= m.dom());
    assert(nonzero_degree_set(m).intersect(seen) =~= nonzero_degree_set(m));
    ds
}


/// Two Betti tables give the same Betti number in every degree (a missing degree counts as 0).
pub open spec fn same_betti_spec(a: Map<i32, usize>, b: Map<i32, usize>) -> bool {
    forall|k: i32| #[trigger] dim_spec(a, k) == dim_spec(b, k)
}

/// Check that two Betti tables agree in every degree, a degree missing from one table
/// counting as Betti number 0: the test by which complexes are compared up to
/// quasi-isomorphism.
pub fn same_betti_numbers(a: &HashMap<i32, usize>, b: &HashMap<i32, usize>) -> (r: bool)
    ensures
        r == same_betti_spec(a@, b@),
{
    let ghost ma = a@;
    let ghost mb = b@;
    let ghost mut seen: Set<i32> = Set::empty();
    for k in it: a.keys()
        invariant
            ma == a@,
            mb == b@,
            it.seq().no_duplicates(),
            it.seq().unref().to_set() == ma.dom(),
            forall|x: i32| seen.contains(x) <==> exists|j: int| 0 <= j < it.index() && *it.seq()[j] == x,
            seen.subset_of(ma.dom()),
            forall|x: i32|
                ma.dom().contains(x) && !seen.contains(x) ==> exists|j: int|
                    it.index() <= j < it.seq().len() && *it.seq()[j] == x,
            forall|x: i32| seen.contains(x) ==> dim_spec(ma, x) == dim_spec(mb, x),
    {
        let va = *a.get(k).unwrap();
        let vb: usize = match b.get(k) {
            Some(v) => *v,
            None => 0,
        };
        if va != vb {
            assert(dim_spec(ma, *k) != dim_spec(mb, *k));
            return false;
        }
        proof {
            seen = seen.insert(*k);
        }
    }
    assert(seen =~= ma.dom());
    let ghost mut seen_b: Set<i32> = Set::empty();
    for k in it: b.keys()
        invariant
            ma == a@,
            mb == b@,
            forall|x: i32| ma.contains_key(x) ==> dim_spec(ma, x) == dim_spec(mb, x),
            it.seq().no_duplicates(),
            it.seq().unref().to_set() == mb.dom(),
            forall|x: i32| seen_b.contains(x) <==> exists|j: int| 0 <= j < it.index() && *it.seq()[j] == x,
            seen_b.subset_of(mb.dom()),
            forall|x: i32|
                mb.dom().contains(x) && !seen_b.contains(x) ==> exists|j: int|
                    it.index() <= j < it.seq().len() && *it.seq()[j] == x,
            forall|x: i32| seen_b.contains(x) ==> dim_spec(ma, x) == dim_spec(mb, x),
    {
        let vb = *b.get(k).unwrap();
        let va: usize = match a.get(k) {
            Some(v) => *v,
            None => 0,
        };
        if va != vb {
            assert(dim_spec(ma, *k) != dim_spec(mb, *k));
            return false;
        }
        proof {
            seen_b = seen_b.insert(*k);
        }
    }
    assert(seen_b =~= mb.dom());
    assert forall|k: i32| #[trigger] dim_spec(ma, k) == dim_spec(mb, k) by {
        if !ma.contains_key(k) && !mb.contains_key(k) {
        } else if ma.contains_key(k) {
        } else {
            assert(seen_b.contains(k));
        }
    }
    true
}

/// Having the same Betti numbers is an equivalence relation: reflexive, symmetric and
/// transitive, so isomorphism classes of complexes by cohomology are well defined.
pub proof fn lemma_same_betti_equivalence(a: Map<i32, usize>, b: Map<i32, usize>, c: Map<i32, usize>)
    ensures
        same_betti_spec(a, a),
        same_betti_spec(a, b) == same_betti_spec(b, a),
        same_betti_spec(a, b) && same_betti_spec(b, c) ==> same_betti_spec(a, c),
{
    if same_betti_spec(a, b) && same_betti_spec(b, c) {
        assert forall|k: i32| #[trigger] dim_spec(a, k) == dim_spec(c, k) by {
            assert(dim_spec(a, k) == dim_spec(b, k));
            assert(dim_spec(b, k) == dim_spec(c, k));
        }
    }
    if same_betti_spec(a, b) {
        assert forall|k: i32| #[trigger] dim_spec(b, k) == dim_spec(a, k) by {
            assert(dim_spec(a, k) == dim_spec(b, k));
        }
    }
    if same_betti_spec(b, a) {
        assert forall|k: i32| #[trigger] dim_spec(a, k) == dim_spec(b, k) by {
            assert(dim_spec(b, k) == dim_spec(a, k));
        }
    }
}


/// Kernel dimension of `dₖ`: as recorded, or all of `Cᵏ` when there is no differential.
pub open spec fn kernel_at(dims: Map<i32, usize>, kernels: Map<i32, usize>, k: i32) -> int {
    if kernels.contains_key(k) {
        kernels[k] as int
    } else {
        dim_spec(dims, k) as int
    }
}

/// Image dimension of `dₖ₋₁`: as recorded, or 0 when there is no differential.
pub open spec fn image_before(images: Map<i32, usize>, k: i32) -> int {
    if k > i32::MIN && images.contains_key((k - 1) as i32) {
        images[(k - 1) as i32] as int
    } else {
        0
    }
}

/// Betti numbers `βₖ = dim ker dₖ - dim im dₖ₋₁` (0 if the image is the larger), in every
/// degree of the complex.
pub open spec fn betti_spec(
    dims: Map<i32, usize>,
    kernels: Map<i32, usize>,
    images: Map<i32, usize>,
) -> Map<i32, usize> {
    Map::new(
        |k: i32| dims.contains_key(k),
        |k: i32|
            if kernel_at(dims, kernels, k) >= image_before(images, k) {
                (kernel_at(dims, kernels, k) - image_before(images, k)) as usize
            } else {
                0usize
            },
    )
}

/// Betti numbers of a complex from its dimensions and the ranks of its differentials:
/// `kernels[k]` is `dim ker dₖ` and `images[k]` is `dim im dₖ` for each differential `dₖ`
/// present. In each degree `k` of the complex, `βₖ = dim ker dₖ - dim im dₖ₋₁`, or 0 when the
/// image is the larger; a missing `dₖ` has all of `Cᵏ` as kernel, a missing `dₖ₋₁` has no image.
pub fn betti_numbers_from_ranks(
    dims: &HashMap<i32, usize>,
    kernels: &HashMap<i32, usize>,
    images: &HashMap<i32, usize>,
) -> (r: HashMap<i32, usize>)
    requires
        forall|k: i32| dims@.contains_key(k) ==> k > i32::MIN,
    ensures
        r@ == betti_spec(dims@, kernels@, images@),
{
    let ghost m = dims@;
    let ghost target = betti_spec(dims@, kernels@, images@);
    let mut betti: HashMap<i32, usize> = HashMap::new();
    let ghost mut seen: Set<i32> = Set::empty();
    assert(betti@ =~= target.restrict(seen));
    for k in it: dims.keys()
        invariant
            m == dims@,
            target == betti_spec(dims@, kernels@, images@),
            forall|x: i32| m.contains_key(x) ==> x > i32::MIN,
            it.seq().no_duplicates(),
            it.seq().unref().to_set() == m.dom(),
            forall|x: i32| seen.contains(x) <==> exists|j: int| 0 <= j < it.index() && *it.seq()[j] == x,
            seen.subset_of(m.dom()),
            forall|x: i32|
                m.dom().contains(x) && !seen.contains(x) ==> exists|j: int|
                    it.index() <= j < it.seq().len() && *it.seq()[j] == x,
            betti@ == target.restrict(seen),
    {
        let dk = *dims.get(k).unwrap();
        proof {
            assert(m.contains_key(*k));
        }
        let ker: usize = match kernels.get(k) {
            Some(v) => *v,
            None => dk,
        };
        let prev: i32 = *k - 1;
        let im: usize = match images.get(&prev) {
            Some(v) => *v,
            None => 0,
        };
        let b: usize = if ker >= im {
            ker - im
        } else {
            0
        };
        betti.insert(*k, b);
        proof {
            seen = seen.insert(*k);
            assert(betti@ =~= target.restrict(seen));
        }
    }
    assert(seen =~= m.dom());
    assert(target.restrict(seen) =~= target);
    betti
}

/// A morphism induces an isomorphism on cohomology, as far as dimensions show: in every degree
/// the two Betti numbers agree, and where they are nonzero the map of that degree is present
/// with rank at least the Betti number.
pub open spec fn cohomology_iso_spec(
    source: Map<i32, usize>,
    target: Map<i32, usize>,
    ranks: Map<i32, usize>,
) -> bool {
    forall|k: i32|
        #![trigger dim_spec(source, k)]
        dim_spec(source, k) == dim_spec(target, k) && (dim_spec(source, k) > 0 ==> ranks.contains_key(
            k,
        ) && ranks[k] >= dim_spec(source, k))
}

/// Check that a morphism induces an isomorphism on cohomology, from the Betti numbers of
/// source and target and the rank of the map in each degree where it is given.
pub fn induces_cohomology_iso(
    source_betti: &HashMap<i32, usize>,
    target_betti: &HashMap<i32, usize>,
    ranks: &HashMap<i32, usize>,
) -> (r: bool)
    ensures
        r == cohomology_iso_spec(source_betti@, target_betti@, ranks@),
        (forall|k: i32| dim_spec(source_betti@, k) == dim_spec(target_betti@, k)) && (forall|k: i32|
            source_betti@.contains_key(k) && source_betti@[k] > 0 ==> ranks@.contains_key(k)
                && ranks@[k] >= source_betti@[k]) ==> r,
        r ==> forall|k: i32| dim_spec(source_betti@, k) == dim_spec(target_betti@, k),
        r ==> forall|k: i32|
            #[trigger] dim_spec(source_betti@, k) > 0 ==> ranks@.contains_key(k) && ranks@[k] >= dim_spec(
                source_betti@,
                k,
            ),
{
    proof {
        lemma_iso_from_ranks(source_betti@, target_betti@, ranks@);
    }
    let ghost ms = source_betti@;
    let ghost mt = target_betti@;
    let ghost mr = ranks@;
    if !same_betti_numbers(source_betti, target_betti) {
        assert(!same_betti_spec(ms, mt));
        let ghost k0 = choose|k: i32| dim_spec(ms, k) != dim_spec(mt, k);
        assert(dim_spec(ms, k0) != dim_spec(mt, k0));
        return false;
    }
    let ghost mut seen: Set<i32> = Set::empty();
    for k in it: source_betti.keys()
        invariant
            ms == source_betti@,
            mt == target_betti@,
            mr == ranks@,
            same_betti_spec(ms, mt),
            it.seq().no_duplicates(),
            it.seq().unref().to_set() == ms.dom(),
            forall|x: i32| seen.contains(x) <==> exists|j: int| 0 <= j < it.index() && *it.seq()[j] == x,
            seen.subset_of(ms.dom()),
            forall|x: i32|
                ms.dom().contains(x) && !seen.contains(x) ==> exists|j: int|
                    it.index() <= j < it.seq().len() && *it.seq()[j] == x,
            forall|x: i32|
                seen.contains(x) ==> (dim_spec(ms, x) > 0 ==> mr.contains_key(x) && mr[x] >= dim_spec(
                    ms,
                    x,
                )),
    {
        let b = *source_betti.get(k).unwrap();
        if b > 0 {
            match ranks.get(k) {
                Some(rk) => {
                    if *rk < b {
                        assert(dim_spec(ms, *k) == b);
                        return false;
                    }
                },
                None => {
                    assert(dim_spec(ms, *k) == b);
                    return false;
                },
            }
        }
        proof {
            seen = seen.insert(*k);
        }
    }
    assert(seen =~= ms.dom());
    assert forall|k: i32|
        #![trigger dim_spec(ms, k)]
        dim_spec(ms, k) == dim_spec(mt, k) && (dim_spec(ms, k) > 0 ==> mr.contains_key(k) && mr[k]
            >= dim_spec(ms, k)) by {
        assert(dim_spec(ms, k) == dim_spec(mt, k));
        if dim_spec(ms, k) > 0 {
            assert(ms.contains_key(k));
            assert(seen.contains(k));
        }
    }
    true
}


/// Equal Betti numbers in every degree, and in every degree with classes a map of rank at
/// least the Betti number, make an isomorphism on cohomology; conversely an isomorphism on
/// cohomology has equal Betti numbers in every degree.
pub proof fn lemma_iso_from_ranks(source: Map<i32, usize>, target: Map<i32, usize>, ranks: Map<i32, usize>)
    ensures
        (forall|k: i32| dim_spec(source, k) == dim_spec(target, k)) && (forall|k: i32|
            source.contains_key(k) && source[k] > 0 ==> ranks.contains_key(k) && ranks[k] >= source[k])
            ==> cohomology_iso_spec(source, target, ranks),
        cohomology_iso_spec(source, target, ranks) ==> forall|k: i32|
            dim_spec(source, k) == dim_spec(target, k),
        cohomology_iso_spec(source, target, ranks) ==> forall|k: i32|
            #[trigger] dim_spec(source, k) > 0 ==> ranks.contains_key(k) && ranks[k] >= dim_spec(source, k),
{
    if (forall|k: i32| dim_spec(source, k) == dim_spec(target, k)) && (forall|k: i32|
        source.contains_key(k) && source[k] > 0 ==> ranks.contains_key(k) && ranks[k] >= source[k]) {
        assert forall|k: i32|
            #![trigger dim_spec(source, k)]
            dim_spec(source, k) == dim_spec(target, k) && (dim_spec(source, k) > 0
                ==> ranks.contains_key(k) && ranks[k] >= dim_spec(source, k)) by {
            assert(dim_spec(source, k) == dim_spec(target, k));
            if dim_spec(source, k) > 0 {
                assert(source.contains_key(k) && source[k] > 0);
            }
        }
    }
    if cohomology_iso_spec(source, target, ranks) {
        assert forall|k: i32| dim_spec(source, k) == dim_spec(target, k) by {
            assert(dim_spec(source, k) == dim_spec(target, k));
        }
    }
}

/// Raising the rank of the map in any degree never turns an isomorphism on cohomology into a
/// non-isomorphism.
pub proof fn lemma_iso_monotone_in_ranks(
    source: Map<i32, usize>,
    target: Map<i32, usize>,
    ranks: Map<i32, usize>,
    higher: Map<i32, usize>,
)
    requires
        cohomology_iso_spec(source, target, ranks),
        forall|k: i32| ranks.contains_key(k) ==> higher.contains_key(k) && #[trigger] ranks[k] <= higher[k],
    ensures
        cohomology_iso_spec(source, target, higher),
{
    assert forall|k: i32|
        #![trigger dim_spec(source, k)]
        dim_spec(source, k) == dim_spec(target, k) && (dim_spec(source, k) > 0
            ==> higher.contains_key(k) && higher[k] >= dim_spec(source, k)) by {
        assert(dim_spec(source, k) == dim_spec(target, k));
        if dim_spec(source, k) > 0 {
            assert(ranks.contains_key(k) && ranks[k] >= dim_spec(source, k));
            assert(ranks[k] <= higher[k]);
        }
    }
}

/// Poincaré duality reads the Betti number of each degree, a missing degree counting as 0:
/// it holds exactly when `βₖ = β_{dim-k}` for every integer `k` and `β_dim = 1`.
pub proof fn lemma_poincare_duality_symmetric(betti: Map<i32, usize>, dim: i32)
    ensures
        poincare_duality_spec(betti, dim) <==> ((forall|k: int| #[trigger] dim_at(betti, k) == dim_at(betti, dim - k))
            && dim_at(betti, dim as int) == 1),
{
    if poincare_duality_spec(betti, dim) {
        assert forall|k: int| #[trigger] dim_at(betti, k) == dim_at(betti, dim - k) by {
            if i32::MIN <= k <= i32::MAX && betti.contains_key(k as i32) {
                assert(betti[k as i32] == dim_at(betti, dim - (k as i32)));
            } else {
                let j = dim - k;
                if i32::MIN <= j <= i32::MAX && betti.contains_key(j as i32) {
                    assert(betti[j as i32] == dim_at(betti, dim - (j as i32)));
                    assert(dim - (j as i32) == k);
                }
            }
        }
    }
    if (forall|k: int| #[trigger] dim_at(betti, k) == dim_at(betti, dim - k)) && dim_at(betti, dim as int) == 1 {
        assert forall|k: i32| betti.contains_key(k) implies betti[k] == dim_at(betti, dim - k) by {
            assert(dim_at(betti, k as int) == dim_at(betti, dim - k));
        }
    }
}

/// Degrees recorded with Betti number 0 make no difference to Poincaré duality: two tables with
/// the same Betti number in every degree pass or fail together.
pub proof fn lemma_poincare_duality_ignores_zeros(a: Map<i32, usize>, b: Map<i32, usize>, dim: i32)
    requires
        forall|k: i32| #[trigger] dim_spec(a, k) == dim_spec(b, k),
    ensures
        poincare_duality_spec(a, dim) == poincare_duality_spec(b, dim),
{
    lemma_poincare_duality_symmetric(a, dim);
    lemma_poincare_duality_symmetric(b, dim);
    assert forall|k: int| #[trigger] dim_at(a, k) == dim_at(b, k) by {
        if i32::MIN <= k <= i32::MAX {
            assert(dim_spec(a, k as i32) == dim_spec(b, k as i32));
        }
    }
    if forall|k: int| #[trigger] dim_at(a, k) == dim_at(a, dim - k) {
        assert forall|k: int| #[trigger] dim_at(b, k) == dim_at(b, dim - k) by {
            assert(dim_at(a, k) == dim_at(a, dim - k));
            assert(dim_at(a, dim - k) == dim_at(b, dim - k));
        }
    }
    if forall|k: int| #[trigger] dim_at(b, k) == dim_at(b, dim - k) {
        assert forall|k: int| #[trigger] dim_at(a, k) == dim_at(a, dim - k) by {
            assert(dim_at(b, k) == dim_at(b, dim - k));
            assert(dim_at(a, dim - k) == dim_at(b, dim - k));
        }
    }
}

/// Image dimension of `dₖ`: as recorded, or 0 when there is no differential.
pub open spec fn image_at(images: Map<i32, usize>, k: i32) -> int {
    if images.contains_key(k) {
        images[k] as int
    } else {
        0
    }
}

spec fn signed_kernel(dims: Map<i32, usize>, kernels: Map<i32, usize>) -> spec_fn(i32) -> int {
    |k: i32| sign_spec(k as int) * kernel_at(dims, kernels, k)
}

spec fn signed_image_before(images: Map<i32, usize>) -> spec_fn(i32) -> int {
    |k: i32| sign_spec(k as int) * image_before(images, k)
}

spec fn signed_image(images: Map<i32, usize>) -> spec_fn(i32) -> int {
    |k: i32| sign_spec(k as int) * image_at(images, k)
}

proof fn lemma_betti_euler_split(dims: Map<i32, usize>, kernels: Map<i32, usize>, images: Map<i32, usize>)
    requires
        dims.dom().finite(),
        forall|k: i32|
            dims.contains_key(k) ==> #[trigger] image_before(images, k) <= kernel_at(dims, kernels, k),
    ensures
        euler_spec(betti_spec(dims, kernels, images)) == sum_over(dims.dom(), signed_kernel(dims, kernels))
            - sum_over(dims.dom(), signed_image_before(images)),
{
    let d = dims.dom();
    let b = betti_spec(dims, kernels, images);
    assert(b.dom() =~= d);
    let f1 = signed_kernel(dims, kernels);
    let f2 = signed_image_before(images);
    let neg_f2 = |k: i32| -f2(k);
    assert forall|k: i32| d.contains(k) implies euler_term(b)(k) == f1(k) + neg_f2(k) by {
        let s = sign_spec(k as int);
        let x = kernel_at(dims, kernels, k);
        let y = image_before(images, k);
        assert(image_before(images, k) <= kernel_at(dims, kernels, k));
        assert(s * (x - y) == s * x + -(s * y)) by (nonlinear_arith);
    }
    lemma_sum_add(d, f1, neg_f2, euler_term(b));
    lemma_sum_scale(d, f2, -1, neg_f2);
}

proof fn lemma_images_moved(dims: Map<i32, usize>, images: Map<i32, usize>)
    requires
        dims.dom().finite(),
        forall|k: i32|
            images.contains_key(k) ==> dims.contains_key(k) && k < i32::MAX && dims.contains_key(
                (k + 1) as i32,
            ),
    ensures
        sum_over(dims.dom(), signed_image_before(images)) == -sum_over(dims.dom(), signed_image(images)),
{
    let d = dims.dom();
    let f2 = signed_image_before(images);
    let g = signed_image(images);
    let img = images.dom();
    assert(img.subset_of(d));
    vstd::set_lib::lemma_len_subset(img, d);
    let h = |j: i32| (j + 1) as i32;
    let moved = img.map(h);
    assert forall|k: i32| moved.contains(k) implies d.contains(k) by {
        let j = choose|j: i32| img.contains(j) && k == h(j);
    }
    assert forall|k: i32| d.contains(k) && !moved.contains(k) implies f2(k) == 0 by {
        if k > i32::MIN && images.contains_key((k - 1) as i32) {
            let j = (k - 1) as i32;
            assert(img.contains(j) && k == h(j));
        }
        assert(image_before(images, k) == 0);
    }
    lemma_sum_extend_zero(moved, d, f2);
    let neg_g = |j: i32| -g(j);
    assert forall|j: i32| img.contains(j) implies neg_g(j) == f2(h(j)) by {
        lemma_sign_add(j as int, 1);
        let s = sign_spec(j as int);
        let v = image_at(images, j);
        assert(image_before(images, h(j)) == v);
        assert(sign_spec((j + 1) as int) == -s);
        assert(-(s * v) == (-s) * v) by (nonlinear_arith);
    }
    lemma_sum_reindex(img, h, f2, neg_g);
    lemma_sum_scale(img, g, -1, neg_g);
    assert forall|k: i32| d.contains(k) && !img.contains(k) implies g(k) == 0 by {
        assert(image_at(images, k) == 0);
    }
    lemma_sum_extend_zero(img, d, g);
}

/// Euler–Poincaré: the Euler characteristic of the cohomology is that of the complex,
/// `Σₖ (-1)ᵏ βₖ = Σₖ (-1)ᵏ dim Cᵏ`, when the ranks come from a complex: in every degree
/// `dim ker dₖ + dim im dₖ = dim Cᵏ` and `im dₖ₋₁ ⊆ ker dₖ`, and each differential `dₖ` goes
/// between two degrees of the complex.
pub proof fn lemma_euler_poincare(
    dims: Map<i32, usize>,
    kernels: Map<i32, usize>,
    images: Map<i32, usize>,
)
    requires
        dims.dom().finite(),
        forall|k: i32| dims.contains_key(k) ==> k > i32::MIN,
        forall|k: i32|
            dims.contains_key(k) ==> #[trigger] kernel_at(dims, kernels, k) + image_at(images, k)
                == dim_spec(dims, k),
        forall|k: i32|
            dims.contains_key(k) ==> #[trigger] image_before(images, k) <= kernel_at(dims, kernels, k),
        forall|k: i32|
            images.contains_key(k) ==> dims.contains_key(k) && k < i32::MAX && dims.contains_key(
                (k + 1) as i32,
            ),
    ensures
        euler_spec(betti_spec(dims, kernels, images)) == euler_spec(dims),
{
    let d = dims.dom();
    lemma_betti_euler_split(dims, kernels, images);
    lemma_images_moved(dims, images);
    let f1 = signed_kernel(dims, kernels);
    let g = signed_image(images);
    assert forall|k: i32| d.contains(k) implies #[trigger] euler_term(dims)(k) == f1(k) + g(k) by {
        let s = sign_spec(k as int);
        let x = kernel_at(dims, kernels, k);
        let y = image_at(images, k);
        assert(kernel_at(dims, kernels, k) + image_at(images, k) == dim_spec(dims, k));
        assert(s * (x + y) == s * x + s * y) by (nonlinear_arith);
    }
    lemma_sum_add(d, f1, g, euler_term(dims));
}


/// A complex without differentials is its own cohomology: every `βₖ = dim Cᵏ`.
pub proof fn lemma_betti_without_differentials(dims: Map<i32, usize>)
    ensures
        betti_spec(dims, Map::empty(), Map::empty()) == dims,
{
    assert(betti_spec(dims, Map::empty(), Map::empty()) =~= dims);
}


/// A Poincaré duality algebra of odd dimension has Euler characteristic 0: the degrees `k` and
/// `dim - k` carry the same Betti number with opposite signs.
pub proof fn lemma_odd_poincare_euler(betti: Map<i32, usize>, dim: i32)
    requires
        betti.dom().finite(),
        duality_fits(betti, dim),
        poincare_duality_spec(betti, dim),
        dim % 2 == 1,
    ensures
        euler_spec(betti) == 0,
{
    let d = betti.dom();
    let f = euler_term(betti);
    let p = d.filter(|k: i32| betti[k] > 0);
    assert forall|k: i32| d.contains(k) && !p.contains(k) implies f(k) == 0 by {
        assert(betti[k] == 0);
    }
    lemma_sum_extend_zero(p, d, f);
    vstd::set_lib::lemma_len_subset(p, d);
    let h = |k: i32| (dim - k) as i32;
    assert forall|k: i32| #[trigger] p.contains(k) implies p.contains(h(k)) && h(h(k)) == k by {
        assert(i32::MIN <= dim - k <= i32::MAX);
        assert(betti[k] == dim_at(betti, dim - k));
    }
    assert forall|k: i32| #[trigger] p.map(h).contains(k) <==> p.contains(k) by {
        if p.contains(k) {
            assert(p.contains(h(k)) && k == h(h(k)));
        }
    }
    assert(p.map(h) =~= p);
    let g = |k: i32| -f(k);
    assert forall|k: i32| p.contains(k) implies g(k) == f(h(k)) by {
        assert(i32::MIN <= dim - k <= i32::MAX);
        assert(betti[k] == dim_at(betti, dim - k));
        lemma_sign_add(dim as int, -k);
        lemma_sign_add(k as int, -k);
        let sk = sign_spec(k as int);
        let b = dim_spec(betti, k) as int;
        assert(sign_spec(-k) == sk);
        assert(sign_spec(dim as int) == -1);
        assert(sign_spec(dim - k) == -sk);
        assert(-(sk * b) == (-sk) * b) by (nonlinear_arith);
    }
    lemma_sum_reindex(p, h, f, g);
    lemma_sum_scale(p, f, -1, g);
}

} // verus!
