//! Graded vector spaces `V = ⊕ Vᵏ`, modelled by the dimension of each component.

use std::collections::HashMap;
use vstd::prelude::*;

verus! {

broadcast use vstd::std_specs::hash::group_hash_axioms;

// ------------------------------------------------------------------
// Finite sums over sets of degrees
// ------------------------------------------------------------------

/// The step of a sum: add the term of one more element.
pub open spec fn add_term<A>(g: spec_fn(A) -> int) -> spec_fn(int, A) -> int {
    |acc: int, a: A| acc + g(a)
}

/// `Σ_{a ∈ s} g(a)` over a finite set.
pub open spec fn sum_over<A>(s: Set<A>, g: spec_fn(A) -> int) -> int {
    s.fold(0int, add_term(g))
}

/// Adding terms commutes, so a sum does not depend on the order of the elements.
pub proof fn lemma_add_term_commutative<A>(g: spec_fn(A) -> int)
    ensures
        vstd::set::fold::is_fun_commutative(add_term(g)),
{
}

/// The empty sum is 0.
pub proof fn lemma_sum_empty<A>(g: spec_fn(A) -> int)
    ensures
        sum_over(Set::<A>::empty(), g) == 0,
{
    vstd::set::fold::lemma_fold_empty(0int, add_term(g));
}

/// Adding one more element adds its term.
pub proof fn lemma_sum_insert<A>(s: Set<A>, g: spec_fn(A) -> int, a: A)
    requires
        s.finite(),
        !s.contains(a),
    ensures
        sum_over(s.insert(a), g) == sum_over(s, g) + g(a),
{
    lemma_add_term_commutative(g);
    vstd::set::fold::lemma_fold_insert(s, 0int, add_term(g), a);
}


/// Taking one element out takes its term out.
pub proof fn lemma_sum_remove<A>(s: Set<A>, g: spec_fn(A) -> int, a: A)
    requires
        s.finite(),
        s.contains(a),
    ensures
        sum_over(s, g) == sum_over(s.remove(a), g) + g(a),
{
    lemma_sum_insert(s.remove(a), g, a);
    assert(s.remove(a).insert(a) =~= s);
}

/// A sum whose terms all vanish is zero.
pub proof fn lemma_sum_zero<A>(s: Set<A>, g: spec_fn(A) -> int)
    requires
        s.finite(),
        forall|a: A| s.contains(a) ==> g(a) == 0,
    ensures
        sum_over(s, g) == 0,
    decreases s.len(),
{
    if s.len() == 0 {
        assert(s =~= Set::empty());
        lemma_sum_empty(g);
    } else {
        let a = s.choose();
        lemma_sum_remove(s, g, a);
        lemma_sum_zero(s.remove(a), g);
    }
}

/// A sum of non-negative terms over a subset is at most the sum over the whole set.
pub proof fn lemma_sum_subset_le<A>(s1: Set<A>, s2: Set<A>, g: spec_fn(A) -> int)
    requires
        s2.finite(),
        s1.subset_of(s2),
        forall|a: A| s2.contains(a) ==> g(a) >= 0,
    ensures
        sum_over(s1, g) <= sum_over(s2, g),
    decreases s2.len(),
{
    if s1 =~= s2 {
    } else {
        let a = choose|a: A| s2.contains(a) && !s1.contains(a);
        lemma_sum_remove(s2, g, a);
        lemma_sum_subset_le(s1, s2.remove(a), g);
    }
}

/// Sums agree when their terms agree on the set.
pub proof fn lemma_sum_congruent<A>(s: Set<A>, f: spec_fn(A) -> int, g: spec_fn(A) -> int)
    requires
        s.finite(),
        forall|a: A| s.contains(a) ==> f(a) == g(a),
    ensures
        sum_over(s, f) == sum_over(s, g),
    decreases s.len(),
{
    if s.len() == 0 {
        assert(s =~= Set::empty());
        lemma_sum_empty(f);
        lemma_sum_empty(g);
    } else {
        let a = s.choose();
        lemma_sum_remove(s, f, a);
        lemma_sum_remove(s, g, a);
        lemma_sum_congruent(s.remove(a), f, g);
    }
}

/// The sum of pointwise sums is the sum of the two sums.
pub proof fn lemma_sum_add<A>(
    s: Set<A>,
    f: spec_fn(A) -> int,
    g: spec_fn(A) -> int,
    h: spec_fn(A) -> int,
)
    requires
        s.finite(),
        forall|a: A| s.contains(a) ==> h(a) == f(a) + g(a),
    ensures
        sum_over(s, h) == sum_over(s, f) + sum_over(s, g),
    decreases s.len(),
{
    if s.len() == 0 {
        assert(s =~= Set::empty());
        lemma_sum_empty(f);
        lemma_sum_empty(g);
        lemma_sum_empty(h);
    } else {
        let a = s.choose();
        lemma_sum_remove(s, f, a);
        lemma_sum_remove(s, g, a);
        lemma_sum_remove(s, h, a);
        lemma_sum_add(s.remove(a), f, g, h);
    }
}

/// A constant factor comes out of a sum.
pub proof fn lemma_sum_scale<A>(s: Set<A>, f: spec_fn(A) -> int, c: int, h: spec_fn(A) -> int)
    requires
        s.finite(),
        forall|a: A| s.contains(a) ==> h(a) == c * f(a),
    ensures
        sum_over(s, h) == c * sum_over(s, f),
    decreases s.len(),
{
    if s.len() == 0 {
        assert(s =~= Set::empty());
        lemma_sum_empty(f);
        lemma_sum_empty(h);
    } else {
        let a = s.choose();
        lemma_sum_remove(s, f, a);
        lemma_sum_remove(s, h, a);
        lemma_sum_scale(s.remove(a), f, c, h);
        vstd::arithmetic::mul::lemma_mul_is_distributive_add(c, sum_over(s.remove(a), f), f(a));
    }
}

/// Terms that vanish outside `s` add nothing: the sum over a superset `t` is the sum over `s`.
pub proof fn lemma_sum_extend_zero<A>(s: Set<A>, t: Set<A>, g: spec_fn(A) -> int)
    requires
        t.finite(),
        s.subset_of(t),
        forall|a: A| t.contains(a) && !s.contains(a) ==> g(a) == 0,
    ensures
        sum_over(t, g) == sum_over(s, g),
    decreases t.len(),
{
    if s =~= t {
    } else {
        let a = choose|a: A| t.contains(a) && !s.contains(a);
        lemma_sum_remove(t, g, a);
        lemma_sum_extend_zero(s, t.remove(a), g);
    }
}

/// Reindexing a sum along a map that is one-to-one on the set.
pub proof fn lemma_sum_reindex<A, B>(
    s: Set<A>,
    h: spec_fn(A) -> B,
    g: spec_fn(B) -> int,
    f: spec_fn(A) -> int,
)
    requires
        s.finite(),
        forall|x: A, y: A| s.contains(x) && s.contains(y) && h(x) == h(y) ==> x == y,
        forall|a: A| s.contains(a) ==> f(a) == g(h(a)),
    ensures
        s.map(h).finite(),
        sum_over(s.map(h), g) == sum_over(s, f),
    decreases s.len(),
{
    s.lemma_map_finite(h);
    if s.len() == 0 {
        assert(s =~= Set::empty());
        assert(s.map(h) =~= Set::empty());
        lemma_sum_empty(f);
        lemma_sum_empty(g);
    } else {
        let a = s.choose();
        let r = s.remove(a);
        lemma_sum_reindex(r, h, g, f);
        r.lemma_set_map_insert_commute(a, h);
        assert(r.insert(a) =~= s);
        assert(!r.map(h).contains(h(a)));
        lemma_sum_insert(r.map(h), g, h(a));
        lemma_sum_remove(s, f, a);
    }
}

// ------------------------------------------------------------------
// Graded vector spaces
// ------------------------------------------------------------------

/// A graded vector space `V = ⊕ Vᵏ`, stored as the map from each degree `k`
/// to the dimension of `Vᵏ`. Degrees absent from the map have dimension 0.
pub struct GradedVectorSpace {
    /// Map from degree k to the basis dimension of Vᵏ.
    pub dimensions: HashMap<i32, usize>,
}

impl View for GradedVectorSpace {
    type V = Map<i32, usize>;

    open spec fn view(&self) -> Map<i32, usize> {
        self.dimensions@
    }
}

/// Dimension of the degree-`k` component of a dimension map.
pub open spec fn dim_spec(m: Map<i32, usize>, k: i32) -> nat {
    if m.contains_key(k) {
        m[k] as nat
    } else {
        0
    }
}

/// The dimension of each degree, as a term of a sum.
pub open spec fn dim_term(m: Map<i32, usize>) -> spec_fn(i32) -> int {
    |k: i32| dim_spec(m, k) as int
}

/// Total dimension `Σₖ dim Vᵏ`.
pub open spec fn total_dim_spec(m: Map<i32, usize>) -> int {
    sum_over(m.dom(), dim_term(m))
}

/// Dimension of the degree-`k` component for a degree given as a mathematical integer.
pub open spec fn dim_at(m: Map<i32, usize>, k: int) -> nat {
    if i32::MIN <= k <= i32::MAX {
        dim_spec(m, k as i32)
    } else {
        0
    }
}

/// Direct sum: `(V ⊕ W)ᵏ = Vᵏ ⊕ Wᵏ`; a degree is present when it is present in either.
pub open spec fn direct_sum_spec(a: Map<i32, usize>, b: Map<i32, usize>) -> Map<i32, usize> {
    Map::new(
        |k: i32| a.contains_key(k) || b.contains_key(k),
        |k: i32| (dim_spec(a, k) + dim_spec(b, k)) as usize,
    )
}

/// The direct sum is defined: no degree's summed dimension exceeds `usize::MAX`.
pub open spec fn direct_sum_fits(a: Map<i32, usize>, b: Map<i32, usize>) -> bool {
    forall|k: i32| #[trigger] dim_spec(a, k) + dim_spec(b, k) <= usize::MAX
}

/// The term `dim Vᵖ · dim Wⁿ⁻ᵖ` of `dim (V ⊗ W)ⁿ`, for each degree `p` of `V`.
pub open spec fn tensor_term(a: Map<i32, usize>, b: Map<i32, usize>, n: int) -> spec_fn(i32) -> int {
    |p: i32| (dim_spec(a, p) * dim_at(b, n - p)) as int
}

/// `dim (V ⊗ W)ⁿ` restricted to the degrees `p` of `V` in `s`: `Σ_{p ∈ s} dim Vᵖ · dim Wⁿ⁻ᵖ`.
pub open spec fn tensor_value(a: Map<i32, usize>, b: Map<i32, usize>, s: Set<i32>, n: int) -> int {
    sum_over(s, tensor_term(a, b, n))
}

/// A degree `n` is reached by some `p ∈ s` of `V` and some degree `q` of `W` with `p + q = n`.
pub open spec fn tensor_reaches(s: Set<i32>, b: Map<i32, usize>, n: int) -> bool {
    exists|p: i32, q: i32| s.contains(p) && b.contains_key(q) && p + q == n
}

/// The tensor product restricted to the degrees of `V` in `s`.
pub open spec fn tensor_partial(a: Map<i32, usize>, b: Map<i32, usize>, s: Set<i32>) -> Map<i32, usize> {
    Map::new(
        |n: i32| tensor_reaches(s, b, n as int),
        |n: i32| tensor_value(a, b, s, n as int) as usize,
    )
}

/// The tensor product over the degrees `s` of `V`, with the degree `p` of `V` paired so far
/// with the degrees `t` of `W`.
pub open spec fn tensor_inner(
    a: Map<i32, usize>,
    b: Map<i32, usize>,
    s: Set<i32>,
    p: i32,
    t: Set<i32>,
) -> Map<i32, usize> {
    Map::new(
        |n: i32|
            tensor_reaches(s, b, n as int) || (i32::MIN <= n - p <= i32::MAX && t.contains(
                (n - p) as i32,
            )),
        |n: i32|
            (tensor_value(a, b, s, n as int) + if i32::MIN <= n - p <= i32::MAX && t.contains(
                (n - p) as i32,
            ) {
                dim_spec(a, p) * dim_at(b, n - p)
            } else {
                0
            }) as usize,
    )
}

/// Tensor product: `(V ⊗ W)ⁿ = ⊕_{p+q=n} Vᵖ ⊗ Wᵠ`.
pub open spec fn tensor_spec(a: Map<i32, usize>, b: Map<i32, usize>) -> Map<i32, usize> {
    tensor_partial(a, b, a.dom())
}

/// The tensor product is defined: every sum `p + q` of degrees is an `i32`, and every
/// dimension of the product fits in a `usize`.
pub open spec fn tensor_fits(a: Map<i32, usize>, b: Map<i32, usize>) -> bool {
    &&& forall|p: i32, q: i32|
        a.contains_key(p) && b.contains_key(q) ==> i32::MIN <= #[trigger] (p + q) <= i32::MAX
    &&& forall|n: int| #[trigger] tensor_value(a, b, a.dom(), n) <= usize::MAX
}

/// Shift: `V[n]ᵏ = Vᵏ⁻ⁿ`; every degree moves up by `n`.
pub open spec fn shift_spec(m: Map<i32, usize>, n: i32) -> Map<i32, usize> {
    Map::new(
        |j: i32| i32::MIN <= j - n <= i32::MAX && m.contains_key((j - n) as i32),
        |j: i32| m[(j - n) as i32],
    )
}

/// Shifting by `n` keeps every degree an `i32`.
pub open spec fn shift_fits(m: Map<i32, usize>, n: i32) -> bool {
    forall|k: i32| m.contains_key(k) ==> i32::MIN <= #[trigger] (k + n) <= i32::MAX
}

/// Truncation to the degrees in `[lo, hi]`.
pub open spec fn truncate_spec(m: Map<i32, usize>, lo: i32, hi: i32) -> Map<i32, usize> {
    m.restrict(Set::new(|k: i32| lo <= k <= hi))
}

/// `(-1)ᵏ`.
pub open spec fn sign_spec(k: int) -> int {
    if k % 2 == 0 {
        1
    } else {
        -1
    }
}

/// The signed dimension `(-1)ᵏ dim Vᵏ` of each degree, as a term of a sum.
pub open spec fn euler_term(m: Map<i32, usize>) -> spec_fn(i32) -> int {
    |k: i32| sign_spec(k as int) * dim_spec(m, k)
}

/// Euler characteristic `Σₖ (-1)ᵏ dim Vᵏ`.
pub open spec fn euler_spec(m: Map<i32, usize>) -> int {
    sum_over(m.dom(), euler_term(m))
}

/// The Euler characteristic can be summed in any order within `i64`: each dimension is an
/// `i64`, and the signed sum over any set of degrees is an `i64`.
pub open spec fn euler_fits(m: Map<i32, usize>) -> bool {
    &&& forall|k: i32| m.contains_key(k) ==> #[trigger] m[k] <= i64::MAX
    &&& forall|s: Set<i32>|
        s.subset_of(m.dom()) ==> i64::MIN <= #[trigger] sum_over(s, euler_term(m)) <= i64::MAX
}

/// A strictly increasing sequence of degrees.
pub open spec fn strictly_sorted(s: Seq<i32>) -> bool {
    forall|i: int, j: int| 0 <= i < j < s.len() ==> s[i] < s[j]
}

/// The product of the dimensions of `V` and `W` in degree `k`, as a term of a sum.
pub open spec fn hom_term(a: Map<i32, usize>, b: Map<i32, usize>) -> spec_fn(i32) -> int {
    |k: i32| (dim_spec(a, k) * dim_spec(b, k)) as int
}

/// Dimension of the degree-preserving maps `V → W`: `Σₖ dim Vᵏ · dim Wᵏ`.
pub open spec fn hom_dim_spec(a: Map<i32, usize>, b: Map<i32, usize>) -> int {
    sum_over(a.dom(), hom_term(a, b))
}

impl GradedVectorSpace {
    /// Create a new graded vector space with given dimensions per degree.
    pub fn new(dimensions: HashMap<i32, usize>) -> (r: Self)
        ensures
            r@ == dimensions@,
    {
        GradedVectorSpace { dimensions }
    }

    /// The zero graded vector space.
    pub fn zero() -> (r: Self)
        ensures
            r@ == Map::<i32, usize>::empty(),
    {
        GradedVectorSpace { dimensions: HashMap::new() }
    }

    /// Dimension of the degree-k component.
    pub fn dim(&self, k: i32) -> (r: usize)
        ensures
            r == dim_spec(self@, k),
    {
        match self.dimensions.get(&k) {
            Some(d) => *d,
            None => 0,
        }
    }

    /// Total dimension (sum over all degrees).
    pub fn total_dim(&self) -> (r: usize)
        requires
            total_dim_spec(self@) <= usize::MAX,
        ensures
            r == total_dim_spec(self@),
    {
        let ghost m = self@;
        let ghost g = dim_term(m);
        let mut total: usize = 0;
        let ghost mut seen: Set<i32> = Set::empty();
        proof {
            lemma_sum_empty(g);
        }
        for k in it: self.dimensions.keys()
            invariant
                m == self@,
                g == dim_term(m),
                m.dom().finite(),
                total_dim_spec(m) <= usize::MAX,
                it.seq().no_duplicates(),
                it.seq().unref().to_set() == m.dom(),
                seen.finite(),
                forall|x: i32| seen.contains(x) <==> exists|j: int| 0 <= j < it.index() && *it.seq()[j] == x,
                total == sum_over(seen, g),
                seen.subset_of(m.dom()),
                forall|x: i32|
                    m.dom().contains(x) && !seen.contains(x) ==> exists|j: int|
                        it.index() <= j < it.seq().len() && *it.seq()[j] == x,
        {
            let d = *self.dimensions.get(k).unwrap();
            proof {
                assert(!seen.contains(*k));
                assert(m.dom().contains(*k));
                lemma_sum_insert(seen, g, *k);
                lemma_sum_subset_le(seen.insert(*k), m.dom(), g);
            }
            total = total + d;
            proof {
                seen = seen.insert(*k);
            }
        }
        assert(seen =~= m.dom());
        total
    }

    /// Direct sum of two graded vector spaces.
    pub fn direct_sum(&self, other: &Self) -> (r: Self)
        requires
            direct_sum_fits(self@, other@),
        ensures
            r@ == direct_sum_spec(self@, other@),
    {
        let ghost a = self@;
        let ghost b = other@;
        let mut dims = self.dimensions.clone();
        let ghost mut seen: Set<i32> = Set::empty();
        assert(dims@ =~= direct_sum_spec(a, b.restrict(seen)));
        for k in it: other.dimensions.keys()
            invariant
                a == self@,
                b == other@,
                direct_sum_fits(a, b),
                it.seq().no_duplicates(),
                it.seq().unref().to_set() == b.dom(),
                forall|x: i32| seen.contains(x) <==> exists|j: int| 0 <= j < it.index() && *it.seq()[j] == x,
                seen.subset_of(b.dom()),
                forall|x: i32|
                    b.dom().contains(x) && !seen.contains(x) ==> exists|j: int|
                        it.index() <= j < it.seq().len() && *it.seq()[j] == x,
                dims@ == direct_sum_spec(a, b.restrict(seen)),
        {
            let d = *other.dimensions.get(k).unwrap();
            let cur: usize = match dims.get(k) {
                Some(c) => *c,
                None => 0,
            };
            proof {
                assert(!seen.contains(*k));
                assert(dim_spec(a, *k) + dim_spec(b, *k) <= usize::MAX);
            }
            dims.insert(*k, cur + d);
            proof {
                seen = seen.insert(*k);
                assert(dims@ =~= direct_sum_spec(a, b.restrict(seen)));
            }
        }
        assert(b.restrict(seen) =~= b);
        GradedVectorSpace { dimensions: dims }
    }

    /// Tensor product of two graded vector spaces, or `None` exactly when a degree `p + q`
    /// leaves `i32` or a dimension of the product leaves `usize`.
    /// (V ⊗ W)ⁿ = ⊕_{p+q=n} Vᵖ ⊗ Wᵠ
    pub fn tensor_product_checked(&self, other: &Self) -> (r: Option<Self>)
        ensures
            match r {
                Some(t) => tensor_fits(self@, other@) && t@ == tensor_spec(self@, other@),
                None => !tensor_fits(self@, other@),
            },
    {
        let ghost a = self@;
        let ghost b = other@;
        let mut dims: HashMap<i32, usize> = HashMap::new();
        let ghost mut seen: Set<i32> = Set::empty();
        assert(dims@ =~= tensor_partial(a, b, seen));
        assert forall|n: i32| #[trigger] tensor_value(a, b, seen, n as int) <= usize::MAX by {
            lemma_sum_empty(tensor_term(a, b, n as int));
        }
        for p in it: self.dimensions.keys()
            invariant
                a == self@,
                b == other@,
                a.dom().finite(),
                b.dom().finite(),
                sums_fit(seen, b),
                forall|n: i32| #[trigger] tensor_value(a, b, seen, n as int) <= usize::MAX,
                it.seq().no_duplicates(),
                it.seq().unref().to_set() == a.dom(),
                seen.finite(),
                forall|x: i32| seen.contains(x) <==> exists|j: int| 0 <= j < it.index() && *it.seq()[j] == x,
                seen.subset_of(a.dom()),
                forall|x: i32|
                    a.dom().contains(x) && !seen.contains(x) ==> exists|j: int|
                        it.index() <= j < it.seq().len() && *it.seq()[j] == x,
                dims@ == tensor_partial(a, b, seen),
        {
            let dp = *self.dimensions.get(p).unwrap();
            let ghost pp: i32 = *p;
            proof {
                assert(!seen.contains(pp));
                assert(a.dom().contains(pp));
            }
            let ghost mut seen_q: Set<i32> = Set::empty();
            assert(dims@ =~= tensor_inner(a, b, seen, pp, seen_q));
            for q in it2: other.dimensions.keys()
                invariant
                    a == self@,
                    b == other@,
                    a.dom().finite(),
                    b.dom().finite(),
                    sums_fit(seen, b),
                    forall|x: i32| seen_q.contains(x) ==> i32::MIN <= pp + x <= i32::MAX,
                    forall|n: i32|
                        #[trigger] tensor_value(a, b, seen, n as int) + (if i32::MIN <= n - pp <= i32::MAX
                            && seen_q.contains((n - pp) as i32) {
                            dim_spec(a, pp) * dim_at(b, n - pp)
                        } else {
                            0
                        }) <= usize::MAX,
                    seen.finite(),
                    seen.subset_of(a.dom()),
                    !seen.contains(pp),
                    a.dom().contains(pp),
                    pp == *p,
                    dp == a[pp],
                    it2.seq().no_duplicates(),
                    it2.seq().unref().to_set() == b.dom(),
                    forall|x: i32|
                        seen_q.contains(x) <==> exists|j: int| 0 <= j < it2.index() && *it2.seq()[j] == x,
                    seen_q.subset_of(b.dom()),
                    forall|x: i32|
                        b.dom().contains(x) && !seen_q.contains(x) ==> exists|j: int|
                            it2.index() <= j < it2.seq().len() && *it2.seq()[j] == x,
                    dims@ == tensor_inner(a, b, seen, pp, seen_q),
            {
                let dq = *other.dimensions.get(q).unwrap();
                let ghost qq: i32 = *q;
                proof {
                    assert(!seen_q.contains(qq));
                    assert(b.dom().contains(qq));
                }
                let n: i32 = match p.checked_add(*q) {
                    Some(v) => v,
                    None => {
                        proof {
                            assert(a.contains_key(pp) && b.contains_key(qq));
                            assert(!(i32::MIN <= pp + qq <= i32::MAX));
                        }
                        return None;
                    },
                };
                let ghost g = tensor_term(a, b, n as int);
                proof {
                    assert(n - pp == qq);
                    assert(dim_at(b, n - pp) == dq);
                    if !tensor_reaches(seen, b, n as int) {
                        assert forall|x: i32| seen.contains(x) implies g(x) == 0 by {
                            if i32::MIN <= n - x <= i32::MAX && b.contains_key((n - x) as i32) {
                                assert(tensor_reaches(seen, b, n as int));
                            }
                        }
                        lemma_sum_zero(seen, g);
                    }
                    lemma_sum_insert(seen, g, pp);
                    lemma_sum_subset_le(seen.insert(pp), a.dom(), g);
                    lemma_sum_subset_le(Set::empty(), seen, g);
                    lemma_sum_empty(g);
                }
                let cur: usize = match dims.get(&n) {
                    Some(c) => *c,
                    None => 0,
                };
                proof {
                    assert(cur == tensor_value(a, b, seen, n as int));
                    assert(cur + dp * dq == tensor_value(a, b, seen.insert(pp), n as int));
                    assert(cur + dp * dq <= tensor_value(a, b, a.dom(), n as int));
                }
                let prod: usize = match dp.checked_mul(dq) {
                    Some(v) => v,
                    None => {
                        proof {
                            assert(tensor_value(a, b, a.dom(), n as int) > usize::MAX);
                        }
                        return None;
                    },
                };
                let total: usize = match cur.checked_add(prod) {
                    Some(v) => v,
                    None => {
                        proof {
                            assert(tensor_value(a, b, a.dom(), n as int) > usize::MAX);
                        }
                        return None;
                    },
                };
                proof {
                    assert forall|m: i32|
                        #[trigger] tensor_value(a, b, seen, m as int) + (if i32::MIN <= m - pp <= i32::MAX
                            && seen_q.insert(qq).contains((m - pp) as i32) {
                            dim_spec(a, pp) * dim_at(b, m - pp)
                        } else {
                            0
                        }) <= usize::MAX by {
                        if m != n {
                            if i32::MIN <= m - pp <= i32::MAX && seen_q.insert(qq).contains((m - pp) as i32) {
                                assert((m - pp) as i32 != qq);
                            }
                        }
                    }
                }
                dims.insert(n, total);
                proof {
                    seen_q = seen_q.insert(qq);
                    assert(dims@ =~= tensor_inner(a, b, seen, pp, seen_q));
                }
            }
            proof {
                assert(seen_q =~= b.dom());
                let s2 = seen.insert(pp);
                assert forall|n: i32| #![trigger tensor_value(a, b, s2, n as int)]
                    true implies tensor_value(a, b, s2, n as int) == tensor_value(a, b, seen, n as int)
                    + if i32::MIN <= n - pp <= i32::MAX && seen_q.contains((n - pp) as i32) {
                        dim_spec(a, pp) * dim_at(b, n - pp)
                    } else {
                        0
                    } by {
                    lemma_sum_insert(seen, tensor_term(a, b, n as int), pp);
                    if !(i32::MIN <= n - pp <= i32::MAX && seen_q.contains((n - pp) as i32)) {
                        let x = dim_spec(a, pp);
                        let y = dim_at(b, n - pp);
                        assert(y == 0);
                        assert(x * y == 0) by (nonlinear_arith)
                            requires
                                y == 0,
                        ;
                    }
                }
                assert forall|n: i32|
                    tensor_reaches(s2, b, n as int) <==> (tensor_reaches(seen, b, n as int) || (
                    i32::MIN <= n - pp <= i32::MAX && seen_q.contains((n - pp) as i32))) by {
                    if i32::MIN <= n - pp <= i32::MAX && seen_q.contains((n - pp) as i32) {
                        let q = (n - pp) as i32;
                        assert(s2.contains(pp) && b.contains_key(q) && pp + q == n);
                    }
                    if tensor_reaches(seen, b, n as int) {
                        let (p0, q0) = choose|p0: i32, q0: i32|
                            seen.contains(p0) && b.contains_key(q0) && p0 + q0 == n;
                        assert(s2.contains(p0) && b.contains_key(q0) && p0 + q0 == n);
                    }
                    if tensor_reaches(s2, b, n as int) {
                        let (p0, q0) = choose|p0: i32, q0: i32|
                            s2.contains(p0) && b.contains_key(q0) && p0 + q0 == n;
                        if p0 == pp {
                            assert(n - pp == q0);
                        } else {
                            assert(seen.contains(p0) && b.contains_key(q0) && p0 + q0 == n);
                        }
                    }
                }
                assert(dims@ =~= tensor_partial(a, b, s2));
                assert forall|n: i32| #[trigger] tensor_value(a, b, s2, n as int) <= usize::MAX by {
                    assert(tensor_value(a, b, seen, n as int) + (if i32::MIN <= n - pp <= i32::MAX
                        && seen_q.contains((n - pp) as i32) {
                        dim_spec(a, pp) * dim_at(b, n - pp)
                    } else {
                        0
                    }) <= usize::MAX);
                }
                assert(sums_fit(s2, b)) by {
                    assert forall|p0: i32, q0: i32| s2.contains(p0) && b.contains_key(q0) implies i32::MIN
                        <= #[trigger] (p0 + q0) <= i32::MAX by {
                        if p0 == pp {
                            assert(seen_q.contains(q0));
                        }
                    }
                }
                seen = s2;
            }
        }
        assert(seen =~= a.dom());
        proof {
            assert forall|n: int| #[trigger] tensor_value(a, b, a.dom(), n) <= usize::MAX by {
                if i32::MIN <= n <= i32::MAX {
                    assert(tensor_value(a, b, seen, (n as i32) as int) <= usize::MAX);
                } else {
                    assert forall|x: i32| a.dom().contains(x) implies tensor_term(a, b, n)(x) == 0 by {
                        if i32::MIN <= n - x <= i32::MAX && b.contains_key((n - x) as i32) {
                            assert(i32::MIN <= x + ((n - x) as i32) <= i32::MAX);
                        }
                        assert(dim_at(b, n - x) == 0);
                        vstd::arithmetic::mul::lemma_mul_by_zero_is_zero(dim_spec(a, x) as int);
                    }
                    lemma_sum_zero(a.dom(), tensor_term(a, b, n));
                }
            }
        }
        Some(GradedVectorSpace { dimensions: dims })
    }

    /// Tensor product of two graded vector spaces.
    /// (V ⊗ W)ⁿ = ⊕_{p+q=n} Vᵖ ⊗ Wᵠ
    pub fn tensor_product(&self, other: &Self) -> (r: Self)
        requires
            tensor_fits(self@, other@),
        ensures
            r@ == tensor_spec(self@, other@),
    {
        match self.tensor_product_checked(other) {
            Some(t) => t,
            None => {
                assert(false);
                GradedVectorSpace::zero()
            },
        }
    }

    /// Shift: V[n]ᵏ = Vᵏ⁻ⁿ (suspension/desuspension).
    pub fn shift(&self, n: i32) -> (r: Self)
        requires
            shift_fits(self@, n),
        ensures
            r@ == shift_spec(self@, n),
    {
        let ghost m = self@;
        let mut dims: HashMap<i32, usize> = HashMap::new();
        let ghost mut seen: Set<i32> = Set::empty();
        assert(dims@ =~= shift_spec(m.restrict(seen), n));
        for k in it: self.dimensions.keys()
            invariant
                m == self@,
                shift_fits(m, n),
                it.seq().no_duplicates(),
                it.seq().unref().to_set() == m.dom(),
                forall|x: i32| seen.contains(x) <==> exists|j: int| 0 <= j < it.index() && *it.seq()[j] == x,
                seen.subset_of(m.dom()),
                forall|x: i32|
                    m.dom().contains(x) && !seen.contains(x) ==> exists|j: int|
                        it.index() <= j < it.seq().len() && *it.seq()[j] == x,
                dims@ == shift_spec(m.restrict(seen), n),
        {
            let d = *self.dimensions.get(k).unwrap();
            proof {
                assert(m.dom().contains(*k));
                assert(i32::MIN <= *k + n <= i32::MAX);
            }
            dims.insert(*k + n, d);
            proof {
                seen = seen.insert(*k);
                assert(dims@ =~= shift_spec(m.restrict(seen), n));
            }
        }
        assert(m.restrict(seen) =~= m);
        GradedVectorSpace { dimensions: dims }
    }

    /// Dual graded vector space: each component has the dimension of the same component of `V`.
    pub fn dual(&self) -> (r: Self)
        ensures
            r@ == self@,
    {
        GradedVectorSpace { dimensions: self.dimensions.clone() }
    }

    /// Check if the graded vector space is concentrated in a single degree
    /// (at most one degree present).
    pub fn is_concentrated(&self) -> (r: bool)
        ensures
            r == (self@.dom().len() <= 1),
    {
        self.dimensions.len() <= 1
    }

    /// All degrees present, in increasing order.
    pub fn degrees(&self) -> (r: Vec<i32>)
        ensures
            strictly_sorted(r@),
            r@.to_set() == self@.dom(),
    {
        let ghost m = self@;
        let mut ds: Vec<i32> = Vec::new();
        let ghost mut seen: Set<i32> = Set::empty();
        for k in it: self.dimensions.keys()
            invariant
                m == self@,
                it.seq().no_duplicates(),
                it.seq().unref().to_set() == m.dom(),
                forall|x: i32| seen.contains(x) <==> exists|j: int| 0 <= j < it.index() && *it.seq()[j] == x,
                seen.subset_of(m.dom()),
                forall|x: i32|
                    m.dom().contains(x) && !seen.contains(x) ==> exists|j: int|
                        it.index() <= j < it.seq().len() && *it.seq()[j] == x,
                strictly_sorted(ds@),
                ds@.to_set() == seen,
        {
            let x: i32 = *k;
            proof {
                assert(!seen.contains(x));
            }
            let mut pos: usize = 0;
            while pos < ds.len() && ds[pos] < x
                invariant
                    0 <= pos <= ds.len(),
                    forall|i: int| 0 <= i < pos ==> ds@[i] < x,
                decreases ds.len() - pos,
            {
                pos = pos + 1;
            }
            proof {
                if pos < ds.len() {
                    assert(ds@[pos as int] != x) by {
                        assert(ds@.to_set().contains(ds@[pos as int]));
                    }
                }
            }
            let ghost old_ds = ds@;
            ds.insert(pos, x);
            proof {
                assert forall|i: int, j: int| 0 <= i < j < ds@.len() implies ds@[i] < ds@[j] by {
                    if j < pos {
                    } else if j == pos {
                    } else if i < pos {
                        assert(old_ds[i] < x);
                        assert(x <= old_ds[pos as int]);
                        assert(old_ds[pos as int] <= old_ds[j - 1]);
                    } else if i == pos {
                        assert(x <= old_ds[pos as int]);
                    } else {
                    }
                }
                seen = seen.insert(x);
                assert forall|y: i32| ds@.to_set().contains(y) <==> seen.contains(y) by {
                    if seen.contains(y) && y != x {
                        let i = choose|i: int| 0 <= i < old_ds.len() && old_ds[i] == y;
                        if i < pos {
                            assert(ds@[i] == y);
                        } else {
                            assert(ds@[i + 1] == y);
                        }
                    }
                    if y == x {
                        assert(ds@[pos as int] == x);
                    }
                    if ds@.to_set().contains(y) {
                        let i = choose|i: int| 0 <= i < ds@.len() && ds@[i] == y;
                        if i < pos {
                            assert(old_ds[i] == y);
                            assert(old_ds.to_set().contains(y));
                        } else if i > pos {
                            assert(old_ds[i - 1] == y);
                            assert(old_ds.to_set().contains(y));
                        }
                    }
                }
                assert(ds@.to_set() =~= seen);
            }
        }
        assert(seen =~= m.dom());
        ds
    }

    /// The Euler characteristic `Σ (-1)ᵏ dim(Vᵏ)`, summed degree by degree in the map's order,
    /// or `None` when a dimension is above `i64::MAX` or a partial sum leaves `i64` (which only
    /// happens when the space breaks `euler_fits`).
    pub fn euler_characteristic_checked(&self) -> (r: Option<i64>)
        ensures
            match r {
                Some(v) => v == euler_spec(self@),
                None => !euler_fits(self@),
            },
    {
        let ghost m = self@;
        let ghost g = euler_term(m);
        let mut chi: i64 = 0;
        let ghost mut seen: Set<i32> = Set::empty();
        proof {
            lemma_sum_empty(g);
        }
        for k in it: self.dimensions.keys()
            invariant
                m == self@,
                g == euler_term(m),
                m.dom().finite(),
                it.seq().no_duplicates(),
                it.seq().unref().to_set() == m.dom(),
                seen.finite(),
                forall|x: i32| seen.contains(x) <==> exists|j: int| 0 <= j < it.index() && *it.seq()[j] == x,
                chi == sum_over(seen, g),
                seen.subset_of(m.dom()),
                forall|x: i32|
                    m.dom().contains(x) && !seen.contains(x) ==> exists|j: int|
                        it.index() <= j < it.seq().len() && *it.seq()[j] == x,
        {
            let d = *self.dimensions.get(k).unwrap();
            proof {
                assert(!seen.contains(*k));
                assert(m.dom().contains(*k));
                lemma_sum_insert(seen, g, *k);
                assert(seen.insert(*k).subset_of(m.dom()));
            }
            if d as u64 > 9223372036854775807u64 {
                proof {
                    assert(m.contains_key(*k) && !(m[*k] <= i64::MAX));
                }
                return None;
            }
            let dd: i64 = d as i64;
            let next: Option<i64> = if *k % 2 == 0 {
                chi.checked_add(dd)
            } else {
                chi.checked_sub(dd)
            };
            match next {
                Some(v) => {
                    chi = v;
                },
                None => {
                    proof {
                        let s2 = seen.insert(*k);
                        assert(!(i64::MIN <= sum_over(s2, euler_term(m)) <= i64::MAX));
                    }
                    return None;
                },
            }
            proof {
                seen = seen.insert(*k);
            }
        }
        assert(seen =~= m.dom());
        Some(chi)
    }

    /// The Euler characteristic: Σ (-1)ᵏ dim(Vᵏ).
    pub fn euler_characteristic(&self) -> (r: i64)
        requires
            euler_fits(self@),
        ensures
            r == euler_spec(self@),
    {
        match self.euler_characteristic_checked() {
            Some(v) => v,
            None => {
                assert(false);
                0
            },
        }
    }

    /// Dimension of the space of degree-preserving linear maps `V → W`, `Σₖ dim Vᵏ · dim Wᵏ`
    /// summed over the degrees of `V`, or `None` exactly when it is above `usize::MAX`.
    pub fn hom_dimension_checked(&self, other: &Self) -> (r: Option<usize>)
        ensures
            match r {
                Some(v) => v == hom_dim_spec(self@, other@),
                None => hom_dim_spec(self@, other@) > usize::MAX,
            },
    {
        let ghost a = self@;
        let ghost b = other@;
        let ghost g = hom_term(a, b);
        let mut total: usize = 0;
        let ghost mut seen: Set<i32> = Set::empty();
        proof {
            lemma_sum_empty(g);
        }
        for k in it: self.dimensions.keys()
            invariant
                a == self@,
                b == other@,
                g == hom_term(a, b),
                a.dom().finite(),
                it.seq().no_duplicates(),
                it.seq().unref().to_set() == a.dom(),
                seen.finite(),
                forall|x: i32| seen.contains(x) <==> exists|j: int| 0 <= j < it.index() && *it.seq()[j] == x,
                total == sum_over(seen, g),
                seen.subset_of(a.dom()),
                forall|x: i32|
                    a.dom().contains(x) && !seen.contains(x) ==> exists|j: int|
                        it.index() <= j < it.seq().len() && *it.seq()[j] == x,
        {
            let da = *self.dimensions.get(k).unwrap();
            let db: usize = match other.dimensions.get(k) {
                Some(d) => *d,
                None => 0,
            };
            proof {
                assert(!seen.contains(*k));
                assert(a.dom().contains(*k));
                lemma_sum_insert(seen, g, *k);
                lemma_sum_subset_le(seen.insert(*k), a.dom(), g);
                assert(g(*k) == da * db);
                assert(total + da * db <= hom_dim_spec(a, b));
            }
            let prod: usize = match da.checked_mul(db) {
                Some(v) => v,
                None => {
                    return None;
                },
            };
            total = match total.checked_add(prod) {
                Some(v) => v,
                None => {
                    return None;
                },
            };
            proof {
                seen = seen.insert(*k);
            }
        }
        assert(seen =~= a.dom());
        Some(total)
    }

    /// Dimension of the space of degree-preserving linear maps `V → W`:
    /// `Σₖ dim Vᵏ · dim Wᵏ`, summed over the degrees of `V`.
    pub fn hom_dimension(&self, other: &Self) -> (r: usize)
        requires
            hom_dim_spec(self@, other@) <= usize::MAX,
        ensures
            r == hom_dim_spec(self@, other@),
    {
        match self.hom_dimension_checked(other) {
            Some(v) => v,
            None => {
                assert(false);
                0
            },
        }
    }

    /// Truncate to degrees in [lo, hi].
    pub fn truncate(&self, lo: i32, hi: i32) -> (r: Self)
        ensures
            r@ == truncate_spec(self@, lo, hi),
    {
        let ghost m = self@;
        let mut dims: HashMap<i32, usize> = HashMap::new();
        let ghost mut seen: Set<i32> = Set::empty();
        assert(dims@ =~= truncate_spec(m.restrict(seen), lo, hi));
        for k in it: self.dimensions.keys()
            invariant
                m == self@,
                it.seq().no_duplicates(),
                it.seq().unref().to_set() == m.dom(),
                forall|x: i32| seen.contains(x) <==> exists|j: int| 0 <= j < it.index() && *it.seq()[j] == x,
                seen.subset_of(m.dom()),
                forall|x: i32|
                    m.dom().contains(x) && !seen.contains(x) ==> exists|j: int|
                        it.index() <= j < it.seq().len() && *it.seq()[j] == x,
                dims@ == truncate_spec(m.restrict(seen), lo, hi),
        {
            let d = *self.dimensions.get(k).unwrap();
            if *k >= lo && *k <= hi {
                dims.insert(*k, d);
            }
            proof {
                seen = seen.insert(*k);
                assert(dims@ =~= truncate_spec(m.restrict(seen), lo, hi));
            }
        }
        assert(m.restrict(seen) =~= m);
        GradedVectorSpace { dimensions: dims }
    }
}


/// Koszul sign: (-1)^{|a||b|}, as `1` or `-1`.
pub fn koszul_sign(deg_a: i32, deg_b: i32) -> (r: i32)
    requires
        i32::MIN <= deg_a * deg_b <= i32::MAX,
    ensures
        r == sign_spec(deg_a * deg_b),
{
    if (deg_a * deg_b) % 2 == 0 {
        1
    } else {
        -1
    }
}


// ------------------------------------------------------------------
// Laws
// ------------------------------------------------------------------

/// `(-1)ˣ⁺ʸ = (-1)ˣ (-1)ʸ`.
pub proof fn lemma_sign_add(x: int, y: int)
    ensures
        sign_spec(x + y) == sign_spec(x) * sign_spec(y),
{
    vstd::arithmetic::div_mod::lemma_add_mod_noop(x, y, 2);
}

/// The Koszul sign `(-1)^{|a||b|}` is symmetric in `a` and `b`, and it is `-1` exactly when
/// both degrees are odd.
pub proof fn lemma_koszul_sign_law(a: int, b: int)
    ensures
        sign_spec(a * b) == sign_spec(b * a),
        sign_spec(a * b) == -1 <==> (a % 2 == 1 && b % 2 == 1),
{
    vstd::arithmetic::mul::lemma_mul_is_commutative(a, b);
    vstd::arithmetic::div_mod::lemma_mul_mod_noop(a, b, 2);
    let ra = a % 2;
    let rb = b % 2;
    assert(0 <= ra < 2 && 0 <= rb < 2);
    assert((ra * rb) % 2 == 1 <==> (ra == 1 && rb == 1)) by (nonlinear_arith)
        requires
            0 <= ra < 2,
            0 <= rb < 2,
    ;
}

/// The Koszul sign is multiplicative in each degree: `(-1)^{(|a|+|b|)|c|} =
/// (-1)^{|a||c|} (-1)^{|b||c|}`.
pub proof fn lemma_koszul_sign_bilinear(a: int, b: int, c: int)
    ensures
        sign_spec((a + b) * c) == sign_spec(a * c) * sign_spec(b * c),
{
    vstd::arithmetic::mul::lemma_mul_is_distributive_add_other_way(c, a, b);
    lemma_sign_add(a * c, b * c);
}

/// Dimension of one degree of a direct sum: `dim (V ⊕ W)ᵏ = dim Vᵏ + dim Wᵏ`.
pub proof fn lemma_dim_direct_sum(a: Map<i32, usize>, b: Map<i32, usize>, k: i32)
    requires
        direct_sum_fits(a, b),
    ensures
        dim_spec(direct_sum_spec(a, b), k) == dim_spec(a, k) + dim_spec(b, k),
{
    assert(dim_spec(a, k) + dim_spec(b, k) <= usize::MAX);
}

/// The direct sum is commutative: `V ⊕ W = W ⊕ V`.
pub proof fn lemma_direct_sum_commutative(a: Map<i32, usize>, b: Map<i32, usize>)
    ensures
        direct_sum_spec(a, b) == direct_sum_spec(b, a),
{
    assert(direct_sum_spec(a, b) =~= direct_sum_spec(b, a));
}

/// The zero space is a unit of the direct sum: `V ⊕ 0 = V`.
pub proof fn lemma_direct_sum_zero(a: Map<i32, usize>)
    ensures
        direct_sum_spec(a, Map::empty()) == a,
{
    assert(direct_sum_spec(a, Map::empty()) =~= a);
}

/// The direct sum is associative: `(U ⊕ V) ⊕ W = U ⊕ (V ⊕ W)`.
pub proof fn lemma_direct_sum_associative(a: Map<i32, usize>, b: Map<i32, usize>, c: Map<i32, usize>)
    requires
        direct_sum_fits(a, b),
        direct_sum_fits(b, c),
        direct_sum_fits(direct_sum_spec(a, b), c),
        direct_sum_fits(a, direct_sum_spec(b, c)),
    ensures
        direct_sum_spec(direct_sum_spec(a, b), c) == direct_sum_spec(a, direct_sum_spec(b, c)),
{
    assert forall|k: i32| #[trigger] dim_spec(direct_sum_spec(a, b), k) == dim_spec(a, k) + dim_spec(b, k) by {
        lemma_dim_direct_sum(a, b, k);
    }
    assert forall|k: i32| #[trigger] dim_spec(direct_sum_spec(b, c), k) == dim_spec(b, k) + dim_spec(c, k) by {
        lemma_dim_direct_sum(b, c, k);
    }
    assert(direct_sum_spec(direct_sum_spec(a, b), c) =~= direct_sum_spec(a, direct_sum_spec(b, c)));
}

/// Total dimension is additive: `dim (V ⊕ W) = dim V + dim W`.
pub proof fn lemma_total_dim_direct_sum(a: Map<i32, usize>, b: Map<i32, usize>)
    requires
        a.dom().finite(),
        b.dom().finite(),
        direct_sum_fits(a, b),
    ensures
        total_dim_spec(direct_sum_spec(a, b)) == total_dim_spec(a) + total_dim_spec(b),
{
    let s = direct_sum_spec(a, b);
    let u = a.dom().union(b.dom());
    assert(s.dom() =~= u);
    assert forall|k: i32| u.contains(k) implies dim_term(s)(k) == dim_term(a)(k) + dim_term(b)(k) by {
        lemma_dim_direct_sum(a, b, k);
    }
    lemma_sum_add(u, dim_term(a), dim_term(b), dim_term(s));
    lemma_sum_extend_zero(a.dom(), u, dim_term(a));
    lemma_sum_extend_zero(b.dom(), u, dim_term(b));
}

/// The Euler characteristic is additive: `χ(V ⊕ W) = χ(V) + χ(W)`.
pub proof fn lemma_euler_direct_sum(a: Map<i32, usize>, b: Map<i32, usize>)
    requires
        a.dom().finite(),
        b.dom().finite(),
        direct_sum_fits(a, b),
    ensures
        euler_spec(direct_sum_spec(a, b)) == euler_spec(a) + euler_spec(b),
{
    let s = direct_sum_spec(a, b);
    let u = a.dom().union(b.dom());
    assert(s.dom() =~= u);
    assert forall|k: i32| u.contains(k) implies euler_term(s)(k) == euler_term(a)(k) + euler_term(b)(k) by {
        lemma_dim_direct_sum(a, b, k);
        vstd::arithmetic::mul::lemma_mul_is_distributive_add(
            sign_spec(k as int),
            dim_spec(a, k) as int,
            dim_spec(b, k) as int,
        );
    }
    lemma_sum_add(u, euler_term(a), euler_term(b), euler_term(s));
    lemma_sum_extend_zero(a.dom(), u, euler_term(a));
    lemma_sum_extend_zero(b.dom(), u, euler_term(b));
}

/// Shifting by zero changes nothing: `V[0] = V`.
pub proof fn lemma_shift_zero(m: Map<i32, usize>)
    ensures
        shift_spec(m, 0) == m,
{
    assert(shift_spec(m, 0) =~= m);
}

/// Shifts compose: `V[x][y] = V[x + y]`.
pub proof fn lemma_shift_compose(m: Map<i32, usize>, x: i32, y: i32)
    requires
        shift_fits(m, x),
        i32::MIN <= x + y <= i32::MAX,
    ensures
        shift_spec(shift_spec(m, x), y) == shift_spec(m, (x + y) as i32),
{
    let lhs = shift_spec(shift_spec(m, x), y);
    let rhs = shift_spec(m, (x + y) as i32);
    assert forall|j: i32| lhs.contains_key(j) <==> rhs.contains_key(j) by {
        if rhs.contains_key(j) {
            let k = (j - (x + y)) as i32;
            assert(m.contains_key(k));
            assert(i32::MIN <= k + x <= i32::MAX);
        }
    }
    assert(lhs =~= rhs);
}

/// A shift is undone by the opposite shift: `V[n][-n] = V`.
pub proof fn lemma_shift_inverse(m: Map<i32, usize>, n: i32)
    requires
        shift_fits(m, n),
        n != i32::MIN,
    ensures
        shift_spec(shift_spec(m, n), (-n) as i32) == m,
{
    lemma_shift_compose(m, n, (-n) as i32);
    lemma_shift_zero(m);
}

/// The domain of a shift is the domain moved up by `n`.
proof fn lemma_shift_dom(m: Map<i32, usize>, n: i32)
    requires
        shift_fits(m, n),
    ensures
        shift_spec(m, n).dom() == m.dom().map(|k: i32| (k + n) as i32),
{
    let h = |k: i32| (k + n) as i32;
    assert forall|j: i32| shift_spec(m, n).contains_key(j) <==> m.dom().map(h).contains(j) by {
        if shift_spec(m, n).contains_key(j) {
            let k = (j - n) as i32;
            assert(m.dom().contains(k) && j == h(k));
        }
        if m.dom().map(h).contains(j) {
            let k = choose|k: i32| m.dom().contains(k) && j == h(k);
            assert(i32::MIN <= k + n <= i32::MAX);
        }
    }
    assert(shift_spec(m, n).dom() =~= m.dom().map(h));
}

/// Total dimension is unchanged by a shift: `dim V[n] = dim V`.
pub proof fn lemma_total_dim_shift(m: Map<i32, usize>, n: i32)
    requires
        m.dom().finite(),
        shift_fits(m, n),
    ensures
        total_dim_spec(shift_spec(m, n)) == total_dim_spec(m),
{
    let h = |k: i32| (k + n) as i32;
    let s = shift_spec(m, n);
    lemma_shift_dom(m, n);
    assert forall|k: i32| m.dom().contains(k) implies dim_term(m)(k) == dim_term(s)(h(k)) by {
        assert(i32::MIN <= k + n <= i32::MAX);
    }
    lemma_sum_reindex(m.dom(), h, dim_term(s), dim_term(m));
}

/// The Euler characteristic changes by the sign of the shift: `χ(V[n]) = (-1)ⁿ χ(V)`.
pub proof fn lemma_euler_shift(m: Map<i32, usize>, n: i32)
    requires
        m.dom().finite(),
        shift_fits(m, n),
    ensures
        euler_spec(shift_spec(m, n)) == sign_spec(n as int) * euler_spec(m),
{
    let h = |k: i32| (k + n) as i32;
    let s = shift_spec(m, n);
    let f = |k: i32| sign_spec(n as int) * euler_term(m)(k);
    lemma_shift_dom(m, n);
    assert forall|k: i32| m.dom().contains(k) implies f(k) == euler_term(s)(h(k)) by {
        assert(i32::MIN <= k + n <= i32::MAX);
        lemma_sign_add(k as int, n as int);
        let d = dim_spec(m, k) as int;
        let sk = sign_spec(k as int);
        let sn = sign_spec(n as int);
        vstd::arithmetic::mul::lemma_mul_is_associative(sn, sk, d);
        vstd::arithmetic::mul::lemma_mul_is_commutative(sn, sk);
    }
    lemma_sum_reindex(m.dom(), h, euler_term(s), f);
    lemma_sum_scale(m.dom(), euler_term(m), sign_spec(n as int), f);
}

/// Truncating twice truncates to the intersection of the ranges.
pub proof fn lemma_truncate_twice(m: Map<i32, usize>, lo1: i32, hi1: i32, lo2: i32, hi2: i32)
    ensures
        truncate_spec(truncate_spec(m, lo1, hi1), lo2, hi2) == truncate_spec(
            m,
            if lo1 < lo2 { lo2 } else { lo1 },
            if hi1 < hi2 { hi1 } else { hi2 },
        ),
{
    assert(truncate_spec(truncate_spec(m, lo1, hi1), lo2, hi2) =~= truncate_spec(
        m,
        if lo1 < lo2 { lo2 } else { lo1 },
        if hi1 < hi2 { hi1 } else { hi2 },
    ));
}

/// Truncating to a range that holds every degree changes nothing.
pub proof fn lemma_truncate_whole(m: Map<i32, usize>, lo: i32, hi: i32)
    requires
        forall|k: i32| m.contains_key(k) ==> lo <= k <= hi,
    ensures
        truncate_spec(m, lo, hi) == m,
{
    assert(truncate_spec(m, lo, hi) =~= m);
}


/// A double sum can be added up in either order.
pub proof fn lemma_sum_swap<X, Y>(s: Set<X>, t: Set<Y>, f: spec_fn(X, Y) -> int)
    requires
        s.finite(),
        t.finite(),
    ensures
        sum_over(s, |x: X| sum_over(t, |y: Y| f(x, y))) == sum_over(
            t,
            |y: Y| sum_over(s, |x: X| f(x, y)),
        ),
    decreases s.len(),
{
    let rows = |x: X| sum_over(t, |y: Y| f(x, y));
    let cols = |y: Y| sum_over(s, |x: X| f(x, y));
    if s.len() == 0 {
        assert(s =~= Set::empty());
        lemma_sum_empty(rows);
        assert forall|y: Y| t.contains(y) implies cols(y) == 0 by {
            lemma_sum_empty(|x: X| f(x, y));
        }
        lemma_sum_zero(t, cols);
    } else {
        let a = s.choose();
        let r = s.remove(a);
        lemma_sum_swap(r, t, f);
        let cols_r = |y: Y| sum_over(r, |x: X| f(x, y));
        lemma_sum_remove(s, rows, a);
        assert forall|y: Y| t.contains(y) implies cols(y) == cols_r(y) + f(a, y) by {
            lemma_sum_remove(s, |x: X| f(x, y), a);
        }
        lemma_sum_add(t, cols_r, |y: Y| f(a, y), cols);
    }
}

/// The degrees `p + q` with `p ∈ s` and `q` a degree of `b`.
pub open spec fn tensor_reach_set(s: Set<i32>, b: Map<i32, usize>) -> Set<i32> {
    Set::new(|n: i32| tensor_reaches(s, b, n as int))
}

/// Every sum `p + q` with `p ∈ s` and `q` a degree of `b` is an `i32`.
pub open spec fn sums_fit(s: Set<i32>, b: Map<i32, usize>) -> bool {
    forall|p: i32, q: i32| s.contains(p) && b.contains_key(q) ==> i32::MIN <= #[trigger] (p + q) <= i32::MAX
}

proof fn lemma_tensor_reach_finite(s: Set<i32>, b: Map<i32, usize>)
    requires
        s.finite(),
        b.dom().finite(),
        sums_fit(s, b),
    ensures
        tensor_reach_set(s, b).finite(),
    decreases s.len(),
{
    if s.len() == 0 {
        assert(s =~= Set::empty());
        assert(tensor_reach_set(s, b) =~= Set::empty());
    } else {
        let p = s.choose();
        let r = s.remove(p);
        lemma_tensor_reach_finite(r, b);
        let h = |q: i32| (p + q) as i32;
        b.dom().lemma_map_finite(h);
        assert forall|n: i32|
            tensor_reach_set(s, b).contains(n) <==> tensor_reach_set(r, b).union(b.dom().map(h)).contains(
                n,
            ) by {
            if tensor_reach_set(s, b).contains(n) {
                let (p0, q0) = choose|p0: i32, q0: i32|
                    s.contains(p0) && b.contains_key(q0) && p0 + q0 == n;
                if p0 == p {
                    assert(b.dom().contains(q0) && n == h(q0));
                } else {
                    assert(r.contains(p0) && b.contains_key(q0) && p0 + q0 == n);
                }
            }
            if b.dom().map(h).contains(n) {
                let q0 = choose|q0: i32| b.dom().contains(q0) && n == h(q0);
                assert(i32::MIN <= p + q0 <= i32::MAX);
                assert(s.contains(p) && b.contains_key(q0) && p + q0 == n);
            }
            if tensor_reach_set(r, b).contains(n) {
                let (p0, q0) = choose|p0: i32, q0: i32|
                    r.contains(p0) && b.contains_key(q0) && p0 + q0 == n;
                assert(s.contains(p0) && b.contains_key(q0) && p0 + q0 == n);
            }
        }
        assert(tensor_reach_set(s, b) =~= tensor_reach_set(r, b).union(b.dom().map(h)));
    }
}

/// One column of a convolution: summing `g(n - p)` over the reached degrees `n` is summing
/// `g(q)` over the degrees `q` of `b`, when `g` vanishes off the degrees of `b`.
proof fn lemma_convolution_column(s: Set<i32>, b: Map<i32, usize>, g: spec_fn(int) -> int, p: i32)
    requires
        s.finite(),
        b.dom().finite(),
        sums_fit(s, b),
        s.contains(p),
        forall|x: int|
            !(i32::MIN <= x <= i32::MAX && b.contains_key(x as i32)) ==> #[trigger] g(x) == 0,
    ensures
        sum_over(tensor_reach_set(s, b), |n: i32| g(n - p)) == sum_over(b.dom(), |q: i32| g(q as int)),
{
    let d = tensor_reach_set(s, b);
    lemma_tensor_reach_finite(s, b);
    let h = |q: i32| (p + q) as i32;
    let col = |n: i32| g(n - p);
    let img = b.dom().map(h);
    assert forall|n: i32| img.contains(n) implies d.contains(n) by {
        let q0 = choose|q0: i32| b.dom().contains(q0) && n == h(q0);
        assert(i32::MIN <= p + q0 <= i32::MAX);
        assert(s.contains(p) && b.contains_key(q0) && p + q0 == n);
    }
    assert forall|n: i32| d.contains(n) && !img.contains(n) implies col(n) == 0 by {
        if i32::MIN <= n - p <= i32::MAX && b.contains_key((n - p) as i32) {
            let q0 = (n - p) as i32;
            assert(b.dom().contains(q0) && n == h(q0));
        }
    }
    lemma_sum_extend_zero(img, d, col);
    assert forall|q: i32| b.dom().contains(q) implies g(q as int) == col(h(q)) by {
        assert(i32::MIN <= p + q <= i32::MAX);
    }
    lemma_sum_reindex(b.dom(), h, col, |q: i32| g(q as int));
}

/// Convolution of finite sums: `Σₙ Σₚ f(p) g(n - p) = (Σₚ f(p)) (Σ_q g(q))`.
proof fn lemma_convolution(
    s: Set<i32>,
    b: Map<i32, usize>,
    f: spec_fn(i32) -> int,
    g: spec_fn(int) -> int,
)
    requires
        s.finite(),
        b.dom().finite(),
        sums_fit(s, b),
        forall|x: int|
            !(i32::MIN <= x <= i32::MAX && b.contains_key(x as i32)) ==> #[trigger] g(x) == 0,
    ensures
        tensor_reach_set(s, b).finite(),
        sum_over(tensor_reach_set(s, b), |n: i32| sum_over(s, |p: i32| f(p) * g(n - p)))
            == sum_over(s, f) * sum_over(b.dom(), |q: i32| g(q as int)),
{
    let d = tensor_reach_set(s, b);
    lemma_tensor_reach_finite(s, b);
    let total_b = sum_over(b.dom(), |q: i32| g(q as int));
    let cell = |n: i32, p: i32| f(p) * g(n - p);
    assert forall|n: i32| d.contains(n) implies sum_over(s, |p: i32| f(p) * g(n - p)) == sum_over(
        s,
        |p: i32| cell(n, p),
    ) by {
        lemma_sum_congruent(s, |p: i32| f(p) * g(n - p), |p: i32| cell(n, p));
    }
    lemma_sum_congruent(
        d,
        |n: i32| sum_over(s, |p: i32| f(p) * g(n - p)),
        |n: i32| sum_over(s, |p: i32| cell(n, p)),
    );
    lemma_sum_swap(d, s, cell);
    assert forall|p: i32| s.contains(p) implies sum_over(d, |n: i32| cell(n, p)) == total_b * f(p) by {
        lemma_convolution_column(s, b, g, p);
        lemma_sum_scale(d, |n: i32| g(n - p), f(p), |n: i32| cell(n, p));
        vstd::arithmetic::mul::lemma_mul_is_commutative(f(p), total_b);
    }
    lemma_sum_scale(s, f, total_b, |p: i32| sum_over(d, |n: i32| cell(n, p)));
    vstd::arithmetic::mul::lemma_mul_is_commutative(sum_over(s, f), total_b);
}

/// A tensor product value is a non-negative sum.
proof fn lemma_tensor_value_nonneg(a: Map<i32, usize>, b: Map<i32, usize>, n: int)
    requires
        a.dom().finite(),
    ensures
        tensor_value(a, b, a.dom(), n) >= 0,
{
    lemma_sum_empty(tensor_term(a, b, n));
    lemma_sum_subset_le(Set::empty(), a.dom(), tensor_term(a, b, n));
}

/// Total dimension is multiplicative: `dim (V ⊗ W) = dim V · dim W`.
pub proof fn lemma_total_dim_tensor(a: Map<i32, usize>, b: Map<i32, usize>)
    requires
        a.dom().finite(),
        b.dom().finite(),
        tensor_fits(a, b),
    ensures
        total_dim_spec(tensor_spec(a, b)) == total_dim_spec(a) * total_dim_spec(b),
{
    let t = tensor_spec(a, b);
    let d = tensor_reach_set(a.dom(), b);
    assert(t.dom() =~= d);
    let f = dim_term(a);
    let g = |x: int| dim_at(b, x) as int;
    assert forall|n: i32| d.contains(n) implies dim_term(t)(n) == sum_over(
        a.dom(),
        |p: i32| f(p) * g(n - p),
    ) by {
        lemma_tensor_value_nonneg(a, b, n as int);
        assert(tensor_value(a, b, a.dom(), n as int) <= usize::MAX);
        lemma_sum_congruent(a.dom(), tensor_term(a, b, n as int), |p: i32| f(p) * g(n - p));
    }
    lemma_convolution(a.dom(), b, f, g);
    lemma_sum_congruent(d, dim_term(t), |n: i32| sum_over(a.dom(), |p: i32| f(p) * g(n - p)));
    lemma_sum_congruent(b.dom(), |q: i32| g(q as int), dim_term(b));
}

/// The Euler characteristic is multiplicative: `χ(V ⊗ W) = χ(V) · χ(W)`.
pub proof fn lemma_euler_tensor(a: Map<i32, usize>, b: Map<i32, usize>)
    requires
        a.dom().finite(),
        b.dom().finite(),
        tensor_fits(a, b),
    ensures
        euler_spec(tensor_spec(a, b)) == euler_spec(a) * euler_spec(b),
{
    let t = tensor_spec(a, b);
    let d = tensor_reach_set(a.dom(), b);
    assert(t.dom() =~= d);
    let f = euler_term(a);
    let g = |x: int| sign_spec(x) * dim_at(b, x);
    assert forall|n: i32| d.contains(n) implies euler_term(t)(n) == sum_over(
        a.dom(),
        |p: i32| f(p) * g(n - p),
    ) by {
        lemma_tensor_value_nonneg(a, b, n as int);
        assert(tensor_value(a, b, a.dom(), n as int) <= usize::MAX);
        let sn = sign_spec(n as int);
        assert forall|p: i32| a.dom().contains(p) implies f(p) * g(n - p) == sn * tensor_term(
            a,
            b,
            n as int,
        )(p) by {
            lemma_sign_add(p as int, n - p);
            let sp = sign_spec(p as int);
            let sq = sign_spec(n - p);
            let x = dim_spec(a, p) as int;
            let y = dim_at(b, n - p) as int;
            assert(sp * x * (sq * y) == (sp * sq) * (x * y)) by (nonlinear_arith);
        }
        lemma_sum_scale(a.dom(), tensor_term(a, b, n as int), sn, |p: i32| f(p) * g(n - p));
    }
    lemma_convolution(a.dom(), b, f, g);
    lemma_sum_congruent(d, euler_term(t), |n: i32| sum_over(a.dom(), |p: i32| f(p) * g(n - p)));
    lemma_sum_congruent(b.dom(), |q: i32| g(q as int), euler_term(b));
}


/// The tensor product is commutative: `(V ⊗ W)ⁿ` and `(W ⊗ V)ⁿ` have the same dimension
/// in every degree.
pub proof fn lemma_tensor_commutative(a: Map<i32, usize>, b: Map<i32, usize>)
    requires
        a.dom().finite(),
        b.dom().finite(),
    ensures
        tensor_spec(a, b) == tensor_spec(b, a),
{
    assert forall|n: i32| tensor_reaches(a.dom(), b, n as int) <==> tensor_reaches(b.dom(), a, n as int) by {
        if tensor_reaches(a.dom(), b, n as int) {
            let (p0, q0) = choose|p0: i32, q0: i32|
                a.dom().contains(p0) && b.contains_key(q0) && p0 + q0 == n;
            assert(b.dom().contains(q0) && a.contains_key(p0) && q0 + p0 == n);
        }
        if tensor_reaches(b.dom(), a, n as int) {
            let (q0, p0) = choose|q0: i32, p0: i32|
                b.dom().contains(q0) && a.contains_key(p0) && q0 + p0 == n;
            assert(a.dom().contains(p0) && b.contains_key(q0) && p0 + q0 == n);
        }
    }
    assert forall|n: i32| #[trigger] tensor_value(a, b, a.dom(), n as int) == tensor_value(b, a, b.dom(), n as int) by {
        let ta = tensor_term(a, b, n as int);
        let tb = tensor_term(b, a, n as int);
        let s1 = a.dom().filter(|p: i32| i32::MIN <= n - p <= i32::MAX && b.contains_key((n - p) as i32));
        let s2 = b.dom().filter(|q: i32| i32::MIN <= n - q <= i32::MAX && a.contains_key((n - q) as i32));
        assert forall|p: i32| a.dom().contains(p) && !s1.contains(p) implies ta(p) == 0 by {
            assert(dim_at(b, n - p) == 0);
            vstd::arithmetic::mul::lemma_mul_by_zero_is_zero(dim_spec(a, p) as int);
        }
        assert forall|q: i32| b.dom().contains(q) && !s2.contains(q) implies tb(q) == 0 by {
            assert(dim_at(a, n - q) == 0);
            vstd::arithmetic::mul::lemma_mul_by_zero_is_zero(dim_spec(b, q) as int);
        }
        lemma_sum_extend_zero(s1, a.dom(), ta);
        lemma_sum_extend_zero(s2, b.dom(), tb);
        let h = |p: i32| (n - p) as i32;
        assert forall|p: i32| s1.contains(p) implies ta(p) == tb(h(p)) by {
            vstd::arithmetic::mul::lemma_mul_is_commutative(dim_spec(a, p) as int, dim_at(b, n - p) as int);
        }
        lemma_sum_reindex(s1, h, tb, ta);
        assert forall|q: i32| s2.contains(q) <==> s1.map(h).contains(q) by {
            if s2.contains(q) {
                let p = (n - q) as i32;
                assert(s1.contains(p) && q == h(p));
            }
        }
        assert(s1.map(h) =~= s2);
    }
    assert(tensor_spec(a, b) =~= tensor_spec(b, a));
}

/// The ground field in degree 0 is a unit of the tensor product: `V ⊗ k = V`.
pub proof fn lemma_tensor_unit(a: Map<i32, usize>)
    requires
        a.dom().finite(),
    ensures
        tensor_spec(a, map![0i32 => 1usize]) == a,
{
    let u = map![0i32 => 1usize];
    let t = tensor_spec(a, u);
    assert forall|n: i32| t.contains_key(n) <==> a.contains_key(n) by {
        if a.contains_key(n) {
            assert(a.dom().contains(n) && u.contains_key(0i32) && n + 0i32 == n);
        }
    }
    assert forall|n: i32| #[trigger] a.contains_key(n) implies t[n] == a[n] by {
        let g = tensor_term(a, u, n as int);
        assert forall|p: i32| a.dom().contains(p) && !set![n].contains(p) implies g(p) == 0 by {
            assert(dim_at(u, n - p) == 0);
            vstd::arithmetic::mul::lemma_mul_by_zero_is_zero(dim_spec(a, p) as int);
        }
        assert(dim_at(u, n - n) == 1);
        assert(g(n) == dim_spec(a, n));
        lemma_sum_extend_zero(set![n], a.dom(), g);
        lemma_sum_insert(Set::<i32>::empty(), g, n);
        lemma_sum_empty(g);
        assert(set![n] =~= Set::<i32>::empty().insert(n));
    }
    assert(t =~= a);
}


/// The dimension of degree-preserving maps is symmetric: `dim Hom(V, W) = dim Hom(W, V)`.
pub proof fn lemma_hom_dimension_symmetric(a: Map<i32, usize>, b: Map<i32, usize>)
    requires
        a.dom().finite(),
        b.dom().finite(),
    ensures
        hom_dim_spec(a, b) == hom_dim_spec(b, a),
{
    let both = a.dom().intersect(b.dom());
    assert forall|k: i32| a.dom().contains(k) && !both.contains(k) implies hom_term(a, b)(k) == 0 by {
        vstd::arithmetic::mul::lemma_mul_by_zero_is_zero(dim_spec(a, k) as int);
    }
    assert forall|k: i32| b.dom().contains(k) && !both.contains(k) implies hom_term(b, a)(k) == 0 by {
        vstd::arithmetic::mul::lemma_mul_by_zero_is_zero(dim_spec(b, k) as int);
    }
    lemma_sum_extend_zero(both, a.dom(), hom_term(a, b));
    lemma_sum_extend_zero(both, b.dom(), hom_term(b, a));
    assert forall|k: i32| both.contains(k) implies hom_term(a, b)(k) == hom_term(b, a)(k) by {
        vstd::arithmetic::mul::lemma_mul_is_commutative(dim_spec(a, k) as int, dim_spec(b, k) as int);
    }
    lemma_sum_congruent(both, hom_term(a, b), hom_term(b, a));
}

} // verus!
