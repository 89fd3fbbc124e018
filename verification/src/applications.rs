//! Binomial counts of forms, Hodge dimensions and Betti tables.

use crate::bits::{
    bit_spec, count_bits, has_bit, lemma_count_bits_above, lemma_count_bits_low, lemma_weight_count_negative,
    lemma_weight_count_split, weight_count,
};
use crate::cohomology::{betti_spec, duality_fits, lemma_betti_without_differentials, poincare_duality_spec};
use crate::graded::{dim_at, dim_spec, dim_term, euler_spec, euler_term, sign_spec, sum_over, total_dim_spec};
use std::collections::HashMap;
use vstd::prelude::*;

verus! {

broadcast use vstd::std_specs::hash::group_hash_axioms;

/// Binomial coefficient `C(n, k)`, defined by Pascal's rule.
pub open spec fn choose_spec(n: nat, k: nat) -> nat
    decreases n,
{
    if k == 0 {
        1
    } else if n == 0 {
        0
    } else {
        choose_spec((n - 1) as nat, (k - 1) as nat) + choose_spec((n - 1) as nat, k)
    }
}

/// The smaller of `k` and `n - k`: the number of steps the product formula takes.
pub open spec fn binomial_steps(n: nat, k: nat) -> nat {
    if k <= n - k {
        k
    } else {
        (n - k) as nat
    }
}

/// Every intermediate product `C(n, i) * (n - i)` of the product formula fits in a `usize`.
pub open spec fn binomial_fits(n: nat, k: nat) -> bool {
    k > n || forall|i: nat|
        i < binomial_steps(n, k) ==> #[trigger] choose_spec(n, i) * (n - i) <= usize::MAX
}

/// `C(n, k)` vanishes above `n`.
pub proof fn lemma_choose_above(n: nat, k: nat)
    requires
        k > n,
    ensures
        choose_spec(n, k) == 0,
    decreases n,
{
    if n > 0 {
        lemma_choose_above((n - 1) as nat, (k - 1) as nat);
        lemma_choose_above((n - 1) as nat, k);
    }
}

/// `C(n, n) = 1`.
pub proof fn lemma_choose_diag(n: nat)
    ensures
        choose_spec(n, n) == 1,
    decreases n,
{
    if n > 0 {
        lemma_choose_diag((n - 1) as nat);
        lemma_choose_above((n - 1) as nat, n);
    }
}

/// The step of the product formula: `(k + 1) C(n, k + 1) = (n - k) C(n, k)`.
pub proof fn lemma_choose_step(n: nat, k: nat)
    ensures
        (k + 1) * choose_spec(n, k + 1) == (n - k) * choose_spec(n, k),
    decreases n,
{
    if n == 0 {
        lemma_choose_above(0, k + 1);
        let c1 = choose_spec(n, k + 1);
        assert((k + 1) * c1 == 0) by (nonlinear_arith)
            requires
                c1 == 0,
        ;
        if k > 0 {
            lemma_choose_above(0, k);
            let c = choose_spec(n, k);
            assert((n - k) * c == 0) by (nonlinear_arith)
                requires
                    c == 0,
            ;
        }
    } else {
        let m = (n - 1) as nat;
        lemma_choose_step(m, k);
        let a = choose_spec(m, k);
        let b = choose_spec(m, k + 1);
        assert(choose_spec(n, k + 1) == a + b);
        assert((k + 1) * b == (m - k) * a);
        let lhs = (k + 1) * choose_spec(n, k + 1);
        assert(lhs == n * a) by (nonlinear_arith)
            requires
                lhs == (k + 1) * (a + b),
                (k + 1) * b == (m - k) * a,
                m + 1 == n,
        ;
        if k == 0 {
            assert(choose_spec(m, 0) == 1);
            assert(choose_spec(n, 0) == 1);
            assert((n - k) * choose_spec(n, k) == n * a);
        } else {
            let km1 = (k - 1) as nat;
            lemma_choose_step(m, km1);
            let c = choose_spec(m, km1);
            assert(choose_spec(n, k) == c + a);
            assert(k * a == (m - km1) * c);
            let rhs = (n - k) * choose_spec(n, k);
            assert(rhs == n * a) by (nonlinear_arith)
                requires
                    rhs == (n - k) * (c + a),
                    k * a == (m - km1) * c,
                    m + 1 == n,
                    km1 + 1 == k,
            ;
            assert(lhs == rhs);
        }
    }
}

/// Symmetry: `C(n, k) = C(n, n - k)`.
pub proof fn lemma_choose_symmetric(n: nat, k: nat)
    requires
        k <= n,
    ensures
        choose_spec(n, k) == choose_spec(n, (n - k) as nat),
    decreases n,
{
    if n > 0 {
        let m = (n - 1) as nat;
        if k == 0 {
            lemma_choose_diag(n);
        } else if k == n {
            lemma_choose_diag(n);
        } else {
            lemma_choose_symmetric(m, (k - 1) as nat);
            lemma_choose_symmetric(m, k);
            assert(choose_spec(n, (n - k) as nat) == choose_spec(m, (n - k - 1) as nat) + choose_spec(
                m,
                (n - k) as nat,
            ));
        }
    }
}

/// `n!`.
pub open spec fn factorial(n: nat) -> nat
    decreases n,
{
    if n == 0 {
        1
    } else {
        n * factorial((n - 1) as nat)
    }
}

proof fn lemma_factorial_positive(n: nat)
    ensures
        factorial(n) > 0,
    decreases n,
{
    if n > 0 {
        lemma_factorial_positive((n - 1) as nat);
        let f = factorial((n - 1) as nat);
        assert(n * f > 0) by (nonlinear_arith)
            requires
                n > 0,
                f > 0,
        ;
    }
}

/// The factorial formula: `C(n, k) = n! / (k! (n - k)!)` for `k ≤ n`, since
/// `C(n, k) · k! · (n - k)! = n!`.
pub proof fn lemma_choose_factorial(n: nat, k: nat)
    requires
        k <= n,
    ensures
        choose_spec(n, k) * (factorial(k) * factorial((n - k) as nat)) == factorial(n),
        choose_spec(n, k) == factorial(n) / (factorial(k) * factorial((n - k) as nat)),
    decreases k,
{
    if k == 0 {
        assert(factorial(0) == 1);
    } else {
        let j = (k - 1) as nat;
        lemma_choose_factorial(n, j);
        lemma_choose_step(n, j);
        let cj = choose_spec(n, j) as int;
        let ck = choose_spec(n, k) as int;
        let fj = factorial(j) as int;
        let fr = factorial((n - k) as nat) as int;
        let m = (n - j) as int;
        assert(factorial(k) == k * factorial(j));
        assert(factorial((n - j) as nat) == m * fr) by {
            assert((n - j) as nat == ((n - k) as nat) + 1);
        }
        assert(cj * (fj * (m * fr)) == factorial(n));
        assert(k * ck == m * cj);
        assert(ck * ((k * fj) * fr) == cj * (fj * (m * fr))) by (nonlinear_arith)
            requires
                k * ck == m * cj,
        ;
    }
    lemma_factorial_positive(k);
    lemma_factorial_positive((n - k) as nat);
    let d = factorial(k) * factorial((n - k) as nat);
    assert(d > 0) by (nonlinear_arith)
        requires
            d == factorial(k) * factorial((n - k) as nat),
            factorial(k) > 0,
            factorial((n - k) as nat) > 0,
    ;
    vstd::arithmetic::div_mod::lemma_div_multiples_vanish(choose_spec(n, k) as int, d as int);
    vstd::arithmetic::mul::lemma_mul_is_commutative(choose_spec(n, k) as int, d as int);
}

/// Pascal's rule: `C(n, k) = C(n - 1, k - 1) + C(n - 1, k)` for `1 ≤ k` and `1 ≤ n`.
pub proof fn lemma_choose_pascal(n: nat, k: nat)
    requires
        1 <= k,
        1 <= n,
    ensures
        choose_spec(n, k) == choose_spec((n - 1) as nat, (k - 1) as nat) + choose_spec((n - 1) as nat, k),
{
}

/// Binomial coefficient `C(n, k)` by the product formula, with `C(n, k) = 0` for `k > n`.
pub fn binomial(n: usize, k: usize) -> (r: usize)
    requires
        binomial_fits(n as nat, k as nat),
    ensures
        r == choose_spec(n as nat, k as nat),
{
    if k > n {
        proof {
            lemma_choose_above(n as nat, k as nat);
        }
        return 0;
    }
    if k == 0 || k == n {
        proof {
            lemma_choose_diag(n as nat);
        }
        return 1;
    }
    let kk: usize = if k <= n - k {
        k
    } else {
        n - k
    };
    proof {
        lemma_choose_symmetric(n as nat, k as nat);
    }
    assert(choose_spec(n as nat, kk as nat) == choose_spec(n as nat, k as nat));
    let mut result: usize = 1;
    let mut i: usize = 0;
    while i < kk
        invariant
            0 <= i <= kk,
            kk == binomial_steps(n as nat, k as nat),
            kk <= n,
            k <= n,
            binomial_fits(n as nat, k as nat),
            result == choose_spec(n as nat, i as nat),
        decreases kk - i,
    {
        assert(choose_spec(n as nat, i as nat) * (n - i) <= usize::MAX);
        proof {
            lemma_choose_step(n as nat, i as nat);
        }
        let prod: usize = result * (n - i);
        let ghost next = choose_spec(n as nat, (i + 1) as nat);
        assert(prod == (i + 1) * next);
        proof {
            vstd::arithmetic::div_mod::lemma_div_by_multiple(next as int, (i + 1) as int);
            vstd::arithmetic::mul::lemma_mul_is_commutative(next as int, (i + 1) as int);
        }
        result = prod / (i + 1);
        i = i + 1;
    }
    result
}


/// `C(n, k)` by the product formula when every intermediate product fits in a `usize`, and
/// `None` exactly when one does not.
pub fn binomial_checked(n: usize, k: usize) -> (r: Option<usize>)
    ensures
        match r {
            Some(v) => binomial_fits(n as nat, k as nat) && v == choose_spec(n as nat, k as nat),
            None => !binomial_fits(n as nat, k as nat),
        },
{
    if k > n {
        proof {
            lemma_choose_above(n as nat, k as nat);
        }
        return Some(0);
    }
    if k == 0 || k == n {
        proof {
            lemma_choose_diag(n as nat);
        }
        return Some(1);
    }
    let kk: usize = if k <= n - k {
        k
    } else {
        n - k
    };
    proof {
        lemma_choose_symmetric(n as nat, k as nat);
    }
    assert(choose_spec(n as nat, kk as nat) == choose_spec(n as nat, k as nat));
    let mut result: usize = 1;
    let mut i: usize = 0;
    while i < kk
        invariant
            0 <= i <= kk,
            kk == binomial_steps(n as nat, k as nat),
            kk <= n,
            k <= n,
            result == choose_spec(n as nat, i as nat),
            forall|j: nat| j < i ==> #[trigger] choose_spec(n as nat, j) * (n - j) <= usize::MAX,
        decreases kk - i,
    {
        let prod: usize = match result.checked_mul(n - i) {
            Some(v) => v,
            None => {
                assert(choose_spec(n as nat, i as nat) * (n - i) > usize::MAX);
                return None;
            },
        };
        proof {
            lemma_choose_step(n as nat, i as nat);
        }
        let ghost next = choose_spec(n as nat, (i + 1) as nat);
        assert(prod == (i + 1) * next);
        proof {
            vstd::arithmetic::div_mod::lemma_div_by_multiple(next as int, (i + 1) as int);
            vstd::arithmetic::mul::lemma_mul_is_commutative(next as int, (i + 1) as int);
        }
        result = prod / (i + 1);
        i = i + 1;
    }
    Some(result)
}

/// `C(n, k)` for each degree `0 ≤ k ≤ n`, and nothing elsewhere.
pub open spec fn binomial_row(n: nat) -> Map<i32, usize> {
    Map::new(|k: i32| 0 <= k <= n, |k: i32| choose_spec(n, k as nat) as usize)
}

/// `C(n, n - k)` for each degree `0 ≤ k ≤ n`: the dimensions that the Hodge star reaches.
pub open spec fn star_row(n: nat) -> Map<i32, usize> {
    Map::new(|k: i32| 0 <= k <= n, |k: i32| choose_spec(n, (n - k) as nat) as usize)
}

/// Every binomial coefficient of row `n` can be computed in a `usize`.
pub open spec fn binomial_row_fits(n: nat) -> bool {
    forall|k: nat| k <= n ==> #[trigger] binomial_fits(n, k)
}

/// Two Betti tables agree in every degree present in both.
pub open spec fn compatible_spec(a: Map<i32, usize>, b: Map<i32, usize>) -> bool {
    forall|k: i32| a.contains_key(k) && b.contains_key(k) ==> a[k] == b[k]
}

/// `C(n, k + 1)` for each degree `0 ≤ k < n`: the Čech cochains of a cover by `n` open sets.
pub open spec fn cech_row(n: nat) -> Map<i32, usize> {
    Map::new(|k: i32| 0 <= k < n, |k: i32| choose_spec(n, (k + 1) as nat) as usize)
}

/// Dimensions of the forms on an `n`-manifold: `dim Ωᵏ = C(n, k)` for `0 ≤ k ≤ n`.
pub fn form_dimensions(n: usize) -> (r: HashMap<i32, usize>)
    requires
        n <= i32::MAX,
        binomial_row_fits(n as nat),
    ensures
        r@ == binomial_row(n as nat),
{
    let mut dims: HashMap<i32, usize> = HashMap::new();
    let top: i64 = n as i64;
    let mut kk: i64 = 0;
    while kk <= top
        invariant
            top == n,
            n <= i32::MAX,
            0 <= kk <= top + 1,
            binomial_row_fits(n as nat),
            dims@ == binomial_row(n as nat).restrict(Set::new(|j: i32| j < kk)),
        decreases top + 1 - kk,
    {
        let k: i32 = kk as i32;
        assert(binomial_fits(n as nat, k as nat));
        dims.insert(k, binomial(n, k as usize));
        proof {
            assert(dims@ =~= binomial_row(n as nat).restrict(Set::new(|j: i32| j < kk + 1)));
        }
        kk = kk + 1;
    }
    assert(dims@ =~= binomial_row(n as nat));
    dims
}

/// Dimensions of the Čech complex of a cover by `n` open sets: the cochains of degree `k` live
/// on the `(k + 1)`-fold intersections, so `dim Čᵏ = C(n, k + 1)` for `0 ≤ k < n`.
pub fn cech_dimensions(n: usize) -> (r: HashMap<i32, usize>)
    requires
        n <= i32::MAX,
        forall|k: nat| 1 <= k <= n ==> #[trigger] binomial_fits(n as nat, k),
    ensures
        r@ == cech_row(n as nat),
{
    let mut dims: HashMap<i32, usize> = HashMap::new();
    let top: i64 = n as i64;
    let mut kk: i64 = 0;
    while kk < top
        invariant
            top == n,
            n <= i32::MAX,
            0 <= kk <= top,
            forall|k: nat| 1 <= k <= n ==> #[trigger] binomial_fits(n as nat, k),
            dims@ == cech_row(n as nat).restrict(Set::new(|j: i32| j < kk)),
        decreases top - kk,
    {
        let k: i32 = kk as i32;
        assert(binomial_fits(n as nat, (k + 1) as nat));
        dims.insert(k, binomial(n, k as usize + 1));
        proof {
            assert(dims@ =~= cech_row(n as nat).restrict(Set::new(|j: i32| j < kk + 1)));
        }
        kk = kk + 1;
    }
    assert(dims@ =~= cech_row(n as nat));
    dims
}

/// Hodge theory: Hodge decomposition of cohomology.
pub struct HodgeDecomposition {
    /// Dimensions of the harmonic forms in each degree.
    pub harmonic_dimensions: HashMap<i32, usize>,
    /// The Hodge star operator (as dimensions).
    pub hodge_star_dims: HashMap<i32, usize>,
}

impl HodgeDecomposition {
    /// Compute Hodge decomposition for a manifold of dimension n:
    /// every k-form is harmonic (zero Laplacian), so ℋᵏ has dimension C(n, k),
    /// and the Hodge star *: Ωᵏ → Ωⁿ⁻ᵏ lands in a space of dimension C(n, n - k).
    pub fn for_dimension(n: usize) -> (r: Self)
        requires
            n <= i32::MAX,
            binomial_row_fits(n as nat),
        ensures
            r.harmonic_dimensions@ == binomial_row(n as nat),
            r.hodge_star_dims@ == star_row(n as nat),
    {
        let mut harmonic: HashMap<i32, usize> = HashMap::new();
        let mut star_dims: HashMap<i32, usize> = HashMap::new();
        let top: i64 = n as i64;
        let mut kk: i64 = 0;
        while kk <= top
            invariant
                top == n,
                n <= i32::MAX,
                0 <= kk <= top + 1,
                binomial_row_fits(n as nat),
                harmonic@ == binomial_row(n as nat).restrict(Set::new(|j: i32| j < kk)),
                star_dims@ == star_row(n as nat).restrict(Set::new(|j: i32| j < kk)),
            decreases top + 1 - kk,
        {
            let k: i32 = kk as i32;
            assert(binomial_fits(n as nat, k as nat));
            assert(binomial_fits(n as nat, (n - k) as nat));
            let dim_k = binomial(n, k as usize);
            harmonic.insert(k, dim_k);
            star_dims.insert(k, binomial(n, n - k as usize));
            proof {
                assert(harmonic@ =~= binomial_row(n as nat).restrict(Set::new(|j: i32| j < kk + 1)));
                assert(star_dims@ =~= star_row(n as nat).restrict(Set::new(|j: i32| j < kk + 1)));
            }
            kk = kk + 1;
        }
        assert(harmonic@ =~= binomial_row(n as nat));
        assert(star_dims@ =~= star_row(n as nat));
        HodgeDecomposition { harmonic_dimensions: harmonic, hodge_star_dims: star_dims }
    }

    /// Hodge decomposition Ωᵏ = ℋᵏ ⊕ im(d) ⊕ im(d*) is possible: in every degree the
    /// harmonic forms fit inside the forms of `total_dims`.
    pub fn check_decomposition(&self, total_dims: &HashMap<i32, usize>) -> (r: bool)
        ensures
            r == (forall|k: i32|
                self.harmonic_dimensions@.contains_key(k) ==> self.harmonic_dimensions@[k]
                    <= dim_spec(total_dims@, k)),
    {
        let ghost h = self.harmonic_dimensions@;
        let ghost t = total_dims@;
        let ghost mut seen: Set<i32> = Set::empty();
        for k in it: self.harmonic_dimensions.keys()
            invariant
                h == self.harmonic_dimensions@,
                t == total_dims@,
                it.seq().no_duplicates(),
                it.seq().unref().to_set() == h.dom(),
                forall|x: i32| seen.contains(x) <==> exists|j: int| 0 <= j < it.index() && *it.seq()[j] == x,
                seen.subset_of(h.dom()),
                forall|x: i32|
                    h.dom().contains(x) && !seen.contains(x) ==> exists|j: int|
                        it.index() <= j < it.seq().len() && *it.seq()[j] == x,
                forall|x: i32| seen.contains(x) ==> h[x] <= dim_spec(t, x),
        {
            let hk = *self.harmonic_dimensions.get(k).unwrap();
            let total: usize = match total_dims.get(k) {
                Some(d) => *d,
                None => 0,
            };
            if hk > total {
                return false;
            }
            proof {
                seen = seen.insert(*k);
            }
        }
        assert(seen =~= h.dom());
        true
    }

    /// Hodge numbers (Betti numbers via harmonic forms).
    pub fn betti_numbers(&self) -> (r: &HashMap<i32, usize>)
        ensures
            r == &self.harmonic_dimensions,
    {
        &self.harmonic_dimensions
    }
}

/// Two Betti tables are compatible when they agree in every degree that both record.
pub fn betti_sets_compatible(a: &HashMap<i32, usize>, b: &HashMap<i32, usize>) -> (r: bool)
    ensures
        r == compatible_spec(a@, b@),
        r == (a@.union_prefer_right(b@) == b@.union_prefer_right(a@)),
        forall|k: i32| a@.contains_key(k) && b@.contains_key(k) && #[trigger] a@[k] != b@[k] ==> !r,
{
    proof {
        lemma_compatible_merge_either_way(a@, b@);
    }
    let ghost ma = a@;
    let ghost mb = b@;
    let ghost mut seen: Set<i32> = Set::empty();
    for k in it: a.keys()
        invariant
            ma == a@,
            mb == b@,
            it.seq().no_duplicates(),
            it.seq().unref().to_set() == ma.dom(),
            forall|x: i32| seen.contains(x) <==> exists|j: int| 0 <= j < it.index() && *it.seq()[j] == x,
            seen.subset_of(ma.dom()),
            forall|x: i32|
                ma.dom().contains(x) && !seen.contains(x) ==> exists|j: int|
                    it.index() <= j < it.seq().len() && *it.seq()[j] == x,
            forall|x: i32| seen.contains(x) && mb.contains_key(x) ==> ma[x] == mb[x],
    {
        let va = *a.get(k).unwrap();
        if let Some(vb) = b.get(k) {
            if va != *vb {
                proof {
                    lemma_compatible_merge_either_way(a@, b@);
                }
                return false;
            }
        }
        proof {
            seen = seen.insert(*k);
        }
    }
    assert(seen =~= ma.dom());
    let ghost mut seen_b: Set<i32> = Set::empty();
    for k in it: b.keys()
        invariant
            ma == a@,
            mb == b@,
            compatible_spec(ma, mb),
            it.seq().no_duplicates(),
            it.seq().unref().to_set() == mb.dom(),
            forall|x: i32| seen_b.contains(x) <==> exists|j: int| 0 <= j < it.index() && *it.seq()[j] == x,
    {
        let vb = *b.get(k).unwrap();
        if let Some(va) = a.get(k) {
            if *va != vb {
                proof {
                    lemma_compatible_merge_either_way(a@, b@);
                }
                return false;
            }
        }
        proof {
            seen_b = seen_b.insert(*k);
        }
    }
    true
}

/// Every Betti table agrees with the first one in every degree that both record; fewer than
/// two tables are always compatible.
pub fn betti_sets_all_compatible(sets: &Vec<HashMap<i32, usize>>) -> (r: bool)
    ensures
        r == (forall|i: int| 1 <= i < sets@.len() ==> compatible_spec(sets@[0]@, #[trigger] sets@[i]@)),
{
    if sets.len() < 2 {
        return true;
    }
    let mut i: usize = 1;
    while i < sets.len()
        invariant
            1 <= i <= sets@.len(),
            forall|j: int| 1 <= j < i ==> compatible_spec(sets@[0]@, #[trigger] sets@[j]@),
        decreases sets.len() - i,
    {
        if !betti_sets_compatible(&sets[0], &sets[i]) {
            return false;
        }
        i = i + 1;
    }
    true
}

/// Number of pairs `i < j < 64` with `i` in `b` and `j` in `a`, for `i < upto`: the
/// transpositions needed to move the forms of `b` past the later forms of `a`.
pub open spec fn wedge_inversions(a: nat, b: nat, upto: nat) -> nat
    decreases upto,
{
    if upto == 0 {
        0
    } else {
        wedge_inversions(a, b, (upto - 1) as nat) + if bit_spec(b, (upto - 1) as nat) {
            count_bits(a, upto, 64)
        } else {
            0
        }
    }
}

/// `(-1)ᵉ`.
pub open spec fn parity_sign(e: nat) -> int {
    if e % 2 == 0 {
        1
    } else {
        -1
    }
}

/// Sign of the wedge product α ∧ β, where α corresponds to subset_a and β to subset_b:
/// `-1` for each pair of an element of `b` below an element of `a`.
pub fn wedge_sign(subset_a: u64, subset_b: u64) -> (r: i64)
    ensures
        r == parity_sign(wedge_inversions(subset_a as nat, subset_b as nat, 64)),
{
    let mut sign: i64 = 1;
    let mut i: u32 = 0;
    while i < 64
        invariant
            0 <= i <= 64,
            sign == parity_sign(wedge_inversions(subset_a as nat, subset_b as nat, i as nat)),
        decreases 64 - i,
    {
        if has_bit(subset_b, i) {
            let mut j: u32 = i + 1;
            while j < 64
                invariant
                    i < 64,
                    i + 1 <= j <= 64,
                    bit_spec(subset_b as nat, i as nat),
                    sign == parity_sign(
                        wedge_inversions(subset_a as nat, subset_b as nat, i as nat) + count_bits(
                            subset_a as nat,
                            (i + 1) as nat,
                            j as nat,
                        ),
                    ),
                decreases 64 - j,
            {
                if has_bit(subset_a, j) {
                    sign = -sign;
                }
                j = j + 1;
            }
        }
        i = i + 1;
    }
    sign
}


/// `i` is the first position of `x` in `s`.
pub open spec fn first_index_of(s: Seq<u64>, x: u64, i: int) -> bool {
    &&& 0 <= i < s.len()
    &&& s[i] == x
    &&& forall|j: int| 0 <= j < i ==> s[j] != x
}

/// Entry in row `ir` and column `(ip, iq)` of the wedge product `Ωᵖ ⊗ Ω^q → Ωᵖ⁺ᵠ` on the bases
/// `sp`, `sq`, `sr` of subsets: the wedge sign when the two subsets are disjoint and `ir` is
/// the first place of their union in `sr`, and 0 otherwise.
pub open spec fn wedge_entry(sp: Seq<u64>, sq: Seq<u64>, sr: Seq<u64>, ir: int, ip: int, iq: int) -> i64 {
    let a = sp[ip];
    let b = sq[iq];
    if a & b == 0 && first_index_of(sr, a | b, ir) {
        parity_sign(wedge_inversions(a as nat, b as nat, 64)) as i64
    } else {
        0
    }
}

/// Row of the union of two disjoint subsets in `sr` and the wedge sign, or `sr.len()` and 0
/// when the subsets meet or the union is not listed.
pub open spec fn wedge_target(sp: Seq<u64>, sq: Seq<u64>, sr: Seq<u64>, ip: int, iq: int) -> (usize, i64) {
    let a = sp[ip];
    let b = sq[iq];
    if a & b == 0 && exists|i: int| first_index_of(sr, a | b, i) {
        (
            (choose|i: int| first_index_of(sr, a | b, i)) as usize,
            parity_sign(wedge_inversions(a as nat, b as nat, 64)) as i64,
        )
    } else {
        (sr.len() as usize, 0)
    }
}

proof fn lemma_first_index_unique(s: Seq<u64>, x: u64, i: int, j: int)
    requires
        first_index_of(s, x, i),
        first_index_of(s, x, j),
    ensures
        i == j,
{
}

proof fn lemma_pair_index(ip: int, iq: int, dp: int, dq: int)
    requires
        0 <= ip < dp,
        0 <= iq < dq,
    ensures
        0 <= ip * dq + iq < dp * dq,
{
    lemma_row_block(ip, dp, dq);
}

pub(crate) proof fn lemma_row_block(ip: int, dp: int, dq: int)
    requires
        0 <= ip < dp,
        0 <= dq,
    ensures
        0 <= ip * dq,
        ip * dq + dq <= dp * dq,
        (ip + 1) * dq == ip * dq + dq,
{
    assert(0 <= ip * dq) by (nonlinear_arith)
        requires
            0 <= ip,
            0 <= dq,
    ;
    assert((ip + 1) * dq <= dp * dq) by (nonlinear_arith)
        requires
            ip + 1 <= dp,
            0 <= dq,
    ;
    assert((ip + 1) * dq == ip * dq + dq) by (nonlinear_arith);
}

/// Structure constants of the wedge product `Ωᵖ ⊗ Ω^q → Ωᵖ⁺ᵠ` on the bases of subsets
/// `subs_p`, `subs_q`, `subs_r`: a matrix with one row per element of `subs_r` and one column
/// `ip · |subs_q| + iq` per pair, holding the wedge sign where the two subsets are disjoint and
/// the row is the first place of their union, and 0 elsewhere.
pub fn wedge_product_matrix(subs_p: &Vec<u64>, subs_q: &Vec<u64>, subs_r: &Vec<u64>) -> (r: Vec<Vec<i64>>)
    requires
        subs_p@.len() * subs_q@.len() <= usize::MAX,
    ensures
        r@.len() == subs_r@.len(),
        forall|ir: int| 0 <= ir < subs_r@.len() ==> (#[trigger] r@[ir])@.len() == subs_p@.len() * subs_q@.len(),
        forall|ir: int, ip: int, iq: int|
            0 <= ir < subs_r@.len() && 0 <= ip < subs_p@.len() && 0 <= iq < subs_q@.len() ==> r@[ir]@[ip
                * subs_q@.len() + iq] == #[trigger] wedge_entry(subs_p@, subs_q@, subs_r@, ir, ip, iq),
{
    let dp = subs_p.len();
    let dq = subs_q.len();
    let dr = subs_r.len();
    let ghost sp = subs_p@;
    let ghost sq = subs_q@;
    let ghost sr = subs_r@;
    let mut targets: Vec<(usize, i64)> = Vec::new();
    let mut ip: usize = 0;
    while ip < dp
        invariant
            sp == subs_p@,
            sq == subs_q@,
            sr == subs_r@,
            dp == sp.len(),
            dq == sq.len(),
            dr == sr.len(),
            dp * dq <= usize::MAX,
            0 <= ip <= dp,
            targets@.len() == ip * dq,
            forall|i: int, j: int|
                0 <= i < ip && 0 <= j < dq ==> targets@[i * dq + j] == wedge_target(sp, sq, sr, i, j),
        decreases dp - ip,
    {
        let mut iq: usize = 0;
        proof {
            lemma_row_block(ip as int, dp as int, dq as int);
        }
        while iq < dq
            invariant
                sp == subs_p@,
                sq == subs_q@,
                sr == subs_r@,
                dp == sp.len(),
                dq == sq.len(),
                dr == sr.len(),
                dp * dq <= usize::MAX,
                0 <= ip < dp,
                0 <= iq <= dq,
                ip * dq + dq <= dp * dq,
                targets@.len() == ip * dq + iq,
                forall|i: int, j: int|
                    0 <= i < ip && 0 <= j < dq ==> targets@[i * dq + j] == wedge_target(sp, sq, sr, i, j),
                forall|j: int| 0 <= j < iq ==> targets@[ip * dq + j] == wedge_target(sp, sq, sr, ip as int, j),
            decreases dq - iq,
        {
            let a = subs_p[ip];
            let b = subs_q[iq];
            let mut t: usize = dr;
            let mut sign: i64 = 0;
            if a & b == 0 {
                let product = a | b;
                let mut ir: usize = 0;
                while ir < dr && subs_r[ir] != product
                    invariant
                        sr == subs_r@,
                        dr == sr.len(),
                        0 <= ir <= dr,
                        forall|j: int| 0 <= j < ir ==> sr[j] != product,
                    decreases dr - ir,
                {
                    ir = ir + 1;
                }
                proof {
                    if ir < dr {
                        assert(first_index_of(sr, product, ir as int));
                        let c = choose|i: int| first_index_of(sr, product, i);
                        lemma_first_index_unique(sr, product, ir as int, c);
                    } else {
                        assert(!exists|i: int| first_index_of(sr, product, i));
                    }
                }
                if ir < dr {
                    t = ir;
                    sign = wedge_sign(a, b);
                }
            }
            let ghost old_targets = targets@;
            targets.push((t, sign));
            proof {
                assert(targets@[ip * dq + iq] == wedge_target(sp, sq, sr, ip as int, iq as int));
                assert forall|i: int, j: int|
                    0 <= i < ip && 0 <= j < dq implies targets@[i * dq + j] == wedge_target(sp, sq, sr, i, j) by {
                    lemma_pair_index(i, j, ip as int, dq as int);
                    assert(targets@[i * dq + j] == old_targets[i * dq + j]);
                }
            }
            iq = iq + 1;
        }
        proof {
            lemma_row_block(ip as int, dp as int, dq as int);
            assert forall|i: int, j: int|
                0 <= i < ip + 1 && 0 <= j < dq implies targets@[i * dq + j] == wedge_target(sp, sq, sr, i, j) by {
                if i < ip {
                } else {
                    assert(i == ip);
                }
            }
        }
        ip = ip + 1;
    }
    let cols: usize = dp * dq;
    let mut matrix: Vec<Vec<i64>> = Vec::new();
    let mut ir: usize = 0;
    while ir < dr
        invariant
            sp == subs_p@,
            sq == subs_q@,
            sr == subs_r@,
            dp == sp.len(),
            dq == sq.len(),
            dr == sr.len(),
            cols == dp * dq,
            targets@.len() == cols,
            0 <= ir <= dr,
            matrix@.len() == ir,
            forall|i: int, j: int|
                0 <= i < dp && 0 <= j < dq ==> targets@[i * dq + j] == wedge_target(sp, sq, sr, i, j),
            forall|k: int| 0 <= k < ir ==> (#[trigger] matrix@[k])@.len() == cols,
            forall|k: int, c: int|
                0 <= k < ir && 0 <= c < cols ==> #[trigger] matrix@[k]@[c] == if targets@[c].0 == k {
                    targets@[c].1
                } else {
                    0
                },
        decreases dr - ir,
    {
        let mut row: Vec<i64> = Vec::new();
        let mut c: usize = 0;
        while c < cols
            invariant
                targets@.len() == cols,
                0 <= c <= cols,
                row@.len() == c,
                forall|j: int| 0 <= j < c ==> row@[j] == if targets@[j].0 == ir {
                    targets@[j].1
                } else {
                    0
                },
            decreases cols - c,
        {
            let (t, sign) = targets[c];
            if t == ir {
                row.push(sign);
            } else {
                row.push(0);
            }
            c = c + 1;
        }
        matrix.push(row);
        ir = ir + 1;
    }
    proof {
        assert forall|k: int, i: int, j: int|
            0 <= k < dr && 0 <= i < dp && 0 <= j < dq implies matrix@[k]@[i * dq + j]
            == #[trigger] wedge_entry(sp, sq, sr, k, i, j) by {
            lemma_pair_index(i, j, dp as int, dq as int);
            let c = i * dq + j;
            assert(matrix@[k]@[c] == if targets@[c].0 == k {
                targets@[c].1
            } else {
                0
            });
            assert(targets@[c] == wedge_target(sp, sq, sr, i, j));
            let a = sp[i];
            let b = sq[j];
            if a & b == 0 && exists|x: int| first_index_of(sr, a | b, x) {
                let x = choose|x: int| first_index_of(sr, a | b, x);
                if first_index_of(sr, a | b, k) {
                    lemma_first_index_unique(sr, a | b, k, x);
                }
                assert(targets@[c].0 == x);
            } else {
                assert(targets@[c].0 == dr);
            }
        }
    }
    matrix
}

/// Number of set bits of a mask.
pub fn popcount(mask: u64) -> (r: u32)
    ensures
        r == count_bits(mask as nat, 0, 64),
        r <= 64,
{
    let mut c: u32 = 0;
    let mut i: u32 = 0;
    while i < 64
        invariant
            0 <= i <= 64,
            c == count_bits(mask as nat, 0, i as nat),
            c <= i,
        decreases 64 - i,
    {
        if has_bit(mask, i) {
            c = c + 1;
        }
        i = i + 1;
    }
    c
}

/// The masks `m < upto` with exactly `k` bits set, in increasing order.
pub open spec fn masks_of_weight(k: int, upto: nat) -> Seq<u64>
    decreases upto,
{
    if upto == 0 {
        Seq::empty()
    } else {
        let prev = masks_of_weight(k, (upto - 1) as nat);
        if count_bits((upto - 1) as nat, 0, 64) == k {
            prev.push((upto - 1) as u64)
        } else {
            prev
        }
    }
}

/// The weight `k` is reached by some mask `m < upto`.
pub open spec fn weight_reached(k: int, upto: nat) -> bool {
    exists|m: nat| m < upto && count_bits(m, 0, 64) == k
}

/// Basis forms of each degree: the subsets of `{0, ..., dim-1}` with `k` elements, for each
/// `k`, as increasing lists of masks.
pub fn all_subsets_by_degree(dim: usize) -> (r: HashMap<i32, Vec<u64>>)
    requires
        dim < 64,
    ensures
        forall|k: i32|
            r@.contains_key(k) <==> weight_reached(k as int, vstd::arithmetic::power2::pow2(
                dim as nat,
            )),
        forall|k: i32|
            #[trigger] r@.contains_key(k) ==> r@[k]@ == masks_of_weight(
                k as int,
                vstd::arithmetic::power2::pow2(dim as nat),
            ),
{
    proof {
        vstd::bits::lemma_u64_pow2_no_overflow(dim as nat);
        vstd::bits::lemma_u64_shl_is_mul(1u64, dim as u64);
    }
    let total: u64 = 1u64 << (dim as u64);
    let ghost upto = vstd::arithmetic::power2::pow2(dim as nat);
    assert(total == upto);
    let mut result: HashMap<i32, Vec<u64>> = HashMap::new();
    let mut mask: u64 = 0;
    while mask < total
        invariant
            total == upto,
            0 <= mask <= total,
            forall|k: i32| result@.contains_key(k) <==> weight_reached(k as int, mask as nat),
            forall|k: i32|
                #[trigger] result@.contains_key(k) ==> result@[k]@ == masks_of_weight(
                    k as int,
                    mask as nat,
                ),
        decreases total - mask,
    {
        let w = popcount(mask);
        let deg: i32 = w as i32;
        let ghost old_r = result@;
        match result.remove(&deg) {
            Some(v) => {
                let mut v = v;
                v.push(mask);
                result.insert(deg, v);
            },
            None => {
                let mut v: Vec<u64> = Vec::new();
                v.push(mask);
                result.insert(deg, v);
            },
        }
        proof {
            let next = (mask + 1) as nat;
            assert forall|k: i32| result@.contains_key(k) <==> weight_reached(k as int, next) by {
                if k == deg {
                    assert(mask < next && count_bits(mask as nat, 0, 64) == k);
                } else {
                    if weight_reached(k as int, next) {
                        let m = choose|m: nat| m < next && count_bits(m, 0, 64) == k;
                        assert(m < mask);
                        assert(weight_reached(k as int, mask as nat));
                    }
                    if weight_reached(k as int, mask as nat) {
                        let m = choose|m: nat| m < mask && count_bits(m, 0, 64) == k;
                        assert(m < next);
                    }
                }
            }
            assert forall|k: i32| #[trigger]
                result@.contains_key(k) implies result@[k]@ == masks_of_weight(k as int, next) by {
                if k == deg {
                    if !old_r.contains_key(k) {
                        assert(!weight_reached(k as int, mask as nat));
                        lemma_masks_of_weight_empty(k as int, mask as nat);
                    }
                }
            }
        }
        mask = mask + 1;
    }
    result
}

/// A weight that no mask below `upto` has gets no masks.
pub proof fn lemma_masks_of_weight_empty(k: int, upto: nat)
    requires
        !weight_reached(k, upto),
    ensures
        masks_of_weight(k, upto) == Seq::<u64>::empty(),
    decreases upto,
{
    if upto > 0 {
        let m = (upto - 1) as nat;
        assert(count_bits(m, 0, 64) != k);
        assert(!weight_reached(k, m)) by {
            if weight_reached(k, m) {
                let w = choose|w: nat| w < m && count_bits(w, 0, 64) == k;
                assert(w < upto);
            }
        }
        lemma_masks_of_weight_empty(k, m);
    }
}


// ------------------------------------------------------------------
// Laws
// ------------------------------------------------------------------

/// The Hodge star `*: Ωᵏ → Ωⁿ⁻ᵏ` preserves dimension: `C(n, n - k) = C(n, k)`, so the
/// dimensions it reaches are the harmonic dimensions.
pub proof fn lemma_hodge_star_symmetric(n: nat)
    ensures
        star_row(n) == binomial_row(n),
{
    assert forall|k: i32| 0 <= k <= n implies #[trigger] star_row(n)[k] == binomial_row(n)[k] by {
        lemma_choose_symmetric(n, k as nat);
    }
    assert(star_row(n) =~= binomial_row(n));
}

/// Poincaré duality of the harmonic dimensions: `βₖ = βₙ₋ₖ` in every degree and `βₙ = 1`.
pub proof fn lemma_hodge_poincare_duality(n: nat)
    requires
        n <= i32::MAX,
    ensures
        duality_fits(binomial_row(n), n as i32),
        poincare_duality_spec(binomial_row(n), n as i32),
{
    let row = binomial_row(n);
    assert forall|k: i32| row.contains_key(k) implies row[k] == dim_at(row, n - k) by {
        lemma_choose_symmetric(n, k as nat);
        assert(((n - k) as i32) as nat == (n - k) as nat);
    }
    lemma_choose_diag(n);
}

/// The harmonic dimensions pass the decomposition check against themselves.
pub proof fn lemma_decomposition_reflexive(h: Map<i32, usize>)
    ensures
        forall|k: i32| h.contains_key(k) ==> h[k] <= dim_spec(h, k),
{
}

/// Compatibility of Betti tables is symmetric and reflexive.
pub proof fn lemma_compatible_symmetric(a: Map<i32, usize>, b: Map<i32, usize>)
    ensures
        compatible_spec(a, b) == compatible_spec(b, a),
        compatible_spec(a, a),
{
}

/// Two Betti tables are compatible exactly when merging them gives the same table whichever of
/// the two takes precedence: no degree recorded by both holds two different Betti numbers.
pub proof fn lemma_compatible_merge_either_way(a: Map<i32, usize>, b: Map<i32, usize>)
    ensures
        compatible_spec(a, b) <==> a.union_prefer_right(b) == b.union_prefer_right(a),
{
    if compatible_spec(a, b) {
        assert(a.union_prefer_right(b) =~= b.union_prefer_right(a));
    }
    if a.union_prefer_right(b) == b.union_prefer_right(a) {
        assert forall|k: i32| a.contains_key(k) && b.contains_key(k) implies a[k] == b[k] by {
            assert(a.union_prefer_right(b)[k] == b[k]);
            assert(b.union_prefer_right(a)[k] == a[k]);
        }
    }
}

/// A degree recorded by both tables with different Betti numbers, zero among them or not,
/// makes the tables incompatible; compatible tables recording the same degrees are one table.
pub proof fn lemma_compatible_disagreement(a: Map<i32, usize>, b: Map<i32, usize>, k: i32)
    ensures
        a.contains_key(k) && b.contains_key(k) && a[k] != b[k] ==> !compatible_spec(a, b),
        compatible_spec(a, b) && a.dom() == b.dom() ==> a == b,
{
    if compatible_spec(a, b) && a.dom() == b.dom() {
        assert(a =~= b);
    }
}

/// `C(n, 0) + ... + C(n, m - 1)`.
pub open spec fn choose_prefix(n: nat, m: nat) -> int
    decreases m,
{
    if m == 0 {
        0
    } else {
        choose_prefix(n, (m - 1) as nat) + choose_spec(n, (m - 1) as nat)
    }
}

/// `C(n, 0) - C(n, 1) + ... ± C(n, m - 1)`.
pub open spec fn alternating_prefix(n: nat, m: nat) -> int
    decreases m,
{
    if m == 0 {
        0
    } else {
        alternating_prefix(n, (m - 1) as nat) + sign_spec((m - 1) as int) * choose_spec(
            n,
            (m - 1) as nat,
        )
    }
}

/// Pascal's rule on prefix sums: `S(n + 1, m + 1) = S(n, m) + S(n, m + 1)`.
proof fn lemma_choose_prefix_pascal(n: nat, m: nat)
    ensures
        choose_prefix(n + 1, m + 1) == choose_prefix(n, m) + choose_prefix(n, m + 1),
    decreases m,
{
    assert(choose_prefix(n + 1, m + 1) == choose_prefix(n + 1, m) + choose_spec(n + 1, m));
    assert(choose_prefix(n, m + 1) == choose_prefix(n, m) + choose_spec(n, m));
    if m == 0 {
        assert(choose_prefix(n + 1, 0) == 0);
        assert(choose_prefix(n, 0) == 0);
    } else {
        let j = (m - 1) as nat;
        lemma_choose_prefix_pascal(n, j);
        assert(choose_spec(n + 1, m) == choose_spec(n, j) + choose_spec(n, m));
        assert(choose_prefix(n, m) == choose_prefix(n, j) + choose_spec(n, j));
    }
}

/// Pascal's rule on alternating prefix sums: `A(n + 1, m + 1) = (-1)ᵐ C(n, m)`.
proof fn lemma_alternating_prefix_pascal(n: nat, m: nat)
    ensures
        alternating_prefix(n + 1, m + 1) == sign_spec(m as int) * choose_spec(n, m),
    decreases m,
{
    assert(alternating_prefix(n + 1, m + 1) == alternating_prefix(n + 1, m) + sign_spec(m as int)
        * choose_spec(n + 1, m));
    if m == 0 {
        assert(alternating_prefix(n + 1, 0) == 0);
        assert(choose_spec(n + 1, 0) == 1);
        assert(choose_spec(n, 0) == 1);
    } else {
        let j = (m - 1) as nat;
        lemma_alternating_prefix_pascal(n, j);
        crate::graded::lemma_sign_add(j as int, 1);
        let sj = sign_spec(j as int);
        let sm = sign_spec(m as int);
        let a = choose_spec(n, j) as int;
        let b = choose_spec(n, m) as int;
        assert(choose_spec(n + 1, m) == a + b);
        assert(sm == -sj);
        assert(sj * a + sm * (a + b) == sm * b) by (nonlinear_arith)
            requires
                sm == -sj,
        ;
    }
}

/// `Σₖ C(n, k) = 2ⁿ`.
proof fn lemma_choose_row_sum(n: nat)
    ensures
        choose_prefix(n, n + 1) == vstd::arithmetic::power2::pow2(n),
    decreases n,
{
    if n == 0 {
        vstd::arithmetic::power2::lemma2_to64();
        assert(choose_prefix(0, 1) == choose_prefix(0, 0) + choose_spec(0, 0));
    } else {
        let m = (n - 1) as nat;
        lemma_choose_row_sum(m);
        lemma_choose_prefix_pascal(m, n);
        lemma_choose_above(m, n);
        assert(choose_prefix(m, n + 1) == choose_prefix(m, n) + choose_spec(m, n));
        vstd::arithmetic::power2::lemma_pow2_unfold(n);
    }
}

/// `Σₖ (-1)ᵏ C(n, k)` is `1` for `n = 0` and `0` otherwise.
proof fn lemma_alternating_row_sum(n: nat)
    ensures
        alternating_prefix(n, n + 1) == if n == 0 {
            1int
        } else {
            0int
        },
{
    if n == 0 {
        assert(alternating_prefix(0, 1) == alternating_prefix(0, 0) + sign_spec(0) * choose_spec(0, 0));
    } else {
        let m = (n - 1) as nat;
        lemma_alternating_prefix_pascal(m, n);
        lemma_choose_above(m, n);
        assert(m + 1 == n);
    }
}

/// The degrees `0 ≤ k < m`.
pub open spec fn degrees_below(m: nat) -> Set<i32> {
    Set::new(|k: i32| 0 <= k < m)
}

/// A sum over the degrees `0 ≤ k < m` is the sum of its first `m` terms.
proof fn lemma_sum_degrees_below(m: nat, g: spec_fn(i32) -> int, w: spec_fn(nat) -> int)
    requires
        m <= i32::MAX + 1,
        forall|k: i32| 0 <= k < m ==> #[trigger] g(k) == w(k as nat),
    ensures
        degrees_below(m).finite(),
        sum_over(degrees_below(m), g) == prefix_total(w, m),
    decreases m,
{
    if m == 0 {
        assert(degrees_below(m) =~= Set::empty());
        crate::graded::lemma_sum_empty(g);
    } else {
        let j = (m - 1) as nat;
        lemma_sum_degrees_below(j, g, w);
        assert(degrees_below(m) =~= degrees_below(j).insert(j as i32));
        crate::graded::lemma_sum_insert(degrees_below(j), g, j as i32);
    }
}

/// `w(0) + ... + w(m - 1)`.
pub open spec fn prefix_total(w: spec_fn(nat) -> int, m: nat) -> int
    decreases m,
{
    if m == 0 {
        0
    } else {
        prefix_total(w, (m - 1) as nat) + w((m - 1) as nat)
    }
}

proof fn lemma_choose_prefix_total(n: nat, m: nat)
    ensures
        prefix_total(|k: nat| choose_spec(n, k) as int, m) == choose_prefix(n, m),
        prefix_total(|k: nat| sign_spec(k as int) * choose_spec(n, k), m) == alternating_prefix(n, m),
    decreases m,
{
    if m > 0 {
        lemma_choose_prefix_total(n, (m - 1) as nat);
    }
}

/// Every binomial coefficient of row `n` is a `usize`.
pub open spec fn row_values_fit(n: nat) -> bool {
    forall|k: nat| k <= n ==> #[trigger] choose_spec(n, k) <= usize::MAX
}

/// The forms of all degrees on an `n`-manifold span `2ⁿ` dimensions: `Σₖ C(n, k) = 2ⁿ`.
pub proof fn lemma_binomial_row_total(n: nat)
    requires
        n <= i32::MAX,
        row_values_fit(n),
    ensures
        binomial_row(n).dom().finite(),
        total_dim_spec(binomial_row(n)) == vstd::arithmetic::power2::pow2(n),
{
    let row = binomial_row(n);
    assert(row.dom() =~= degrees_below(n + 1));
    let w = |k: nat| choose_spec(n, k) as int;
    assert forall|k: i32| 0 <= k < n + 1 implies #[trigger] dim_term(row)(k) == w(k as nat) by {
        assert(choose_spec(n, k as nat) <= usize::MAX);
    }
    lemma_sum_degrees_below(n + 1, dim_term(row), w);
    lemma_choose_prefix_total(n, n + 1);
    lemma_choose_row_sum(n);
}

/// The Euler characteristic of the forms on an `n`-manifold: `Σₖ (-1)ᵏ C(n, k)` is `0` for
/// `n ≥ 1` and `1` for a point.
pub proof fn lemma_binomial_row_euler(n: nat)
    requires
        n <= i32::MAX,
        row_values_fit(n),
    ensures
        binomial_row(n).dom().finite(),
        euler_spec(binomial_row(n)) == if n == 0 {
            1int
        } else {
            0int
        },
{
    let row = binomial_row(n);
    assert(row.dom() =~= degrees_below(n + 1));
    let w = |k: nat| sign_spec(k as int) * choose_spec(n, k);
    assert forall|k: i32| 0 <= k < n + 1 implies #[trigger] euler_term(row)(k) == w(k as nat) by {
        assert(choose_spec(n, k as nat) <= usize::MAX);
    }
    lemma_sum_degrees_below(n + 1, euler_term(row), w);
    lemma_choose_prefix_total(n, n + 1);
    lemma_alternating_row_sum(n);
}


/// `Σ_{k < m} (-1)ᵏ C(n, k + 1) = 1 - Σ_{j ≤ m} (-1)ʲ C(n, j)`.
proof fn lemma_cech_prefix(n: nat, m: nat)
    ensures
        prefix_total(|k: nat| sign_spec(k as int) * choose_spec(n, k + 1), m) == 1
            - alternating_prefix(n, m + 1),
    decreases m,
{
    if m == 0 {
        assert(alternating_prefix(n, 1) == alternating_prefix(n, 0) + sign_spec(0) * choose_spec(n, 0));
    } else {
        let j = (m - 1) as nat;
        lemma_cech_prefix(n, j);
        crate::graded::lemma_sign_add(j as int, 1);
        let sj = sign_spec(j as int);
        let c = choose_spec(n, m) as int;
        assert(alternating_prefix(n, m + 1) == alternating_prefix(n, m) + sign_spec(m as int) * c);
        assert(sign_spec(m as int) == -sj);
        assert((-sj) * c == -(sj * c)) by (nonlinear_arith);
    }
}

/// The Čech complex of a cover by `n ≥ 1` open sets has Euler characteristic 1:
/// `Σₖ (-1)ᵏ C(n, k + 1) = 1`, the Euler characteristic of a simplex (and 0 for no open set).
pub proof fn lemma_cech_row_euler(n: nat)
    requires
        n <= i32::MAX,
        forall|k: nat| 1 <= k <= n ==> #[trigger] choose_spec(n, k) <= usize::MAX,
    ensures
        cech_row(n).dom().finite(),
        euler_spec(cech_row(n)) == if n == 0 {
            0int
        } else {
            1int
        },
{
    let row = cech_row(n);
    assert(row.dom() =~= degrees_below(n));
    let w = |k: nat| sign_spec(k as int) * choose_spec(n, k + 1);
    assert forall|k: i32| 0 <= k < n implies #[trigger] euler_term(row)(k) == w(k as nat) by {
        assert(choose_spec(n, (k + 1) as nat) <= usize::MAX);
    }
    lemma_sum_degrees_below(n, euler_term(row), w);
    lemma_cech_prefix(n, n);
    lemma_alternating_row_sum(n);
}

/// `(-1)ˣ⁺ʸ = (-1)ˣ (-1)ʸ`.
proof fn lemma_parity_sign_add(x: nat, y: nat)
    ensures
        parity_sign(x + y) == parity_sign(x) * parity_sign(y),
{
    vstd::arithmetic::div_mod::lemma_add_mod_noop(x as int, y as int, 2);
}

/// For masks with no common bit, the pairs of an element of `a` and an element of `b`, both
/// at or above `u`, and the crossing pairs below `u`, make up all pairs.
proof fn lemma_wedge_pairs(a: nat, b: nat, u: nat)
    requires
        u <= 64,
        forall|i: nat| i < 64 ==> !(#[trigger] bit_spec(a, i) && bit_spec(b, i)),
    ensures
        wedge_inversions(a, b, u) + wedge_inversions(b, a, u) + count_bits(a, u, 64) * count_bits(
            b,
            u,
            64,
        ) == count_bits(a, 0, 64) * count_bits(b, 0, 64),
    decreases u,
{
    if u > 0 {
        let v = (u - 1) as nat;
        lemma_wedge_pairs(a, b, v);
        lemma_count_bits_low(a, v, 64);
        lemma_count_bits_low(b, v, 64);
        let ba: int = if bit_spec(a, v) {
            1
        } else {
            0
        };
        let bb: int = if bit_spec(b, v) {
            1
        } else {
            0
        };
        let ca = count_bits(a, u, 64) as int;
        let cb = count_bits(b, u, 64) as int;
        assert(ba * bb == 0);
        assert(wedge_inversions(a, b, u) == wedge_inversions(a, b, v) + bb * ca);
        assert(wedge_inversions(b, a, u) == wedge_inversions(b, a, v) + ba * cb);
        assert((ba + ca) * (bb + cb) == ba * bb + bb * ca + ba * cb + ca * cb) by (nonlinear_arith);
    }
}

/// Graded commutativity of the exterior algebra: for forms `α`, `β` with no common index,
/// `α ∧ β = (-1)^{|α||β|} β ∧ α`, so the product of the two wedge signs is the Koszul sign of
/// the degrees.
pub proof fn lemma_wedge_sign_anticommutes(a: u64, b: u64)
    requires
        a & b == 0,
    ensures
        parity_sign(wedge_inversions(a as nat, b as nat, 64)) * parity_sign(
            wedge_inversions(b as nat, a as nat, 64),
        ) == sign_spec((count_bits(a as nat, 0, 64) * count_bits(b as nat, 0, 64)) as int),
{
    assert forall|i: nat| i < 64 implies !(#[trigger] bit_spec(a as nat, i) && bit_spec(b as nat, i)) by {
        let s = i as u64;
        vstd::bits::lemma_u64_shr_is_div(a, s);
        vstd::bits::lemma_u64_shr_is_div(b, s);
        assert(!((a >> s) % 2 == 1 && (b >> s) % 2 == 1)) by (bit_vector)
            requires
                a & b == 0,
                s < 64,
        ;
    }
    lemma_wedge_pairs(a as nat, b as nat, 64);
    let top_a = count_bits(a as nat, 64, 64);
    let top_b = count_bits(b as nat, 64, 64);
    assert(top_a == 0);
    assert(top_a * top_b == 0) by (nonlinear_arith)
        requires
            top_a == 0,
    ;
    let w1 = wedge_inversions(a as nat, b as nat, 64);
    let w2 = wedge_inversions(b as nat, a as nat, 64);
    let ca = count_bits(a as nat, 0, 64);
    let cb = count_bits(b as nat, 0, 64);
    assert(w1 + w2 == ca * cb);
    lemma_parity_sign_add(w1, w2);
    assert(parity_sign(w1 + w2) == sign_spec((ca * cb) as int));
}


proof fn lemma_count_bits_none(a: nat, lo: nat, hi: nat)
    requires
        forall|j: nat| lo <= j < hi ==> !#[trigger] bit_spec(a, j),
    ensures
        count_bits(a, lo, hi) == 0,
    decreases hi,
{
    if hi > lo {
        lemma_count_bits_none(a, lo, (hi - 1) as nat);
    }
}

proof fn lemma_wedge_inversions_ordered(a: nat, b: nat, u: nat)
    requires
        u <= 64,
        forall|i: nat, j: nat| i < j < 64 ==> !(#[trigger] bit_spec(b, i) && #[trigger] bit_spec(a, j)),
    ensures
        wedge_inversions(a, b, u) == 0,
    decreases u,
{
    if u > 0 {
        let v = (u - 1) as nat;
        lemma_wedge_inversions_ordered(a, b, v);
        if bit_spec(b, v) {
            assert forall|j: nat| u <= j < 64 implies !#[trigger] bit_spec(a, j) by {
                assert(!(bit_spec(b, v) && bit_spec(a, j)));
            }
            lemma_count_bits_none(a, u, 64);
        }
    }
}

/// Forms already in increasing order need no transposition: when no element of `b` lies below
/// an element of `a`, `a ∧ b` has sign `+1`.
pub proof fn lemma_wedge_sign_ordered(a: u64, b: u64)
    requires
        forall|i: nat, j: nat|
            i < j < 64 ==> !(#[trigger] bit_spec(b as nat, i) && #[trigger] bit_spec(a as nat, j)),
    ensures
        parity_sign(wedge_inversions(a as nat, b as nat, 64)) == 1,
{
    lemma_wedge_inversions_ordered(a as nat, b as nat, 64);
}

/// Every nonzero entry of the wedge-product matrix is the wedge sign of its pair of subsets,
/// the value `wedge_sign` gives for the pair on its own: the two subsets are disjoint and the
/// row is the first place of their union.
pub proof fn lemma_wedge_entry_is_wedge_sign(sp: Seq<u64>, sq: Seq<u64>, sr: Seq<u64>, ir: int, ip: int, iq: int)
    requires
        0 <= ip < sp.len(),
        0 <= iq < sq.len(),
        wedge_entry(sp, sq, sr, ir, ip, iq) != 0,
    ensures
        sp[ip] & sq[iq] == 0,
        first_index_of(sr, sp[ip] | sq[iq], ir),
        wedge_entry(sp, sq, sr, ir, ip, iq) == parity_sign(wedge_inversions(sp[ip] as nat, sq[iq] as nat, 64)),
{
}

/// The sign with which two disjoint subsets multiply does not depend on the target basis: in
/// whichever list of subsets their union is found, the entry is the same.
pub proof fn lemma_wedge_entry_basis_independent(
    sp: Seq<u64>,
    sq: Seq<u64>,
    sr: Seq<u64>,
    ir: int,
    other: Seq<u64>,
    jr: int,
    ip: int,
    iq: int,
)
    requires
        0 <= ip < sp.len(),
        0 <= iq < sq.len(),
        first_index_of(sr, sp[ip] | sq[iq], ir),
        first_index_of(other, sp[ip] | sq[iq], jr),
    ensures
        wedge_entry(sp, sq, sr, ir, ip, iq) == wedge_entry(sp, sq, other, jr, ip, iq),
{
}

/// Graded commutativity of the wedge-product matrices: for disjoint subsets `a`, `b` whose
/// union is listed, the entry of `a ∧ b` times the entry of `b ∧ a` (bases swapped) is
/// `(-1)^{|a||b|}`.
pub proof fn lemma_wedge_entries_anticommute(sp: Seq<u64>, sq: Seq<u64>, sr: Seq<u64>, ir: int, ip: int, iq: int)
    requires
        0 <= ip < sp.len(),
        0 <= iq < sq.len(),
        sp[ip] & sq[iq] == 0,
        first_index_of(sr, sp[ip] | sq[iq], ir),
    ensures
        wedge_entry(sp, sq, sr, ir, ip, iq) * wedge_entry(sq, sp, sr, ir, iq, ip) == sign_spec(
            (count_bits(sp[ip] as nat, 0, 64) * count_bits(sq[iq] as nat, 0, 64)) as int,
        ),
{
    let a = sp[ip];
    let b = sq[iq];
    assert(b & a == 0 && b | a == a | b) by (bit_vector)
        requires
            a & b == 0,
    ;
    lemma_wedge_sign_anticommutes(a, b);
    assert(parity_sign(wedge_inversions(a as nat, b as nat, 64)) as i64 == parity_sign(
        wedge_inversions(a as nat, b as nat, 64),
    ));
    assert(parity_sign(wedge_inversions(b as nat, a as nat, 64)) as i64 == parity_sign(
        wedge_inversions(b as nat, a as nat, 64),
    ));
}

/// The masks below `2ⁿ` with `k` of their first `n` bits set number `C(n, k)`.
pub proof fn lemma_weight_count_binomial(n: nat, k: nat)
    ensures
        weight_count(n, k as int, vstd::arithmetic::power2::pow2(n)) == choose_spec(n, k),
    decreases n,
{
    if n == 0 {
        vstd::arithmetic::power2::lemma2_to64();
        assert(count_bits(0, 0, 0) == 0);
        assert(weight_count(0, k as int, 1) == weight_count(0, k as int, 0) + if count_bits(0, 0, 0)
            == k {
            1nat
        } else {
            0nat
        });
        if k > 0 {
            lemma_choose_above(0, k);
        }
    } else {
        let m = (n - 1) as nat;
        lemma_weight_count_split(m, k as int);
        lemma_weight_count_binomial(m, k);
        if k == 0 {
            lemma_weight_count_negative(m, -1, vstd::arithmetic::power2::pow2(m));
        } else {
            lemma_weight_count_binomial(m, (k - 1) as nat);
        }
    }
}

proof fn lemma_masks_of_weight_len(k: int, upto: nat)
    ensures
        masks_of_weight(k, upto).len() == weight_count(64, k, upto),
    decreases upto,
{
    if upto > 0 {
        lemma_masks_of_weight_len(k, (upto - 1) as nat);
    }
}

proof fn lemma_weight_count_wide(dim: nat, k: int, y: nat)
    requires
        dim <= 64,
        y <= vstd::arithmetic::power2::pow2(dim),
    ensures
        weight_count(64, k, y) == weight_count(dim, k, y),
    decreases y,
{
    if y > 0 {
        lemma_weight_count_wide(dim, k, (y - 1) as nat);
        lemma_count_bits_above((y - 1) as nat, dim, 64);
    }
}

/// The basis of `k`-forms on a `dim`-dimensional space has `C(dim, k)` elements: the
/// subsets listed for degree `k` are as many as the binomial dimension of `Ωᵏ`.
pub proof fn lemma_subsets_by_degree_count(dim: nat, k: nat)
    requires
        dim < 64,
    ensures
        masks_of_weight(k as int, vstd::arithmetic::power2::pow2(dim)).len() == choose_spec(dim, k),
{
    lemma_masks_of_weight_len(k as int, vstd::arithmetic::power2::pow2(dim));
    lemma_weight_count_wide(dim, k as int, vstd::arithmetic::power2::pow2(dim));
    lemma_weight_count_binomial(dim, k);
}


/// De Rham and Hodge cohomology agree: the Betti numbers of the forms with zero differential
/// are compatible, degree by degree, with the harmonic dimensions.
pub proof fn lemma_de_rham_hodge_compatible(n: nat)
    ensures
        compatible_spec(betti_spec(binomial_row(n), Map::empty(), Map::empty()), binomial_row(n)),
{
    lemma_betti_without_differentials(binomial_row(n));
}

} // verus!
