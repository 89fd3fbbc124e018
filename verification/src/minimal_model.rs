//! Free graded algebras on generators of given degrees: the generator side of minimal models.

use crate::applications::{
    choose_spec, lemma_choose_above, lemma_row_block, lemma_wedge_sign_anticommutes, lemma_weight_count_binomial,
    parity_sign,
    wedge_inversions,
};
use crate::bits::{
    bit_spec, count_bits, has_bit, lemma_bit_above, lemma_weight_count_negative,
    weight_count,
};
use crate::cohomology::{nonzero_degree_set, nonzero_degrees};
use crate::graded::{dim_spec, sign_spec, strictly_sorted, GradedVectorSpace};
use std::collections::HashMap;
use vstd::prelude::*;

verus! {

broadcast use vstd::std_specs::hash::group_hash_axioms;

/// `2ⁿ`, the number of monomials (subsets of generators) on `n` generators.
pub open spec fn mask_count(n: nat) -> nat {
    vstd::arithmetic::power2::pow2(n)
}

/// Degree of the monomial `m` restricted to the first `j` generators:
/// the sum of the degrees of the generators whose bit is set.
pub open spec fn prefix_subset_degree(degs: Seq<i32>, m: nat, j: nat) -> int
    decreases j,
{
    if j == 0 {
        0
    } else {
        prefix_subset_degree(degs, m, (j - 1) as nat) + if bit_spec(m, (j - 1) as nat) {
            degs[j - 1] as int
        } else {
            0
        }
    }
}

/// Degree of the monomial `m`: the sum of the degrees of its generators.
pub open spec fn subset_degree(degs: Seq<i32>, m: nat) -> int {
    prefix_subset_degree(degs, m, degs.len())
}

/// Every monomial degree, accumulated generator by generator, is an `i32`.
pub open spec fn subset_sums_fit(degs: Seq<i32>) -> bool {
    forall|m: nat, j: nat|
        m < mask_count(degs.len()) && j <= degs.len() ==> i32::MIN <= #[trigger] prefix_subset_degree(
            degs,
            m,
            j,
        ) <= i32::MAX
}

/// Number of monomials `m < upto` of degree `k`.
pub open spec fn monomial_count(degs: Seq<i32>, k: int, upto: nat) -> nat
    decreases upto,
{
    if upto == 0 {
        0
    } else {
        monomial_count(degs, k, (upto - 1) as nat) + if subset_degree(degs, (upto - 1) as nat) == k {
            1nat
        } else {
            0nat
        }
    }
}

/// The map `old` with every monomial `m < upto` of degree at most `max_degree` counted in.
pub open spec fn counted_monomials(
    old: Map<i32, usize>,
    degs: Seq<i32>,
    max_degree: i32,
    upto: nat,
) -> Map<i32, usize> {
    Map::new(
        |k: i32| old.contains_key(k) || (k <= max_degree && monomial_count(degs, k as int, upto) > 0),
        |k: i32|
            (dim_spec(old, k) + if k <= max_degree {
                monomial_count(degs, k as int, upto)
            } else {
                0
            }) as usize,
    )
}

/// Dimension in each degree `k ≤ max_degree` of the algebra spanned by the monomials
/// (subsets of generators): the number of monomials of degree `k`.
pub open spec fn free_dimensions_spec(degs: Seq<i32>, max_degree: i32) -> Map<i32, usize> {
    if degs.len() == 0 {
        map![0i32 => 1usize]
    } else {
        counted_monomials(Map::empty(), degs, max_degree, mask_count(degs.len()))
    }
}

/// The number of monomials of each degree is a `usize`.
pub open spec fn monomial_counts_fit(degs: Seq<i32>) -> bool {
    forall|k: int| #[trigger] monomial_count(degs, k, mask_count(degs.len())) <= usize::MAX
}

/// At most `upto` monomials lie below `upto`.
pub proof fn lemma_monomial_count_le(degs: Seq<i32>, k: int, upto: nat)
    ensures
        monomial_count(degs, k, upto) <= upto,
    decreases upto,
{
    if upto > 0 {
        lemma_monomial_count_le(degs, k, (upto - 1) as nat);
    }
}

/// Degree of one monomial, generator by generator.
fn monomial_degree(degs: &Vec<i32>, mask: u64) -> (r: i32)
    requires
        degs.len() < 64,
        mask < mask_count(degs@.len()),
        subset_sums_fit(degs@),
    ensures
        r == subset_degree(degs@, mask as nat),
{
    let n = degs.len();
    let mut degree: i32 = 0;
    let mut i: usize = 0;
    while i < n
        invariant
            n == degs.len(),
            n < 64,
            0 <= i <= n,
            mask < mask_count(degs@.len()),
            subset_sums_fit(degs@),
            degree == prefix_subset_degree(degs@, mask as nat, i as nat),
        decreases n - i,
    {
        assert(i32::MIN <= prefix_subset_degree(degs@, mask as nat, (i + 1) as nat) <= i32::MAX);
        if has_bit(mask, i as u32) {
            degree = degree + degs[i];
        }
        i = i + 1;
    }
    degree
}

/// A free graded commutative algebra on generators.
/// Generators are specified by their degrees.
pub struct FreeGradedAlgebra {
    /// Generator degrees.
    pub generator_degrees: Vec<i32>,
    /// Whether each generator is odd (exterior) or even (polynomial).
    pub generator_parity: Vec<bool>,
}

impl FreeGradedAlgebra {
    /// Every generator has a degree and a parity.
    pub open spec fn wf(&self) -> bool {
        self.generator_degrees@.len() == self.generator_parity@.len()
    }

    /// A free graded algebra on generators of the given degrees and parities.
    pub fn new(generator_degrees: Vec<i32>, generator_parity: Vec<bool>) -> (r: Self)
        requires
            generator_degrees@.len() == generator_parity@.len(),
        ensures
            r.wf(),
            r.generator_degrees@ == generator_degrees@,
            r.generator_parity@ == generator_parity@,
    {
        FreeGradedAlgebra { generator_degrees, generator_parity }
    }

    /// Exterior algebra on generators of the given degrees (all odd).
    pub fn exterior(degrees: Vec<i32>) -> (r: Self)
        ensures
            r.wf(),
            r.generator_degrees@ == degrees@,
            r.generator_parity@ == Seq::new(degrees@.len(), |i: int| true),
    {
        let parity = constant_flags(degrees.len(), true);
        Self::new(degrees, parity)
    }

    /// Polynomial algebra on generators of the given degrees (all even).
    pub fn polynomial(degrees: Vec<i32>) -> (r: Self)
        ensures
            r.wf(),
            r.generator_degrees@ == degrees@,
            r.generator_parity@ == Seq::new(degrees@.len(), |i: int| false),
    {
        let parity = constant_flags(degrees.len(), false);
        Self::new(degrees, parity)
    }

    /// Compute the dimensions of the free algebra in each degree up to `max_degree`, counting
    /// the monomials as subsets of the generators (up to 63 generators, as bits of a mask).
    /// With no generators this is the ground field in degree 0.
    pub fn dimensions(&self, max_degree: i32) -> (r: HashMap<i32, usize>)
        requires
            self.generator_degrees@.len() < 64,
            subset_sums_fit(self.generator_degrees@),
            monomial_counts_fit(self.generator_degrees@),
        ensures
            r@ == free_dimensions_spec(self.generator_degrees@, max_degree),
    {
        let mut dims: HashMap<i32, usize> = HashMap::new();
        let n = self.generator_degrees.len();
        if n == 0 {
            dims.insert(0, 1);
            assert(dims@ =~= map![0i32 => 1usize]);
            return dims;
        }
        proof {
            assert forall|k: i32|
                #[trigger] dim_spec(dims@, k) + monomial_count(
                    self.generator_degrees@,
                    k as int,
                    mask_count(n as nat),
                ) <= usize::MAX by {
                assert(monomial_count(self.generator_degrees@, k as int, mask_count(n as nat)) <= usize::MAX);
                assert(dim_spec(dims@, k) == 0);
            }
        }
        self.enumerate_monomials(&mut dims, max_degree);
        dims
    }

    /// Count every monomial of degree at most `max_degree` into `dims`.
    pub fn enumerate_monomials(&self, dims: &mut HashMap<i32, usize>, max_degree: i32)
        requires
            self.generator_degrees@.len() < 64,
            subset_sums_fit(self.generator_degrees@),
            forall|k: i32|
                #[trigger] dim_spec(old(dims)@, k) + monomial_count(
                    self.generator_degrees@,
                    k as int,
                    mask_count(self.generator_degrees@.len()),
                ) <= usize::MAX,
        ensures
            final(dims)@ == counted_monomials(
                old(dims)@,
                self.generator_degrees@,
                max_degree,
                mask_count(self.generator_degrees@.len()),
            ),
    {
        let ghost degs = self.generator_degrees@;
        let ghost old_dims = dims@;
        let n = self.generator_degrees.len();
        proof {
            vstd::bits::lemma_u64_pow2_no_overflow(n as nat);
            vstd::bits::lemma_u64_shl_is_mul(1u64, n as u64);
        }
        let total: u64 = 1u64 << (n as u64);
        assert(total == mask_count(n as nat));
        assert(dims@ =~= counted_monomials(old_dims, degs, max_degree, 0));
        let mut mask: u64 = 0;
        while mask < total
            invariant
                degs == self.generator_degrees@,
                n == degs.len(),
                n < 64,
                total == mask_count(n as nat),
                0 <= mask <= total,
                subset_sums_fit(degs),
                forall|k: i32|
                    #[trigger] dim_spec(old_dims, k) + monomial_count(degs, k as int, total as nat)
                        <= usize::MAX,
                dims@ == counted_monomials(old_dims, degs, max_degree, mask as nat),
            decreases total - mask,
        {
            let degree = monomial_degree(&self.generator_degrees, mask);
            let ghost next = (mask + 1) as nat;
            if degree <= max_degree {
                let cur: usize = match dims.get(&degree) {
                    Some(c) => *c,
                    None => 0,
                };
                proof {
                    lemma_monomial_count_monotone(degs, degree as int, next, total as nat);
                    assert(dim_spec(old_dims, degree) + monomial_count(degs, degree as int, total as nat)
                        <= usize::MAX);
                }
                dims.insert(degree, cur + 1);
            }
            proof {
                assert(dims@ =~= counted_monomials(old_dims, degs, max_degree, next));
            }
            mask = mask + 1;
        }
    }

    /// Build the underlying graded vector space up to `max_degree`.
    pub fn graded_vector_space(&self, max_degree: i32) -> (r: GradedVectorSpace)
        requires
            self.generator_degrees@.len() < 64,
            subset_sums_fit(self.generator_degrees@),
            monomial_counts_fit(self.generator_degrees@),
        ensures
            r@ == free_dimensions_spec(self.generator_degrees@, max_degree),
    {
        GradedVectorSpace::new(self.dimensions(max_degree))
    }
}

/// Counting monomials further up never finds fewer.
pub proof fn lemma_monomial_count_monotone(degs: Seq<i32>, k: int, a: nat, b: nat)
    requires
        a <= b,
    ensures
        monomial_count(degs, k, a) <= monomial_count(degs, k, b),
    decreases b,
{
    if a < b {
        lemma_monomial_count_monotone(degs, k, a, (b - 1) as nat);
    }
}

/// A vector of `n` copies of `flag`.
fn constant_flags(n: usize, flag: bool) -> (r: Vec<bool>)
    ensures
        r@ == Seq::new(n as nat, |i: int| flag),
{
    let mut v: Vec<bool> = Vec::new();
    let mut i: usize = 0;
    while i < n
        invariant
            0 <= i <= n,
            v@ == Seq::new(i as nat, |j: int| flag),
        decreases n - i,
    {
        v.push(flag);
        i = i + 1;
    }
    v
}


/// Lexicographic order on (degree, mask) pairs.
pub open spec fn degree_mask_lt(x: (i32, u64), y: (i32, u64)) -> bool {
    x.0 < y.0 || (x.0 == y.0 && x.1 < y.1)
}

/// `basis` lists, in increasing (degree, mask) order, exactly the monomials `m < upto`
/// of degree at most `max_degree`, each with its degree.
pub open spec fn is_monomial_basis(
    basis: Seq<(i32, u64)>,
    degs: Seq<i32>,
    max_degree: i32,
    upto: nat,
) -> bool {
    &&& forall|i: int, j: int| 0 <= i < j < basis.len() ==> degree_mask_lt(basis[i], basis[j])
    &&& forall|i: int|
        0 <= i < basis.len() ==> {
            &&& (#[trigger] basis[i]).1 < upto
            &&& basis[i].0 == subset_degree(degs, basis[i].1 as nat)
            &&& basis[i].0 <= max_degree
        }
    &&& forall|m: u64|
        m < upto && subset_degree(degs, m as nat) <= max_degree ==> exists|i: int|
            0 <= i < basis.len() && (#[trigger] basis[i]).1 == m
}

/// The monomial basis up to `max_degree`: every subset of generators whose degree is at most
/// `max_degree`, as (degree, mask) pairs sorted by degree, then by mask.
pub fn build_monomial_basis(generators: &FreeGradedAlgebra, max_degree: i32) -> (r: Vec<(i32, u64)>)
    requires
        generators.generator_degrees@.len() < 64,
        subset_sums_fit(generators.generator_degrees@),
    ensures
        is_monomial_basis(
            r@,
            generators.generator_degrees@,
            max_degree,
            mask_count(generators.generator_degrees@.len()),
        ),
{
    let ghost degs = generators.generator_degrees@;
    let n = generators.generator_degrees.len();
    proof {
        vstd::bits::lemma_u64_pow2_no_overflow(n as nat);
        vstd::bits::lemma_u64_shl_is_mul(1u64, n as u64);
    }
    let total: u64 = 1u64 << (n as u64);
    let mut monomials: Vec<(i32, u64)> = Vec::new();
    let mut mask: u64 = 0;
    while mask < total
        invariant
            degs == generators.generator_degrees@,
            n == degs.len(),
            n < 64,
            total == mask_count(n as nat),
            0 <= mask <= total,
            subset_sums_fit(degs),
            is_monomial_basis(monomials@, degs, max_degree, mask as nat),
        decreases total - mask,
    {
        let degree = monomial_degree(&generators.generator_degrees, mask);
        if degree <= max_degree {
            let mut pos: usize = 0;
            while pos < monomials.len() && monomials[pos].0 <= degree
                invariant
                    0 <= pos <= monomials.len(),
                    forall|i: int| 0 <= i < pos ==> monomials@[i].0 <= degree,
                decreases monomials.len() - pos,
            {
                pos = pos + 1;
            }
            let ghost old_m = monomials@;
            monomials.insert(pos, (degree, mask));
            proof {
                let nm = monomials@;
                assert forall|i: int, j: int| 0 <= i < j < nm.len() implies degree_mask_lt(
                    nm[i],
                    nm[j],
                ) by {
                    if j < pos {
                        assert(nm[i] == old_m[i] && nm[j] == old_m[j]);
                    } else if j == pos {
                        assert(old_m[i].1 < mask);
                    } else if i < pos {
                        assert(nm[i] == old_m[i] && nm[j] == old_m[j - 1]);
                        assert(old_m[i].0 <= degree);
                        assert(degree < old_m[pos as int].0);
                        if pos < j - 1 {
                            assert(degree_mask_lt(old_m[pos as int], old_m[j - 1]));
                        }
                    } else if i == pos {
                        assert(degree < old_m[pos as int].0);
                        if pos < j - 1 {
                            assert(degree_mask_lt(old_m[pos as int], old_m[j - 1]));
                        }
                    } else {
                        assert(nm[i] == old_m[i - 1] && nm[j] == old_m[j - 1]);
                    }
                }
                assert forall|m: u64|
                    m < (mask + 1) as nat && subset_degree(degs, m as nat) <= max_degree implies exists|
                    i: int,
                | 0 <= i < nm.len() && (#[trigger] nm[i]).1 == m by {
                    if m == mask {
                        assert(nm[pos as int].1 == m);
                    } else {
                        let i = choose|i: int| 0 <= i < old_m.len() && (#[trigger] old_m[i]).1 == m;
                        if i < pos {
                            assert(nm[i] == old_m[i]);
                        } else {
                            assert(nm[i + 1] == old_m[i]);
                        }
                    }
                }
                assert(is_monomial_basis(nm, degs, max_degree, (mask + 1) as nat));
            }
        } else {
            proof {
                let nm = monomials@;
                assert forall|m: u64|
                    m < (mask + 1) as nat && subset_degree(degs, m as nat) <= max_degree implies exists|
                    i: int,
                | 0 <= i < nm.len() && (#[trigger] nm[i]).1 == m by {
                    assert(m != mask);
                }
            }
        }
        mask = mask + 1;
    }
    monomials
}

/// `(-1)ᵉ`.
pub open spec fn sign_of_count(e: nat) -> int {
    if e % 2 == 0 {
        1
    } else {
        -1
    }
}

/// Number of transpositions `(i, j)` with `j < i`, generator `i` odd and in `a`, and generator
/// `j` in `b`, for `i < ri` and `j < rj`, among the first `n` generators: the moves of an odd
/// generator of `a` past one of `b`.
pub open spec fn odd_crossings(parity: Seq<bool>, a: nat, b: nat, n: nat, ri: nat, rj: nat) -> nat
    decreases ri, rj,
{
    if ri == 0 {
        0
    } else if rj == 0 {
        odd_crossings(parity, a, b, n, (ri - 1) as nat, n)
    } else {
        odd_crossings(parity, a, b, n, ri, (rj - 1) as nat) + if bit_spec(a, (ri - 1) as nat) && bit_spec(
            b,
            (rj - 1) as nat,
        ) && (rj - 1) < (ri - 1) && parity[ri - 1] {
            1nat
        } else {
            0nat
        }
    }
}

/// The parity of generator `i` is read whenever generator `i` is in `a` and some generator
/// below it is in `b`: it must then be given.
pub open spec fn parity_read_in_range(parity: Seq<bool>, n: nat, a: nat, b: nat) -> bool {
    forall|i: nat, j: nat|
        parity.len() <= i < n && j < i && #[trigger] bit_spec(a, i) && #[trigger] bit_spec(b, j)
            ==> false
}

/// Koszul sign of the product of the monomials `mask_a` and `mask_b` over the generators of the
/// given degrees: `-1` for every odd generator of `mask_a` moved past a generator of `mask_b`
/// of lower index.
pub fn compute_koszul_sign_for_product(
    degrees: &Vec<i32>,
    parity: &Vec<bool>,
    mask_a: u64,
    mask_b: u64,
) -> (r: i64)
    requires
        degrees@.len() <= 64,
        parity_read_in_range(parity@, degrees@.len() as nat, mask_a as nat, mask_b as nat),
    ensures
        r == sign_of_count(
            odd_crossings(
                parity@,
                mask_a as nat,
                mask_b as nat,
                degrees@.len() as nat,
                degrees@.len() as nat,
                degrees@.len() as nat,
            ),
        ),
        (forall|i: nat, j: nat|
            j < i < degrees@.len() && #[trigger] bit_spec(mask_a as nat, i) && #[trigger] bit_spec(
                mask_b as nat,
                j,
            ) ==> !parity@[i as int]) ==> r == 1,
{
    proof {
        if forall|i: nat, j: nat|
            j < i < degrees@.len() && #[trigger] bit_spec(mask_a as nat, i) && #[trigger] bit_spec(
                mask_b as nat,
                j,
            ) ==> !parity@[i as int] {
            lemma_koszul_even_moves_unsigned(parity@, degrees@.len() as nat, mask_a as nat, mask_b as nat);
        }
    }
    let n = degrees.len();
    let ghost nn = n as nat;
    let mut sign: i64 = 1;
    let mut i: usize = 0;
    while i < n
        invariant
            n == degrees@.len(),
            nn == n,
            n <= 64,
            0 <= i <= n,
            parity_read_in_range(parity@, nn, mask_a as nat, mask_b as nat),
            sign == sign_of_count(odd_crossings(parity@, mask_a as nat, mask_b as nat, nn, i as nat, nn)),
        decreases n - i,
    {
        let a_has = has_bit(mask_a, i as u32);
        let mut j: usize = 0;
        proof {
            assert(odd_crossings(parity@, mask_a as nat, mask_b as nat, nn, (i + 1) as nat, 0) == odd_crossings(
                parity@,
                mask_a as nat,
                mask_b as nat,
                nn,
                i as nat,
                nn,
            ));
        }
        while j < n
            invariant
                n == degrees@.len(),
                nn == n,
                n <= 64,
                0 <= i < n,
                0 <= j <= n,
                parity_read_in_range(parity@, nn, mask_a as nat, mask_b as nat),
                a_has == bit_spec(mask_a as nat, i as nat),
                sign == sign_of_count(
                    odd_crossings(parity@, mask_a as nat, mask_b as nat, nn, (i + 1) as nat, j as nat),
                ),
            decreases n - j,
        {
            if a_has {
                if has_bit(mask_b, j as u32) && j < i {
                    proof {
                        if i >= parity@.len() {
                            assert(bit_spec(mask_a as nat, i as nat) && bit_spec(mask_b as nat, j as nat));
                        }
                    }
                    if parity[i] {
                        sign = -sign;
                    }
                }
            }
            j = j + 1;
        }
        i = i + 1;
    }
    sign
}

/// With every generator in degree 1, the degree of a monomial is its number of generators.
proof fn lemma_unit_degree_prefix(degs: Seq<i32>, m: nat, j: nat)
    requires
        j <= degs.len(),
        forall|i: int| 0 <= i < degs.len() ==> #[trigger] degs[i] == 1,
    ensures
        prefix_subset_degree(degs, m, j) == count_bits(m, 0, j),
    decreases j,
{
    if j > 0 {
        lemma_unit_degree_prefix(degs, m, (j - 1) as nat);
    }
}

proof fn lemma_unit_monomial_count(degs: Seq<i32>, k: int, upto: nat)
    requires
        forall|i: int| 0 <= i < degs.len() ==> #[trigger] degs[i] == 1,
    ensures
        monomial_count(degs, k, upto) == weight_count(degs.len(), k, upto),
    decreases upto,
{
    if upto > 0 {
        lemma_unit_monomial_count(degs, k, (upto - 1) as nat);
        lemma_unit_degree_prefix(degs, (upto - 1) as nat, degs.len());
    }
}

/// The exterior algebra on `n` generators of degree 1 has dimension `C(n, k)` in each degree
/// `0 ≤ k ≤ max_degree`, and nothing elsewhere (with no generators the ground field is kept
/// whatever `max_degree` is).
pub proof fn lemma_exterior_dimensions(degs: Seq<i32>, max_degree: i32, k: i32)
    requires
        mask_count(degs.len()) <= usize::MAX,
        degs.len() > 0 || max_degree >= 0,
        forall|i: int| 0 <= i < degs.len() ==> #[trigger] degs[i] == 1,
    ensures
        dim_spec(free_dimensions_spec(degs, max_degree), k) == if 0 <= k <= max_degree {
            choose_spec(degs.len(), k as nat) as int
        } else {
            0int
        },
{
    let n = degs.len();
    if n == 0 {
        if k > 0 {
            lemma_choose_above(0, k as nat);
        }
    } else {
        let total = mask_count(n);
        lemma_unit_monomial_count(degs, k as int, total);
        lemma_monomial_count_le(degs, k as int, total);
        if k < 0 {
            lemma_weight_count_negative(n, k as int, total);
        } else {
            lemma_weight_count_binomial(n, k as nat);
        }
    }
}


/// The masks of the monomials of degree `d` among the first `upto` of `mons`, in order.
pub open spec fn masks_of_degree(mons: Seq<(i32, u64)>, d: i32, upto: nat) -> Seq<u64>
    decreases upto,
{
    if upto == 0 {
        Seq::empty()
    } else {
        let prev = masks_of_degree(mons, d, (upto - 1) as nat);
        if mons[upto - 1].0 == d {
            prev.push(mons[upto - 1].1)
        } else {
            prev
        }
    }
}

/// The masks of the monomials of a given degree, in basis order.
pub fn monomials_of_degree(monomials: &Vec<(i32, u64)>, degree: i32) -> (r: Vec<u64>)
    ensures
        r@ == masks_of_degree(monomials@, degree, monomials@.len()),
{
    let mut out: Vec<u64> = Vec::new();
    let mut i: usize = 0;
    while i < monomials.len()
        invariant
            0 <= i <= monomials.len(),
            out@ == masks_of_degree(monomials@, degree, i as nat),
        decreases monomials.len() - i,
    {
        let (d, m) = monomials[i];
        if d == degree {
            out.push(m);
        }
        i = i + 1;
    }
    out
}

proof fn lemma_masks_of_degree_bound(mons: Seq<(i32, u64)>, d: i32, upto: nat, bound: nat)
    requires
        upto <= mons.len(),
        forall|i: int| 0 <= i < mons.len() ==> (#[trigger] mons[i]).1 < bound,
    ensures
        forall|j: int|
            0 <= j < masks_of_degree(mons, d, upto).len() ==> #[trigger] masks_of_degree(mons, d, upto)[j]
                < bound,
    decreases upto,
{
    if upto > 0 {
        lemma_masks_of_degree_bound(mons, d, (upto - 1) as nat, bound);
        let prev = masks_of_degree(mons, d, (upto - 1) as nat);
        let cur = masks_of_degree(mons, d, upto);
        assert((mons[upto - 1]).1 < bound);
        assert forall|j: int| 0 <= j < cur.len() implies #[trigger] cur[j] < bound by {
            if j < prev.len() {
                assert(cur[j] == prev[j]);
            }
        }
    }
}

/// No odd generator occurs in both monomials: their product is not zero by `x² = 0`.
pub open spec fn no_odd_overlap(parity: Seq<bool>, a: u64, b: u64) -> bool {
    forall|i: nat| i < parity.len() ==> !(bit_spec((a & b) as nat, i) && parity[i as int])
}

/// `i` is the first position of `x` in `s`.
pub open spec fn first_mask_index(s: Seq<u64>, x: u64, i: int) -> bool {
    &&& 0 <= i < s.len()
    &&& s[i] == x
    &&& forall|j: int| 0 <= j < i ==> s[j] != x
}

/// The entry that the pair `(ip, iq)` of monomials of degrees `p` and `q` writes into the
/// product matrix, as (row, column, sign): present when no odd generator repeats, the product
/// has degree `deg_r`, it is listed among the monomials of degree `deg_r` (its first place is
/// the row) and the row and column `ip · dq + iq` fall inside the matrix.
pub open spec fn free_product_write(
    degs: Seq<i32>,
    parity: Seq<bool>,
    mp: Seq<u64>,
    mq: Seq<u64>,
    mr: Seq<u64>,
    deg_r: i32,
    dp: nat,
    dq: nat,
    dr: nat,
    ip: int,
    iq: int,
) -> Option<(usize, usize, i64)> {
    let a = mp[ip];
    let b = mq[iq];
    let prod = a | b;
    if no_odd_overlap(parity, a, b) && subset_degree(degs, prod as nat) == deg_r && exists|i: int|
        first_mask_index(mr, prod, i) {
        let ir = choose|i: int| first_mask_index(mr, prod, i);
        if ip * dq + iq < dp * dq && ir < dr {
            Some(
                (
                    ir as usize,
                    (ip * dq + iq) as usize,
                    sign_of_count(odd_crossings(parity, a as nat, b as nat, degs.len(), degs.len(), degs.len()))
                        as i64,
                ),
            )
        } else {
            None
        }
    } else {
        None
    }
}

/// The writes of the pairs `(ip, 0), ..., (ip, upto - 1)`, in order.
pub open spec fn row_writes(
    degs: Seq<i32>,
    parity: Seq<bool>,
    mp: Seq<u64>,
    mq: Seq<u64>,
    mr: Seq<u64>,
    deg_r: i32,
    dp: nat,
    dq: nat,
    dr: nat,
    ip: int,
    upto: nat,
) -> Seq<(usize, usize, i64)>
    decreases upto,
{
    if upto == 0 {
        Seq::empty()
    } else {
        let prev = row_writes(degs, parity, mp, mq, mr, deg_r, dp, dq, dr, ip, (upto - 1) as nat);
        match free_product_write(degs, parity, mp, mq, mr, deg_r, dp, dq, dr, ip, upto - 1) {
            Some(w) => prev.push(w),
            None => prev,
        }
    }
}

/// The writes of all pairs `(ip, iq)` with `ip < upto`, row after row.
pub open spec fn all_writes(
    degs: Seq<i32>,
    parity: Seq<bool>,
    mp: Seq<u64>,
    mq: Seq<u64>,
    mr: Seq<u64>,
    deg_r: i32,
    dp: nat,
    dq: nat,
    dr: nat,
    upto: nat,
) -> Seq<(usize, usize, i64)>
    decreases upto,
{
    if upto == 0 {
        Seq::empty()
    } else {
        all_writes(degs, parity, mp, mq, mr, deg_r, dp, dq, dr, (upto - 1) as nat) + row_writes(
            degs,
            parity,
            mp,
            mq,
            mr,
            deg_r,
            dp,
            dq,
            dr,
            upto - 1,
            mq.len(),
        )
    }
}

/// The value in row `ir` and column `c` after a sequence of writes: the last write there, or 0.
pub open spec fn cell_value(writes: Seq<(usize, usize, i64)>, ir: int, c: int) -> i64
    decreases writes.len(),
{
    if writes.len() == 0 {
        0
    } else {
        let w = writes.last();
        if w.0 == ir && w.1 == c {
            w.2
        } else {
            cell_value(writes.drop_last(), ir, c)
        }
    }
}

proof fn lemma_flat_index(i: int, j: int, k: int, l: int, cols: int, rows: int)
    requires
        0 <= i < rows,
        0 <= k < rows,
        0 <= j < cols,
        0 <= l < cols,
    ensures
        0 <= i * cols + j < rows * cols,
        i * cols + j == k * cols + l ==> i == k && j == l,
{
    assert(0 <= i * cols) by (nonlinear_arith)
        requires
            0 <= i,
            0 <= cols,
    ;
    assert(i * cols + cols <= rows * cols) by (nonlinear_arith)
        requires
            i + 1 <= rows,
            0 <= cols,
    ;
    if i * cols + j == k * cols + l {
        if i < k {
            assert(i * cols + cols <= k * cols) by (nonlinear_arith)
                requires
                    i + 1 <= k,
                    0 <= cols,
            ;
        } else if k < i {
            assert(k * cols + cols <= i * cols) by (nonlinear_arith)
                requires
                    k + 1 <= i,
                    0 <= cols,
            ;
        }
    }
}

/// Structure constants of the free graded commutative product `Aᵖ ⊗ A^q → Aᵖ⁺ᵠ` on the
/// monomial basis: a `dr × (dp · dq)` matrix in which the pair of the `ip`-th monomial of degree
/// `deg_p` and the `iq`-th of degree `deg_q` puts the Koszul sign of their product in the row of
/// that product among the monomials of degree `deg_p + deg_q` and in column `ip · dq + iq`,
/// unless an odd generator repeats or the place lies outside the matrix; a later pair
/// overwrites an earlier one in the same place, and every other entry is 0.
pub fn free_product_matrix(
    generators: &FreeGradedAlgebra,
    monomials: &Vec<(i32, u64)>,
    deg_p: i32,
    deg_q: i32,
    dp: usize,
    dq: usize,
    dr: usize,
) -> (r: Vec<Vec<i64>>)
    requires
        generators.wf(),
        generators.generator_degrees@.len() < 64,
        subset_sums_fit(generators.generator_degrees@),
        forall|i: int|
            0 <= i < monomials@.len() ==> (#[trigger] monomials@[i]).1 < mask_count(
                generators.generator_degrees@.len(),
            ),
        i32::MIN <= deg_p + deg_q <= i32::MAX,
        dp * dq <= usize::MAX,
        dr * (dp * dq) <= usize::MAX,
    ensures
        r@.len() == dr,
        forall|ir: int| 0 <= ir < dr ==> (#[trigger] r@[ir])@.len() == dp * dq,
        forall|ir: int, c: int|
            0 <= ir < dr && 0 <= c < dp * dq ==> r@[ir]@[c] == #[trigger] cell_value(
                all_writes(
                    generators.generator_degrees@,
                    generators.generator_parity@,
                    masks_of_degree(monomials@, deg_p, monomials@.len()),
                    masks_of_degree(monomials@, deg_q, monomials@.len()),
                    masks_of_degree(monomials@, (deg_p + deg_q) as i32, monomials@.len()),
                    (deg_p + deg_q) as i32,
                    dp as nat,
                    dq as nat,
                    dr as nat,
                    masks_of_degree(monomials@, deg_p, monomials@.len()).len(),
                ),
                ir,
                c,
            ),
{
    let ghost degs = generators.generator_degrees@;
    let ghost parity = generators.generator_parity@;
    let n = generators.generator_degrees.len();
    let deg_r: i32 = deg_p + deg_q;
    let mon_p = monomials_of_degree(monomials, deg_p);
    let mon_q = monomials_of_degree(monomials, deg_q);
    let mon_r = monomials_of_degree(monomials, deg_r);
    proof {
        lemma_masks_of_degree_bound(monomials@, deg_p, monomials@.len(), mask_count(n as nat));
        lemma_masks_of_degree_bound(monomials@, deg_q, monomials@.len(), mask_count(n as nat));
        vstd::bits::lemma_u64_pow2_no_overflow(n as nat);
        vstd::bits::lemma_u64_shl_is_mul(1u64, n as u64);
    }
    let bound: u64 = 1u64 << (n as u64);
    let ghost mp = mon_p@;
    let ghost mq = mon_q@;
    let ghost mr = mon_r@;
    let ghost dpn = dp as nat;
    let ghost dqn = dq as nat;
    let ghost drn = dr as nat;
    let cols: usize = dp * dq;
    let size: usize = dr * cols;
    let mut flat: Vec<i64> = Vec::new();
    let mut z: usize = 0;
    while z < size
        invariant
            0 <= z <= size,
            flat@.len() == z,
            forall|j: int| 0 <= j < z ==> flat@[j] == 0i64,
        decreases size - z,
    {
        flat.push(0);
        z = z + 1;
    }
    let ghost mut writes: Seq<(usize, usize, i64)> = Seq::empty();
    proof {
        assert forall|ir: int, c: int| 0 <= ir < dr && 0 <= c < cols implies flat@[ir * cols + c]
            == cell_value(writes, ir, c) by {
            lemma_flat_index(ir, c, ir, c, cols as int, dr as int);
        }
    }
    let np = mon_p.len();
    let nq = mon_q.len();
    let nr = mon_r.len();
    let mut ip: usize = 0;
    while ip < np
        invariant
            degs == generators.generator_degrees@,
            parity == generators.generator_parity@,
            degs.len() == parity.len(),
            n == degs.len(),
            n < 64,
            subset_sums_fit(degs),
            mp == mon_p@,
            mq == mon_q@,
            mr == mon_r@,
            np == mp.len(),
            nq == mq.len(),
            nr == mr.len(),
            dpn == dp,
            dqn == dq,
            drn == dr,
            forall|j: int| 0 <= j < mp.len() ==> #[trigger] mp[j] < mask_count(n as nat),
            forall|j: int| 0 <= j < mq.len() ==> #[trigger] mq[j] < mask_count(n as nat),
            bound == (1u64 << (n as u64)),
            bound == mask_count(n as nat),
            cols == dp * dq,
            size == dr * cols,
            flat@.len() == size,
            0 <= ip <= np,
            writes == all_writes(degs, parity, mp, mq, mr, deg_r, dpn, dqn, drn, ip as nat),
            forall|ir: int, c: int|
                0 <= ir < dr && 0 <= c < cols ==> flat@[ir * cols + c] == cell_value(writes, ir, c),
        decreases np - ip,
    {
        let ghost base = writes;
        let mut iq: usize = 0;
        while iq < nq
            invariant
                degs == generators.generator_degrees@,
                parity == generators.generator_parity@,
                degs.len() == parity.len(),
                n == degs.len(),
                n < 64,
                subset_sums_fit(degs),
                mp == mon_p@,
                mq == mon_q@,
                mr == mon_r@,
                np == mp.len(),
                nq == mq.len(),
                nr == mr.len(),
                dpn == dp,
                dqn == dq,
                drn == dr,
                0 <= ip < np,
                0 <= iq <= nq,
                forall|j: int| 0 <= j < mp.len() ==> #[trigger] mp[j] < mask_count(n as nat),
                forall|j: int| 0 <= j < mq.len() ==> #[trigger] mq[j] < mask_count(n as nat),
                bound == (1u64 << (n as u64)),
                bound == mask_count(n as nat),
                cols == dp * dq,
                size == dr * cols,
                flat@.len() == size,
                base == all_writes(degs, parity, mp, mq, mr, deg_r, dpn, dqn, drn, ip as nat),
                writes == base + row_writes(degs, parity, mp, mq, mr, deg_r, dpn, dqn, drn, ip as int, iq as nat),
                forall|ir: int, c: int|
                    0 <= ir < dr && 0 <= c < cols ==> flat@[ir * cols + c] == cell_value(writes, ir, c),
            decreases nq - iq,
        {
            let a = mon_p[ip];
            let b = mon_q[iq];
            let product = a | b;
            let overlap = a & b;
            let mut valid = true;
            let mut i: usize = 0;
            while i < n
                invariant
                    n == parity.len(),
                    n < 64,
                    parity == generators.generator_parity@,
                    overlap == a & b,
                    0 <= i <= n,
                    valid == (forall|j: nat| j < i ==> !(bit_spec((a & b) as nat, j) && parity[j as int])),
                decreases n - i,
            {
                let hit = has_bit(overlap, i as u32) && generators.generator_parity[i];
                proof {
                    if !valid {
                        let j0 = choose|j: nat| j < i && !!(bit_spec((a & b) as nat, j) && parity[j as int]);
                        assert(j0 < i + 1);
                    }
                    if hit {
                        assert(bit_spec((a & b) as nat, i as nat) && parity[i as int]);
                    }
                }
                if hit {
                    valid = false;
                }
                i = i + 1;
            }
            let ghost w = free_product_write(degs, parity, mp, mq, mr, deg_r, dpn, dqn, drn, ip as int, iq as int);
            let ghost old_writes = writes;
            let ghost old_flat = flat@;
            if valid {
                proof {
                    assert(a < bound);
                    assert(b < bound);
                    assert(a | b < bound) by (bit_vector)
                        requires
                            a < bound,
                            b < bound,
                            bound == (1u64 << (n as u64)),
                            n < 64,
                    ;
                }
                let prod_deg = monomial_degree(&generators.generator_degrees, product);
                if prod_deg == deg_r {
                    let sign = compute_koszul_sign_for_product(
                        &generators.generator_degrees,
                        &generators.generator_parity,
                        a,
                        b,
                    );
                    let mut ir: usize = 0;
                    while ir < nr && mon_r[ir] != product
                        invariant
                            mr == mon_r@,
                            nr == mr.len(),
                            0 <= ir <= nr,
                            forall|j: int| 0 <= j < ir ==> mr[j] != product,
                        decreases nr - ir,
                    {
                        ir = ir + 1;
                    }
                    proof {
                        if ir < nr {
                            assert(first_mask_index(mr, product, ir as int));
                            let c0 = choose|x: int| first_mask_index(mr, product, x);
                            if c0 < ir {
                                assert(mr[c0] != product);
                            }
                            if ir < c0 {
                                assert(mr[ir as int] != product);
                            }
                        } else {
                            assert(!exists|x: int| first_mask_index(mr, product, x));
                        }
                    }
                    if ir < nr {
                        proof {
                            if ip < dp {
                                assert((dp - ip) * dq == dp * dq - ip * dq) by (nonlinear_arith);
                                assert(0 <= ip * dq) by (nonlinear_arith);
                            } else {
                                assert(ip * dq >= dp * dq) by (nonlinear_arith)
                                    requires
                                        ip >= dp,
                                ;
                            }
                        }
                        let in_cols: bool = ip < dp && iq < (dp - ip) * dq;
                        if in_cols && ir < dr {
                            let c: usize = ip * dq + iq;
                            proof {
                                lemma_flat_index(ir as int, c as int, ir as int, c as int, cols as int, dr as int);
                            }
                            flat.set(ir * cols + c, sign);
                            proof {
                                assert(w == Some((ir, c, sign)));
                                writes = writes.push((ir, c, sign));
                                assert(writes.drop_last() =~= old_writes);
                                assert(writes.last() == (ir, c, sign));
                                assert(flat@ == old_flat.update(ir * cols + c, sign));
                                assert forall|ir2: int, c2: int| 0 <= ir2 < dr && 0 <= c2 < cols implies flat@[ir2 * cols + c2]
                                    == cell_value(writes, ir2, c2) by {
                                    lemma_flat_index(ir2, c2, ir as int, c as int, cols as int, dr as int);
                                    if ir2 == ir && c2 == c {
                                        assert(flat@[ir2 * cols + c2] == sign);
                                    } else {
                                        assert(ir2 * cols + c2 != ir * cols + c);
                                        assert(flat@[ir2 * cols + c2] == old_flat[ir2 * cols + c2]);
                                        assert(old_flat[ir2 * cols + c2] == cell_value(old_writes, ir2, c2));
                                    }
                                }
                            }
                        } else {
                            proof {
                                assert(w is None);
                            }
                        }
                    } else {
                        proof {
                            assert(w is None);
                        }
                    }
                } else {
                    proof {
                        assert(w is None);
                    }
                }
            } else {
                proof {
                    assert(w is None);
                }
            }
            proof {
                let rw = row_writes(degs, parity, mp, mq, mr, deg_r, dpn, dqn, drn, ip as int, iq as nat);
                let rw2 = row_writes(degs, parity, mp, mq, mr, deg_r, dpn, dqn, drn, ip as int, (iq + 1) as nat);
                match w {
                    Some(x) => {
                        assert(rw2 == rw.push(x));
                        assert(base + rw.push(x) =~= (base + rw).push(x));
                    },
                    None => {
                        assert(rw2 == rw);
                        assert(writes == old_writes);
                    },
                }
            }
            iq = iq + 1;
        }
        proof {
            assert(all_writes(degs, parity, mp, mq, mr, deg_r, dpn, dqn, drn, (ip + 1) as nat) == base
                + row_writes(degs, parity, mp, mq, mr, deg_r, dpn, dqn, drn, ip as int, nq as nat));
        }
        ip = ip + 1;
    }
    let mut matrix: Vec<Vec<i64>> = Vec::new();
    let mut ir: usize = 0;
    while ir < dr
        invariant
            cols == dp * dq,
            size == dr * cols,
            flat@.len() == size,
            0 <= ir <= dr,
            matrix@.len() == ir,
            forall|k: int| 0 <= k < ir ==> (#[trigger] matrix@[k])@.len() == cols,
            forall|k: int, c: int| 0 <= k < ir && 0 <= c < cols ==> #[trigger] matrix@[k]@[c] == flat@[k * cols + c],
        decreases dr - ir,
    {
        let mut row: Vec<i64> = Vec::new();
        let mut c: usize = 0;
        while c < cols
            invariant
                cols == dp * dq,
                size == dr * cols,
                flat@.len() == size,
                0 <= ir < dr,
                0 <= c <= cols,
                row@.len() == c,
                forall|j: int| 0 <= j < c ==> row@[j] == flat@[ir * cols + j],
            decreases cols - c,
        {
            proof {
                lemma_flat_index(ir as int, c as int, ir as int, c as int, cols as int, dr as int);
            }
            row.push(flat[ir * cols + c]);
            c = c + 1;
        }
        matrix.push(row);
        ir = ir + 1;
    }
    matrix
}


/// The degrees `ds[0], ..., ds[upto - 1]`, each repeated as often as its Betti number says.
pub open spec fn repeat_by_betti(ds: Seq<i32>, betti: Map<i32, usize>, upto: nat) -> Seq<i32>
    decreases upto,
{
    if upto == 0 {
        Seq::empty()
    } else {
        repeat_by_betti(ds, betti, (upto - 1) as nat) + Seq::new(
            dim_spec(betti, ds[upto - 1]),
            |j: int| ds[upto - 1],
        )
    }
}

/// A generator of degree `d` is odd when `d % 2 == 1` as Rust computes it, which holds for the
/// positive odd degrees only.
pub open spec fn odd_degree(d: i32) -> bool {
    d >= 0 && d % 2 == 1
}

/// The first stage of a minimal model: one generator for each dimension of cohomology, that is
/// `βₖ` generators of degree `k` for each degree with `βₖ > 0`, in increasing degree, each odd
/// when its degree is odd and positive.
pub fn generators_from_betti(betti: &HashMap<i32, usize>) -> (r: FreeGradedAlgebra)
    ensures
        r.wf(),
        exists|ds: Seq<i32>|
            strictly_sorted(ds) && ds.to_set() == nonzero_degree_set(betti@)
                && r.generator_degrees@ == repeat_by_betti(ds, betti@, ds.len()),
        forall|i: int|
            0 <= i < r.generator_parity@.len() ==> r.generator_parity@[i] == odd_degree(
                #[trigger] r.generator_degrees@[i],
            ),
{
    let ds = nonzero_degrees(betti);
    let mut degrees: Vec<i32> = Vec::new();
    let mut parity: Vec<bool> = Vec::new();
    let mut i: usize = 0;
    while i < ds.len()
        invariant
            0 <= i <= ds.len(),
            degrees@ == repeat_by_betti(ds@, betti@, i as nat),
            parity@.len() == degrees@.len(),
            forall|j: int| 0 <= j < parity@.len() ==> parity@[j] == odd_degree(#[trigger] degrees@[j]),
        decreases ds.len() - i,
    {
        let k = ds[i];
        let b: usize = match betti.get(&k) {
            Some(v) => *v,
            None => 0,
        };
        let odd: bool = k % 2 == 1;
        proof {
            assert(odd == odd_degree(k));
        }
        let ghost before = degrees@;
        let mut c: usize = 0;
        while c < b
            invariant
                0 <= c <= b,
                b == dim_spec(betti@, k),
                odd == odd_degree(k),
                degrees@ == before + Seq::new(c as nat, |j: int| k),
                parity@.len() == degrees@.len(),
                forall|j: int| 0 <= j < parity@.len() ==> parity@[j] == odd_degree(#[trigger] degrees@[j]),
            decreases b - c,
        {
            degrees.push(k);
            parity.push(odd);
            proof {
                assert(before + Seq::new((c + 1) as nat, |j: int| k) =~= (before + Seq::new(
                    c as nat,
                    |j: int| k,
                )).push(k));
            }
            c = c + 1;
        }
        proof {
            assert(ds@[i as int] == k);
            assert(repeat_by_betti(ds@, betti@, (i + 1) as nat) =~= before + Seq::new(b as nat, |j: int| k));
        }
        i = i + 1;
    }
    FreeGradedAlgebra::new(degrees, parity)
}


/// `Σ_{i < u, i ∈ a} #{j < i : j ∈ b}`: the crossings counted generator by generator of `a`.
pub open spec fn crossings_by_a(a: nat, b: nat, u: nat) -> nat
    decreases u,
{
    if u == 0 {
        0
    } else {
        crossings_by_a(a, b, (u - 1) as nat) + if bit_spec(a, (u - 1) as nat) {
            count_bits(b, 0, (u - 1) as nat)
        } else {
            0
        }
    }
}

/// `Σ_{j < v, j ∈ b} #{i : j < i < hi, i ∈ a}`: the same crossings counted generator by
/// generator of `b`.
pub open spec fn crossings_by_b(a: nat, b: nat, hi: nat, v: nat) -> nat
    decreases v,
{
    if v == 0 {
        0
    } else {
        crossings_by_b(a, b, hi, (v - 1) as nat) + if bit_spec(b, (v - 1) as nat) {
            count_bits(a, v, hi)
        } else {
            0
        }
    }
}

proof fn lemma_crossings_inner(parity: Seq<bool>, a: nat, b: nat, n: nat, ri: nat, rj: nat)
    requires
        0 < ri <= n,
        rj <= n,
        parity.len() == n,
        forall|i: int| 0 <= i < n ==> #[trigger] parity[i],
    ensures
        odd_crossings(parity, a, b, n, ri, rj) == odd_crossings(parity, a, b, n, (ri - 1) as nat, n) + if bit_spec(
            a,
            (ri - 1) as nat,
        ) {
            count_bits(b, 0, if rj < ri - 1 { rj } else { (ri - 1) as nat })
        } else {
            0
        },
    decreases rj,
{
    if rj > 0 {
        lemma_crossings_inner(parity, a, b, n, ri, (rj - 1) as nat);
    }
}

proof fn lemma_crossings_by_a(parity: Seq<bool>, a: nat, b: nat, n: nat, u: nat)
    requires
        u <= n,
        parity.len() == n,
        forall|i: int| 0 <= i < n ==> #[trigger] parity[i],
    ensures
        odd_crossings(parity, a, b, n, u, n) == crossings_by_a(a, b, u),
    decreases u,
{
    if u > 0 {
        lemma_crossings_by_a(parity, a, b, n, (u - 1) as nat);
        lemma_crossings_inner(parity, a, b, n, u, n);
    }
}

/// `Σ_{j < v, j ∈ b} a_u = a_u · #{j < v : j ∈ b}`.
proof fn lemma_crossings_by_b_step(a: nat, b: nat, u: nat, v: nat)
    requires
        v <= u,
    ensures
        crossings_by_b(a, b, u + 1, v) == crossings_by_b(a, b, u, v) + if bit_spec(a, u) {
            count_bits(b, 0, v)
        } else {
            0
        },
    decreases v,
{
    if v > 0 {
        lemma_crossings_by_b_step(a, b, u, (v - 1) as nat);
    }
}

/// Counting the crossings by `a` or by `b` gives the same number.
proof fn lemma_crossings_agree(a: nat, b: nat, u: nat)
    ensures
        crossings_by_a(a, b, u) == crossings_by_b(a, b, u, u),
    decreases u,
{
    if u > 0 {
        let w = (u - 1) as nat;
        lemma_crossings_agree(a, b, w);
        lemma_crossings_by_b_step(a, b, w, w);
        assert(count_bits(a, u, u) == 0);
    }
}

proof fn lemma_crossings_by_b_wide(a: nat, b: nat, n: nat, v: nat)
    requires
        v <= n,
        n <= 64,
        a < vstd::arithmetic::power2::pow2(n),
    ensures
        crossings_by_b(a, b, 64, v) == crossings_by_b(a, b, n, v),
    decreases v,
{
    if v > 0 {
        lemma_crossings_by_b_wide(a, b, n, (v - 1) as nat);
        lemma_count_bits_split(a, v, n, 64);
    }
}

proof fn lemma_count_bits_split(a: nat, lo: nat, mid: nat, hi: nat)
    requires
        lo <= mid <= hi,
        a < vstd::arithmetic::power2::pow2(mid),
    ensures
        count_bits(a, lo, hi) == count_bits(a, lo, mid),
    decreases hi,
{
    if hi > mid {
        lemma_count_bits_split(a, lo, mid, (hi - 1) as nat);
        lemma_bit_above(a, mid, (hi - 1) as nat);
    }
}

proof fn lemma_wedge_inversions_is_crossings(a: nat, b: nat, u: nat)
    requires
        u <= 64,
    ensures
        wedge_inversions(a, b, u) == crossings_by_b(a, b, 64, u),
    decreases u,
{
    if u > 0 {
        lemma_wedge_inversions_is_crossings(a, b, (u - 1) as nat);
    }
}

proof fn lemma_crossings_by_b_no_high_bits(a: nat, b: nat, hi: nat, n: nat, v: nat)
    requires
        n <= v,
        b < vstd::arithmetic::power2::pow2(n),
    ensures
        crossings_by_b(a, b, hi, v) == crossings_by_b(a, b, hi, n),
    decreases v,
{
    if v > n {
        lemma_crossings_by_b_no_high_bits(a, b, hi, n, (v - 1) as nat);
        lemma_bit_above(b, n, (v - 1) as nat);
    }
}

/// On an exterior algebra (every generator odd) the Koszul sign of a product of monomials is the
/// wedge sign of the two subsets of generators: the free model and the forms sign alike.
pub proof fn lemma_exterior_koszul_is_wedge_sign(parity: Seq<bool>, a: u64, b: u64)
    requires
        parity.len() <= 64,
        forall|i: int| 0 <= i < parity.len() ==> #[trigger] parity[i],
        a < vstd::arithmetic::power2::pow2(parity.len()),
        b < vstd::arithmetic::power2::pow2(parity.len()),
    ensures
        odd_crossings(parity, a as nat, b as nat, parity.len(), parity.len(), parity.len())
            == wedge_inversions(a as nat, b as nat, 64),
{
    let n = parity.len();
    lemma_crossings_by_a(parity, a as nat, b as nat, n, n);
    lemma_crossings_agree(a as nat, b as nat, n);
    lemma_crossings_by_b_wide(a as nat, b as nat, n, n);
    lemma_wedge_inversions_is_crossings(a as nat, b as nat, 64);
    lemma_crossings_by_b_no_high_bits(a as nat, b as nat, 64, n, 64);
}

/// Graded commutativity of the free exterior algebra: for monomials `a`, `b` with no common
/// generator, `a · b = (-1)^{|a||b|} b · a`, so the two Koszul signs multiply to the sign of
/// the product of their degrees.
pub proof fn lemma_exterior_koszul_anticommutes(parity: Seq<bool>, a: u64, b: u64)
    requires
        parity.len() <= 64,
        forall|i: int| 0 <= i < parity.len() ==> #[trigger] parity[i],
        a < vstd::arithmetic::power2::pow2(parity.len()),
        b < vstd::arithmetic::power2::pow2(parity.len()),
        a & b == 0,
    ensures
        sign_of_count(odd_crossings(parity, a as nat, b as nat, parity.len(), parity.len(), parity.len()))
            * sign_of_count(odd_crossings(parity, b as nat, a as nat, parity.len(), parity.len(), parity.len()))
            == sign_spec((count_bits(a as nat, 0, 64) * count_bits(b as nat, 0, 64)) as int),
{
    lemma_exterior_koszul_is_wedge_sign(parity, a, b);
    lemma_exterior_koszul_is_wedge_sign(parity, b, a);
    lemma_wedge_sign_anticommutes(a, b);
    let w1 = wedge_inversions(a as nat, b as nat, 64);
    let w2 = wedge_inversions(b as nat, a as nat, 64);
    assert(sign_of_count(w1) == parity_sign(w1));
    assert(sign_of_count(w2) == parity_sign(w2));
}


proof fn lemma_no_odd_crossing(parity: Seq<bool>, n: nat, a: nat, b: nat, ri: nat, rj: nat)
    requires
        ri <= n,
        rj <= n,
        forall|i: nat, j: nat|
            j < i < n && #[trigger] bit_spec(a, i) && #[trigger] bit_spec(b, j) ==> !parity[i as int],
    ensures
        odd_crossings(parity, a, b, n, ri, rj) == 0,
    decreases ri, rj,
{
    if ri == 0 {
    } else if rj == 0 {
        lemma_no_odd_crossing(parity, n, a, b, (ri - 1) as nat, n);
    } else {
        lemma_no_odd_crossing(parity, n, a, b, ri, (rj - 1) as nat);
        let i = (ri - 1) as nat;
        let j = (rj - 1) as nat;
        if bit_spec(a, i) && bit_spec(b, j) && j < i {
            assert(!parity[i as int]);
        }
    }
}

/// Only odd generators carry a sign when they move: if every generator of `a` that lies above
/// a generator of `b` is even, the product of the monomials `a` and `b` has Koszul sign `+1`.
pub proof fn lemma_koszul_even_moves_unsigned(parity: Seq<bool>, n: nat, a: nat, b: nat)
    requires
        forall|i: nat, j: nat|
            j < i < n && #[trigger] bit_spec(a, i) && #[trigger] bit_spec(b, j) ==> !parity[i as int],
    ensures
        odd_crossings(parity, a, b, n, n, n) == 0,
        sign_of_count(odd_crossings(parity, a, b, n, n, n)) == 1,
{
    lemma_no_odd_crossing(parity, n, a, b, n, n);
}

/// In a polynomial algebra (every generator even) every product of monomials has Koszul sign
/// `+1`: the algebra is commutative without signs.
pub proof fn lemma_polynomial_koszul_unsigned(parity: Seq<bool>, a: nat, b: nat)
    requires
        forall|i: int| 0 <= i < parity.len() ==> !#[trigger] parity[i],
    ensures
        sign_of_count(odd_crossings(parity, a, b, parity.len(), parity.len(), parity.len())) == 1,
{
    let n = parity.len();
    assert forall|i: nat, j: nat|
        j < i < n && #[trigger] bit_spec(a, i) && #[trigger] bit_spec(b, j) implies !parity[i as int] by {
        assert(!parity[i as int]);
    }
    lemma_koszul_even_moves_unsigned(parity, n, a, b);
}

/// The monomials of degree `k` below `upto`.
pub open spec fn degree_set(degs: Seq<i32>, k: int, upto: nat) -> Set<u64> {
    Set::new(|m: u64| (m as nat) < upto && subset_degree(degs, m as nat) == k)
}

proof fn lemma_monomial_count_set(degs: Seq<i32>, k: int, upto: nat)
    requires
        upto <= u64::MAX + 1,
    ensures
        degree_set(degs, k, upto).finite(),
        degree_set(degs, k, upto).len() == monomial_count(degs, k, upto),
    decreases upto,
{
    if upto == 0 {
        assert(degree_set(degs, k, 0) =~= Set::empty());
    } else {
        let u = (upto - 1) as nat;
        lemma_monomial_count_set(degs, k, u);
        let m0 = u as u64;
        assert(m0 as nat == u);
        if subset_degree(degs, u) == k {
            assert(degree_set(degs, k, upto) =~= degree_set(degs, k, u).insert(m0));
            assert(!degree_set(degs, k, u).contains(m0));
        } else {
            assert(degree_set(degs, k, upto) =~= degree_set(degs, k, u));
        }
    }
}

proof fn lemma_masks_of_degree_prefix(basis: Seq<(i32, u64)>, degs: Seq<i32>, k: i32, u: nat)
    requires
        u <= basis.len(),
        forall|i: int, j: int| 0 <= i < j < basis.len() ==> degree_mask_lt(basis[i], basis[j]),
        forall|i: int|
            0 <= i < basis.len() ==> (#[trigger] basis[i]).0 == subset_degree(degs, basis[i].1 as nat),
    ensures
        masks_of_degree(basis, k, u).no_duplicates(),
        forall|m: u64|
            masks_of_degree(basis, k, u).contains(m) <==> exists|i: int|
                0 <= i < u && (#[trigger] basis[i]).0 == k && basis[i].1 == m,
    decreases u,
{
    if u > 0 {
        let w = (u - 1) as nat;
        lemma_masks_of_degree_prefix(basis, degs, k, w);
        let prev = masks_of_degree(basis, k, w);
        let cur = masks_of_degree(basis, k, u);
        let x = basis[w as int];
        if x.0 == k {
            assert(cur == prev.push(x.1));
            assert(!prev.contains(x.1)) by {
                if prev.contains(x.1) {
                    let i = choose|i: int| 0 <= i < w && (#[trigger] basis[i]).0 == k && basis[i].1 == x.1;
                    assert(basis[i] == x);
                    assert(degree_mask_lt(basis[i], basis[w as int]));
                }
            }
            assert forall|a: int, b: int| 0 <= a < b < cur.len() implies cur[a] != cur[b] by {
                if b == cur.len() - 1 {
                    assert(prev.contains(cur[a]));
                }
            }
            assert forall|m: u64| cur.contains(m) <==> exists|i: int|
                0 <= i < u && (#[trigger] basis[i]).0 == k && basis[i].1 == m by {
                if m == x.1 {
                    assert(cur[cur.len() - 1] == m);
                    assert(basis[w as int].0 == k && basis[w as int].1 == m);
                }
                if cur.contains(m) && m != x.1 {
                    let j = choose|j: int| 0 <= j < cur.len() && cur[j] == m;
                    assert(prev[j] == m);
                }
                if exists|i: int| 0 <= i < u && (#[trigger] basis[i]).0 == k && basis[i].1 == m {
                    let i = choose|i: int| 0 <= i < u && (#[trigger] basis[i]).0 == k && basis[i].1 == m;
                    if i < w {
                        assert(prev.contains(m));
                        let j = choose|j: int| 0 <= j < prev.len() && prev[j] == m;
                        assert(cur[j] == m);
                    } else {
                        assert(cur[cur.len() - 1] == m);
                    }
                }
            }
        } else {
            assert(cur == prev);
            assert forall|m: u64| cur.contains(m) <==> exists|i: int|
                0 <= i < u && (#[trigger] basis[i]).0 == k && basis[i].1 == m by {
                if exists|i: int| 0 <= i < u && (#[trigger] basis[i]).0 == k && basis[i].1 == m {
                    let i = choose|i: int| 0 <= i < u && (#[trigger] basis[i]).0 == k && basis[i].1 == m;
                    assert(i < w);
                }
            }
        }
    }
}

/// In every degree up to `max_degree`, the monomial basis lists as many monomials as the free
/// algebra's dimension says: the bases and the dimensions that the product tables are built
/// from agree.
pub proof fn lemma_basis_matches_dimensions(
    basis: Seq<(i32, u64)>,
    degs: Seq<i32>,
    max_degree: i32,
    k: i32,
)
    requires
        degs.len() < 64,
        mask_count(degs.len()) <= usize::MAX,
        is_monomial_basis(basis, degs, max_degree, mask_count(degs.len())),
        k <= max_degree,
    ensures
        masks_of_degree(basis, k, basis.len()).len() == dim_spec(
            free_dimensions_spec(degs, max_degree),
            k,
        ),
{
    let n = degs.len();
    let total = mask_count(n);
    vstd::arithmetic::power2::lemma_pow2_strictly_increases(n, 64);
    vstd::arithmetic::power2::lemma2_to64();
    lemma_masks_of_degree_prefix(basis, degs, k, basis.len());
    let sq = masks_of_degree(basis, k, basis.len());
    lemma_monomial_count_set(degs, k as int, total);
    assert forall|m: u64| sq.to_set().contains(m) <==> degree_set(degs, k as int, total).contains(m) by {
        if sq.contains(m) {
            let i = choose|i: int| 0 <= i < basis.len() && (#[trigger] basis[i]).0 == k && basis[i].1 == m;
            assert(basis[i].1 < total);
        }
        if degree_set(degs, k as int, total).contains(m) {
            let i = choose|i: int| 0 <= i < basis.len() && (#[trigger] basis[i]).1 == m;
            assert(basis[i].0 == subset_degree(degs, m as nat));
        }
    }
    assert(sq.to_set() =~= degree_set(degs, k as int, total));
    sq.unique_seq_to_set();
    lemma_monomial_count_le(degs, k as int, total);
    if n == 0 {
        assert(monomial_count(degs, k as int, 1) == monomial_count(degs, k as int, 0) + if subset_degree(
            degs,
            0,
        ) == k {
            1nat
        } else {
            0nat
        });
    }
}


/// Some write of the sequence goes to row `ir` and column `c`.
pub open spec fn has_write(writes: Seq<(usize, usize, i64)>, ir: int, c: int) -> bool {
    exists|j: int| 0 <= j < writes.len() && writes[j].0 == ir && writes[j].1 == c
}

proof fn lemma_cell_untouched(writes: Seq<(usize, usize, i64)>, ir: int, c: int)
    requires
        !has_write(writes, ir, c),
    ensures
        cell_value(writes, ir, c) == 0,
    decreases writes.len(),
{
    if writes.len() > 0 {
        let d = writes.drop_last();
        assert(!has_write(d, ir, c)) by {
            if has_write(d, ir, c) {
                let j = choose|j: int| 0 <= j < d.len() && d[j].0 == ir && d[j].1 == c;
                assert(writes[j] == d[j]);
            }
        }
        assert(!(writes.last().0 == ir && writes.last().1 == c)) by {
            if writes.last().0 == ir && writes.last().1 == c {
                assert(has_write(writes, ir, c));
            }
        }
        lemma_cell_untouched(d, ir, c);
    }
}

proof fn lemma_cell_concat(s1: Seq<(usize, usize, i64)>, s2: Seq<(usize, usize, i64)>, ir: int, c: int)
    requires
        !has_write(s2, ir, c),
    ensures
        cell_value(s1 + s2, ir, c) == cell_value(s1, ir, c),
    decreases s2.len(),
{
    if s2.len() > 0 {
        let d = s2.drop_last();
        assert((s1 + s2).drop_last() =~= s1 + d);
        assert((s1 + s2).last() == s2.last());
        assert(!has_write(d, ir, c)) by {
            if has_write(d, ir, c) {
                let j = choose|j: int| 0 <= j < d.len() && d[j].0 == ir && d[j].1 == c;
                assert(s2[j] == d[j]);
            }
        }
        assert(!(s2.last().0 == ir && s2.last().1 == c)) by {
            if s2.last().0 == ir && s2.last().1 == c {
                assert(has_write(s2, ir, c));
            }
        }
        lemma_cell_concat(s1, d, ir, c);
    } else {
        assert(s1 + s2 =~= s1);
    }
}

/// The writes of row `ip` up to `upto` lie in the columns `ip · dq ≤ c < ip · dq + upto`.
proof fn lemma_row_writes_columns(
    degs: Seq<i32>,
    parity: Seq<bool>,
    mp: Seq<u64>,
    mq: Seq<u64>,
    mr: Seq<u64>,
    deg_r: i32,
    dp: nat,
    dq: nat,
    dr: nat,
    ip: int,
    upto: nat,
)
    requires
        0 <= ip,
        dp * dq <= usize::MAX,
    ensures
        forall|j: int|
            0 <= j < row_writes(degs, parity, mp, mq, mr, deg_r, dp, dq, dr, ip, upto).len() ==> ip * dq
                <= (#[trigger] row_writes(degs, parity, mp, mq, mr, deg_r, dp, dq, dr, ip, upto)[j]).1 < ip
                * dq + upto,
    decreases upto,
{
    if upto > 0 {
        let u = (upto - 1) as nat;
        lemma_row_writes_columns(degs, parity, mp, mq, mr, deg_r, dp, dq, dr, ip, u);
        assert(0 <= ip * dq) by (nonlinear_arith)
            requires
                0 <= ip,
        ;
        let prev = row_writes(degs, parity, mp, mq, mr, deg_r, dp, dq, dr, ip, u);
        let cur = row_writes(degs, parity, mp, mq, mr, deg_r, dp, dq, dr, ip, upto);
        match free_product_write(degs, parity, mp, mq, mr, deg_r, dp, dq, dr, ip, u as int) {
            Some(x) => {
                assert(x.1 == ip * dq + u);
                assert(cur == prev.push(x));
                assert forall|j: int| 0 <= j < cur.len() implies ip * dq <= (#[trigger] cur[j]).1 < ip * dq
                    + upto by {
                    if j < prev.len() {
                        assert(cur[j] == prev[j]);
                    }
                }
            },
            None => {
                assert(cur == prev);
            },
        }
    }
}

/// The writes of the rows below `t` lie in the columns `c < t · dq`.
proof fn lemma_all_writes_columns(
    degs: Seq<i32>,
    parity: Seq<bool>,
    mp: Seq<u64>,
    mq: Seq<u64>,
    mr: Seq<u64>,
    deg_r: i32,
    dp: nat,
    dq: nat,
    dr: nat,
    t: nat,
)
    requires
        dq == mq.len(),
        dp * dq <= usize::MAX,
    ensures
        forall|j: int|
            0 <= j < all_writes(degs, parity, mp, mq, mr, deg_r, dp, dq, dr, t).len() ==> (
            #[trigger] all_writes(degs, parity, mp, mq, mr, deg_r, dp, dq, dr, t)[j]).1 < t * dq,
    decreases t,
{
    if t > 0 {
        let w = (t - 1) as nat;
        lemma_all_writes_columns(degs, parity, mp, mq, mr, deg_r, dp, dq, dr, w);
        lemma_row_writes_columns(degs, parity, mp, mq, mr, deg_r, dp, dq, dr, w as int, mq.len());
        assert(w * dq + dq == t * dq) by (nonlinear_arith)
            requires
                w + 1 == t,
        ;
        assert(w * dq <= t * dq) by (nonlinear_arith)
            requires
                w + 1 == t,
        ;
        let a = all_writes(degs, parity, mp, mq, mr, deg_r, dp, dq, dr, w);
        let r = row_writes(degs, parity, mp, mq, mr, deg_r, dp, dq, dr, w as int, mq.len());
        assert forall|j: int| 0 <= j < (a + r).len() implies #[trigger] (a + r)[j].1 < t * dq by {
            if j < a.len() {
                assert((a + r)[j] == a[j]);
            } else {
                assert((a + r)[j] == r[j - a.len()]);
            }
        }
    }
}

/// The entry that pair `(ip, iq)` leaves in row `ir`: its sign if it writes there, else 0.
pub open spec fn pair_entry(w: Option<(usize, usize, i64)>, ir: int) -> i64 {
    match w {
        Some(x) => if x.0 == ir {
            x.2
        } else {
            0
        },
        None => 0,
    }
}

proof fn lemma_row_cell(
    degs: Seq<i32>,
    parity: Seq<bool>,
    mp: Seq<u64>,
    mq: Seq<u64>,
    mr: Seq<u64>,
    deg_r: i32,
    dp: nat,
    dq: nat,
    dr: nat,
    ir: int,
    ip: int,
    iq: int,
    upto: nat,
)
    requires
        0 <= ip < dp,
        0 <= iq < dq,
        upto <= dq,
        dp * dq <= usize::MAX,
    ensures
        cell_value(row_writes(degs, parity, mp, mq, mr, deg_r, dp, dq, dr, ip, upto), ir, ip * dq + iq)
            == if iq < upto {
            pair_entry(free_product_write(degs, parity, mp, mq, mr, deg_r, dp, dq, dr, ip, iq), ir)
        } else {
            0
        },
    decreases upto,
{
    let c = ip * dq + iq;
    if upto == 0 {
    } else {
        let u = (upto - 1) as nat;
        lemma_row_cell(degs, parity, mp, mq, mr, deg_r, dp, dq, dr, ir, ip, iq, u);
        let prev = row_writes(degs, parity, mp, mq, mr, deg_r, dp, dq, dr, ip, u);
        let w = free_product_write(degs, parity, mp, mq, mr, deg_r, dp, dq, dr, ip, u as int);
        lemma_row_block(ip, dp as int, dq as int);
        match w {
            Some(x) => {
                assert(x.1 == ip * dq + u);
                assert(row_writes(degs, parity, mp, mq, mr, deg_r, dp, dq, dr, ip, upto) == prev.push(x));
                assert(prev.push(x).drop_last() =~= prev);
            },
            None => {},
        }
    }
}

/// With the sizes of the monomial lists, every product of two basis monomials lands in an
/// entry of its own: the entry in row `ir` and column `ip · dq + iq` is what that pair writes
/// there (the Koszul sign when the product is a basis monomial of the target degree with its
/// first place at `ir` and no odd generator repeats), and nothing else writes it.
pub proof fn lemma_free_product_entries(
    degs: Seq<i32>,
    parity: Seq<bool>,
    mp: Seq<u64>,
    mq: Seq<u64>,
    mr: Seq<u64>,
    deg_r: i32,
    ir: int,
    ip: int,
    iq: int,
)
    requires
        0 <= ip < mp.len(),
        0 <= iq < mq.len(),
        mp.len() * mq.len() <= usize::MAX,
    ensures
        cell_value(
            all_writes(degs, parity, mp, mq, mr, deg_r, mp.len(), mq.len(), mr.len(), mp.len()),
            ir,
            ip * mq.len() + iq,
        ) == pair_entry(
            free_product_write(degs, parity, mp, mq, mr, deg_r, mp.len(), mq.len(), mr.len(), ip, iq),
            ir,
        ),
{
    let dp = mp.len();
    let dq = mq.len();
    let dr = mr.len();
    let c = ip * dq + iq;
    lemma_row_block(ip, dp as int, dq as int);
    lemma_row_cell(degs, parity, mp, mq, mr, deg_r, dp, dq, dr, ir, ip, iq, dq);
    let row = row_writes(degs, parity, mp, mq, mr, deg_r, dp, dq, dr, ip, dq);
    let below = all_writes(degs, parity, mp, mq, mr, deg_r, dp, dq, dr, ip as nat);
    lemma_all_writes_columns(degs, parity, mp, mq, mr, deg_r, dp, dq, dr, ip as nat);
    assert(!has_write(below, ir, c));
    lemma_cell_untouched(below, ir, c);
    lemma_cell_split(below, row, ir, c);
    lemma_rows_above(degs, parity, mp, mq, mr, deg_r, dp, dq, dr, ir, ip, iq, dp);
}

/// A cell of `s1 + s2` when `s1` does not touch it.
proof fn lemma_cell_split(s1: Seq<(usize, usize, i64)>, s2: Seq<(usize, usize, i64)>, ir: int, c: int)
    requires
        !has_write(s1, ir, c),
    ensures
        cell_value(s1 + s2, ir, c) == cell_value(s2, ir, c),
    decreases s2.len(),
{
    if s2.len() == 0 {
        assert(s1 + s2 =~= s1);
        lemma_cell_untouched(s1, ir, c);
    } else {
        let d = s2.drop_last();
        assert((s1 + s2).drop_last() =~= s1 + d);
        assert((s1 + s2).last() == s2.last());
        lemma_cell_split(s1, d, ir, c);
    }
}

/// Rows after `ip` leave the columns of row `ip` alone.
proof fn lemma_rows_above(
    degs: Seq<i32>,
    parity: Seq<bool>,
    mp: Seq<u64>,
    mq: Seq<u64>,
    mr: Seq<u64>,
    deg_r: i32,
    dp: nat,
    dq: nat,
    dr: nat,
    ir: int,
    ip: int,
    iq: int,
    t: nat,
)
    requires
        0 <= ip < t <= dp,
        0 <= iq < dq,
        dq == mq.len(),
        dp * dq <= usize::MAX,
    ensures
        cell_value(all_writes(degs, parity, mp, mq, mr, deg_r, dp, dq, dr, t), ir, ip * dq + iq)
            == cell_value(
            all_writes(degs, parity, mp, mq, mr, deg_r, dp, dq, dr, ip as nat)
                + row_writes(degs, parity, mp, mq, mr, deg_r, dp, dq, dr, ip, dq),
            ir,
            ip * dq + iq,
        ),
    decreases t,
{
    if t > ip + 1 {
        let w = (t - 1) as nat;
        lemma_rows_above(degs, parity, mp, mq, mr, deg_r, dp, dq, dr, ir, ip, iq, w);
        let r = row_writes(degs, parity, mp, mq, mr, deg_r, dp, dq, dr, w as int, dq);
        lemma_row_writes_columns(degs, parity, mp, mq, mr, deg_r, dp, dq, dr, w as int, dq);
        assert(ip * dq + dq <= w * dq) by (nonlinear_arith)
            requires
                ip + 1 <= w,
        ;
        assert(!has_write(r, ir, ip * dq + iq)) by {
            if has_write(r, ir, ip * dq + iq) {
                let j = choose|j: int| 0 <= j < r.len() && r[j].0 == ir && r[j].1 == ip * dq + iq;
                assert(w * dq <= r[j].1);
            }
        }
        lemma_cell_concat(all_writes(degs, parity, mp, mq, mr, deg_r, dp, dq, dr, w), r, ir, ip * dq + iq);
    }
}

} // verus!
