//! Degrees of Massey products.

use vstd::prelude::*;

verus! {

/// `|α₁| + ... + |αᵢ|` over the first `i` degrees.
pub open spec fn degree_prefix_sum(degrees: Seq<i32>, i: nat) -> int
    decreases i,
{
    if i == 0 {
        0
    } else {
        degree_prefix_sum(degrees, (i - 1) as nat) + degrees[i - 1]
    }
}

/// The degree of an n-ary Massey product ⟨α₁, ..., αₙ⟩: |α₁| + ... + |αₙ| - (n-1).
pub open spec fn massey_degree_spec(degrees: Seq<i32>) -> int {
    degree_prefix_sum(degrees, degrees.len()) - (degrees.len() - 1)
}

/// The degree computation stays within `i32`: every partial sum, the count `n`, and the result.
pub open spec fn massey_degree_fits(degrees: Seq<i32>) -> bool {
    &&& forall|i: nat| i <= degrees.len() ==> i32::MIN <= #[trigger] degree_prefix_sum(degrees, i) <= i32::MAX
    &&& degrees.len() <= i32::MAX
    &&& i32::MIN <= massey_degree_spec(degrees) <= i32::MAX
}

/// The degree of an n-ary Massey product of classes of the given degrees:
/// |α₁| + ... + |αₙ| - (n-1).
pub fn massey_result_degree(degrees: &Vec<i32>) -> (r: i32)
    requires
        massey_degree_fits(degrees@),
    ensures
        r == massey_degree_spec(degrees@),
{
    let n = degrees.len();
    let mut sum: i32 = 0;
    let mut i: usize = 0;
    while i < n
        invariant
            n == degrees@.len(),
            0 <= i <= n,
            massey_degree_fits(degrees@),
            sum == degree_prefix_sum(degrees@, i as nat),
        decreases n - i,
    {
        assert(i32::MIN <= degree_prefix_sum(degrees@, (i + 1) as nat) <= i32::MAX);
        sum = sum + degrees[i];
        i = i + 1;
    }
    let count: i32 = n as i32;
    sum - (count - 1)
}

} // verus!
