//! Shapes: how many elements a list of extents spans.

use vstd::prelude::*;

verus! {

/// The product of all extents.
pub open spec fn product(dims: Seq<u64>) -> nat
    decreases dims.len(),
{
    if dims.len() == 0 {
        1
    } else {
        product(dims.drop_last()) * dims.last() as nat
    }
}

/// A zero extent makes the product zero.
pub proof fn lemma_product_zero(dims: Seq<u64>, i: int)
    requires
        0 <= i < dims.len(),
        dims[i] == 0,
    ensures
        product(dims) == 0,
    decreases dims.len(),
{
    if i == dims.len() - 1 {
        assert(product(dims.drop_last()) * 0 == 0) by (nonlinear_arith);
    } else {
        lemma_product_zero(dims.drop_last(), i);
        assert(0 * dims.last() as nat == 0) by (nonlinear_arith);
    }
}

/// Without zero extents, the product of a prefix is at most the whole product.
pub proof fn lemma_product_prefix(dims: Seq<u64>, n: int)
    requires
        0 <= n <= dims.len(),
        forall|i: int| 0 <= i < dims.len() ==> dims[i] > 0,
    ensures
        0 < product(dims.take(n)) <= product(dims),
    decreases dims.len() - n, dims.len(),
{
    if n == dims.len() {
        assert(dims.take(n) =~= dims);
        if n > 0 {
            lemma_product_prefix(dims.drop_last(), n - 1);
            assert(dims.drop_last().take(n - 1) =~= dims.drop_last());
            let a = product(dims.drop_last());
            let b = dims.last() as nat;
            assert(a * b > 0) by (nonlinear_arith)
                requires
                    a > 0,
                    b > 0,
            ;
        }
    } else {
        lemma_product_prefix(dims.drop_last(), n);
        assert(dims.drop_last().take(n) =~= dims.take(n));
        let a = product(dims.drop_last());
        let b = dims.last() as nat;
        assert(a <= a * b) by (nonlinear_arith)
            requires
                b > 0,
        ;
    }
}

/// The product of all extents, when it fits in 64 bits.
pub fn checked_product(dims: &[u64]) -> (r: Option<u64>)
    ensures
        r == if product(dims@) <= u64::MAX {
            Some(product(dims@) as u64)
        } else {
            None
        },
{
    let mut i: usize = 0;
    while i < dims.len()
        invariant
            i <= dims@.len(),
            forall|j: int| 0 <= j < i ==> dims@[j] > 0,
        decreases dims@.len() - i,
    {
        if dims[i] == 0 {
            proof {
                lemma_product_zero(dims@, i as int);
            }
            return Some(0);
        }
        i = i + 1;
    }
    let mut n: u64 = 1;
    let mut i: usize = 0;
    while i < dims.len()
        invariant
            i <= dims@.len(),
            forall|j: int| 0 <= j < dims@.len() ==> dims@[j] > 0,
            n == product(dims@.take(i as int)),
        decreases dims@.len() - i,
    {
        proof {
            lemma_product_prefix(dims@, i + 1);
            assert(dims@.take(i + 1).drop_last() =~= dims@.take(i as int));
        }
        match n.checked_mul(dims[i]) {
            Some(m) => {
                n = m;
            },
            None => {
                return None;
            },
        }
        i = i + 1;
    }
    assert(dims@.take(i as int) =~= dims@);
    Some(n)
}

/// Smaller extents multiply to less.
pub proof fn lemma_product_monotonic(small: Seq<u64>, large: Seq<u64>)
    requires
        small.len() == large.len(),
        forall|i: int| 0 <= i < small.len() ==> #[trigger] small[i] <= large[i],
    ensures
        product(small) <= product(large),
    decreases small.len(),
{
    if small.len() > 0 {
        let n = small.len() - 1;
        assert(small[n] <= large[n]);
        assert forall|i: int| 0 <= i < n implies #[trigger] small.drop_last()[i]
            <= large.drop_last()[i] by {
            assert(small[i] <= large[i]);
        }
        lemma_product_monotonic(small.drop_last(), large.drop_last());
        let (a, b) = (product(small.drop_last()), product(large.drop_last()));
        let (x, y) = (small.last() as nat, large.last() as nat);
        assert(a * x <= b * y) by (nonlinear_arith)
            requires
                a <= b,
                x <= y,
        ;
    }
}

} // verus!
