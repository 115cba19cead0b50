//! Cartesian products of two sequences.

use vstd::prelude::*;

verus! {

/// Every element of `b`, in order, paired with `x` in front.
pub open spec fn paired<T>(x: T, b: Seq<T>) -> Seq<(T, T)> {
    Seq::new(b.len(), |j: int| (x, b[j]))
}

/// The pairs of an element of `a` and an element of `b`: first all pairs
/// of the first element of `a`, in the order of `b`, then all pairs of the
/// second, and so on.
pub open spec fn product<T>(a: Seq<T>, b: Seq<T>) -> Seq<(T, T)>
    decreases a.len(),
{
    if a.len() == 0 {
        Seq::empty()
    } else {
        product(a.drop_last(), b) + paired(a.last(), b)
    }
}

/// The product has a pair for every two positions, and holds at the place
/// of the positions `i` and `j` the pair of `a[i]` and `b[j]`.
pub proof fn lemma_product_index<T>(a: Seq<T>, b: Seq<T>, i: int, j: int)
    requires
        0 <= i < a.len(),
        0 <= j < b.len(),
    ensures
        product(a, b).len() == a.len() * b.len(),
        0 <= i * b.len() + j < product(a, b).len(),
        product(a, b)[i * b.len() + j] == (a[i], b[j]),
    decreases a.len(),
{
    lemma_product_len(a, b);
    let n = b.len() as int;
    let m = a.len() as int;
    assert(0 <= i * n && i * n + j < m * n) by (nonlinear_arith)
        requires
            0 <= i < m,
            0 <= j < n,
    ;
    if i == a.len() - 1 {
        lemma_product_len(a.drop_last(), b);
        assert((m - 1) * n == i * n);
    } else {
        lemma_product_index(a.drop_last(), b, i, j);
    }
}

/// The product has as many pairs as the two lengths multiplied.
pub proof fn lemma_product_len<T>(a: Seq<T>, b: Seq<T>)
    ensures
        product(a, b).len() == a.len() * b.len(),
    decreases a.len(),
{
    if a.len() > 0 {
        lemma_product_len(a.drop_last(), b);
        let n = b.len() as int;
        let m = a.len() as int;
        assert((m - 1) * n + n == m * n) by (nonlinear_arith);
    } else {
        assert(0 * b.len() == 0);
    }
}

/// The product of two vectors, by one pass over the second for each
/// element of the first.
pub fn cartesian_product_flat_map<T: Copy>(iter1: Vec<T>, iter2: Vec<T>) -> (r: Vec<(T, T)>)
    ensures
        r@ == product(iter1@, iter2@),
{
    let mut r: Vec<(T, T)> = Vec::new();
    let mut i: usize = 0;
    while i < iter1.len()
        invariant
            i <= iter1.len(),
            r@ == product(iter1@.take(i as int), iter2@),
        decreases iter1.len() - i,
    {
        let a = iter1[i];
        let ghost before = r@;
        let mut j: usize = 0;
        while j < iter2.len()
            invariant
                j <= iter2.len(),
                a == iter1[i as int],
                r@ == before + paired(a, iter2@.take(j as int)),
            decreases iter2.len() - j,
        {
            r.push((a, iter2[j]));
            proof {
                assert(paired(a, iter2@.take(j + 1)) =~= paired(a, iter2@.take(j as int)).push(
                    (a, iter2@[j as int]),
                ));
            }
            j = j + 1;
        }
        proof {
            assert(iter2@.take(iter2.len() as int) =~= iter2@);
            assert(iter1@.take(i + 1).drop_last() =~= iter1@.take(i as int));
        }
        i = i + 1;
    }
    proof {
        assert(iter1@.take(iter1.len() as int) =~= iter1@);
    }
    r
}

/// The product of two vectors, collected into a vector that has room for
/// all pairs from the start where their number fits.
pub fn cartesian_product_mut_push<T: Copy>(iter1: Vec<T>, iter2: Vec<T>) -> (r: Vec<(T, T)>)
    ensures
        r@ == product(iter1@, iter2@),
{
    let total_size: usize = match iter1.len().checked_mul(iter2.len()) {
        Some(n) => n,
        None => usize::MAX,
    };
    let mut r: Vec<(T, T)> = Vec::with_capacity(total_size);
    let mut i: usize = 0;
    while i < iter1.len()
        invariant
            i <= iter1.len(),
            r@ == product(iter1@.take(i as int), iter2@),
        decreases iter1.len() - i,
    {
        let ghost before = r@;
        let mut j: usize = 0;
        while j < iter2.len()
            invariant
                j <= iter2.len(),
                i < iter1.len(),
                r@ == before + paired(iter1[i as int], iter2@.take(j as int)),
            decreases iter2.len() - j,
        {
            r.push((iter1[i], iter2[j]));
            proof {
                assert(paired(iter1[i as int], iter2@.take(j + 1)) =~= paired(
                    iter1[i as int],
                    iter2@.take(j as int),
                ).push((iter1[i as int], iter2@[j as int])));
            }
            j = j + 1;
        }
        proof {
            assert(iter2@.take(iter2.len() as int) =~= iter2@);
            assert(iter1@.take(i + 1).drop_last() =~= iter1@.take(i as int));
        }
        i = i + 1;
    }
    proof {
        assert(iter1@.take(iter1.len() as int) =~= iter1@);
    }
    r
}

/// The values that pairs of references point at.
pub open spec fn pointees<T>(pairs: Seq<(&T, &T)>) -> Seq<(T, T)> {
    Seq::new(pairs.len(), |k: int| (*pairs[k].0, *pairs[k].1))
}

/// The product of two slices, as pairs of references to their elements.
pub fn cartesian_product_refs<'a, T>(vec1: &'a [T], vec2: &'a [T]) -> (r: Vec<(&'a T, &'a T)>)
    ensures
        pointees(r@) == product(vec1@, vec2@),
{
    let mut r: Vec<(&'a T, &'a T)> = Vec::new();
    let mut i: usize = 0;
    while i < vec1.len()
        invariant
            i <= vec1.len(),
            pointees(r@) == product(vec1@.take(i as int), vec2@),
        decreases vec1.len() - i,
    {
        let ghost before = pointees(r@);
        let mut j: usize = 0;
        while j < vec2.len()
            invariant
                j <= vec2.len(),
                i < vec1.len(),
                pointees(r@) == before + paired(vec1[i as int], vec2@.take(j as int)),
            decreases vec2.len() - j,
        {
            let ghost was = pointees(r@);
            r.push((&vec1[i], &vec2[j]));
            proof {
                assert(pointees(r@) =~= was.push((vec1[i as int], vec2@[j as int])));
                assert(paired(vec1[i as int], vec2@.take(j + 1)) =~= paired(
                    vec1[i as int],
                    vec2@.take(j as int),
                ).push((vec1[i as int], vec2@[j as int])));
            }
            j = j + 1;
        }
        proof {
            assert(vec2@.take(vec2.len() as int) =~= vec2@);
            assert(vec1@.take(i + 1).drop_last() =~= vec1@.take(i as int));
        }
        i = i + 1;
    }
    proof {
        assert(vec1@.take(vec1.len() as int) =~= vec1@);
    }
    r
}

} // verus!
