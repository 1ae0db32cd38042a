//! Exact sizes for scoping a morris solve. The movement phase (both hands
//! empty) splits into slices keyed by the number of white and black men on the
//! board; slice `(nw, nb)` on `n` points holds C(n, nw)·C(n − nw, nb) boards.

use vstd::prelude::*;
use crate::index::{c_spec, lemma_c_spec_bound, Binom};

verus! {

/// The number of boards in slice `(nw, nb)` on `n` points.
pub open spec fn slice_size(n: int, nw: int, nb: int) -> int {
    (c_spec(n, nw) * c_spec(n - nw, nb)) as int
}

/// The slices `(nw, nb, size)` with `nw, nb <= men` and `nw + nb <= n`, among
/// the first `k` pairs taken white count first, then black count.
pub open spec fn slice_list(n: int, men: int, k: int) -> Seq<(usize, usize, u128)>
    decreases k,
{
    if k <= 0 {
        Seq::empty()
    } else {
        let prev = slice_list(n, men, k - 1);
        let nw = (k - 1) / (men + 1);
        let nb = (k - 1) % (men + 1);
        if nw + nb <= n {
            prev.push((nw as usize, nb as usize, slice_size(n, nw, nb) as u128))
        } else {
            prev
        }
    }
}

/// The total size of the slices of `s` with at least `min` men on each side.
pub open spec fn sizes_sum(s: Seq<(usize, usize, u128)>, min: int) -> int
    decreases s.len(),
{
    if s.len() == 0 {
        0
    } else {
        sizes_sum(s.drop_last(), min) + if s.last().0 >= min && s.last().1 >= min {
            s.last().2 as int
        } else {
            0
        }
    }
}

/// Slice `a` comes before slice `b` in white-count-first order.
pub open spec fn pair_less(a: (usize, usize, u128), b: (usize, usize, u128)) -> bool {
    a.0 < b.0 || (a.0 == b.0 && a.1 < b.1)
}

/// Slices are listed largest first, and slices of one size in white-count-first
/// order.
pub open spec fn largest_first(s: Seq<(usize, usize, u128)>) -> bool {
    forall|i: int, j: int|
        0 <= i < j < s.len() ==> #[trigger] s[i].2 > #[trigger] s[j].2 || (s[i].2 == s[j].2 && pair_less(s[i], s[j]))
}

/// The pair after `k` in the flat walk over `(nw, nb)`.
proof fn lemma_next_pair(k: int, d: int)
    requires
        0 <= k,
        0 < d,
    ensures
        (k + 1) / d > k / d || ((k + 1) / d == k / d && (k + 1) % d > k % d),
{
    vstd::arithmetic::div_mod::lemma_fundamental_div_mod(k, d);
    let q = k / d;
    let r = k % d;
    assert(k + 1 == q * d + (r + 1) && k + 1 == (q + 1) * d + (r + 1 - d)) by (nonlinear_arith)
        requires
            k == d * q + r,
    ;
    if r + 1 < d {
        vstd::arithmetic::div_mod::lemma_fundamental_div_mod_converse(k + 1, d, q, r + 1);
    } else {
        vstd::arithmetic::div_mod::lemma_fundamental_div_mod_converse(k + 1, d, q + 1, 0);
    }
}

/// Every movement slice of an `n`-point board with at most `men` men a side,
/// largest first, with the total size of all of them and of those with at
/// least three men on each side (the ones a solve must store).
pub fn movement_slices(b: &Binom, n: usize, men: usize) -> (r: (Vec<(usize, usize, u128)>, u128, u128))
    requires
        n < 33,
        men <= 32,
    ensures
        r.0@.to_multiset() == slice_list(n as int, men as int, (men + 1) * (men + 1)).to_multiset(),
        largest_first(r.0@),
        r.1 == sizes_sum(slice_list(n as int, men as int, (men + 1) * (men + 1)), 0),
        r.2 == sizes_sum(slice_list(n as int, men as int, (men + 1) * (men + 1)), 3),
{
    proof {
        assert((men + 1) * (men + 1) <= 1089) by (nonlinear_arith)
            requires
                men <= 32,
        ;
    }
    let pairs = (men + 1) * (men + 1);
    let ghost full = slice_list(n as int, men as int, pairs as int);
    let mut slices: Vec<(usize, usize, u128)> = Vec::new();
    let mut all: u128 = 0;
    let mut work: u128 = 0;
    let mut k: usize = 0;
    while k < pairs
        invariant
            n < 33,
            men <= 32,
            pairs == (men + 1) * (men + 1),
            pairs <= 1089,
            k <= pairs,
            slices@ == slice_list(n as int, men as int, k as int),
            all == sizes_sum(slices@, 0),
            work == sizes_sum(slices@, 3),
            work <= all,
            all <= k * 18446744073709551616,
            forall|i: int, j: int| 0 <= i < j < slices@.len() ==> pair_less(#[trigger] slices@[i], #[trigger] slices@[j]),
            forall|i: int|
                0 <= i < slices@.len() ==> ((#[trigger] slices@[i]).0 as int) < k as int / (men as int + 1) || (
                slices@[i].0 as int == k as int / (men as int + 1) && (slices@[i].1 as int) < k as int % (men as int
                    + 1)),
        decreases pairs - k,
    {
        let nw = k / (men + 1);
        let nb = k % (men + 1);
        if nw + nb <= n {
            let c1 = b.c(n, nw);
            let c2 = b.c(n - nw, nb);
            proof {
                lemma_c_spec_bound(n as int, nw as int);
                lemma_c_spec_bound((n - nw) as int, nb as int);
                assert(c1 * c2 <= 18446744073709551616) by (nonlinear_arith)
                    requires
                        c1 <= 4294967296,
                        c2 <= 4294967296,
                ;
            }
            let size = c1 as u128 * c2 as u128;
            let ghost before = slices@;
            slices.push((nw, nb, size));
            proof {
                assert(slices@.drop_last() == before);
            }
            all = all + size;
            if nw >= 3 && nb >= 3 {
                work = work + size;
            }
        }
        proof {
            lemma_next_pair(k as int, men as int + 1);
        }
        k += 1;
    }

    // Largest first; slices of equal size keep their order.
    let mut sorted: Vec<(usize, usize, u128)> = Vec::new();
    let mut i: usize = 0;
    proof {
        assert(sorted@ =~= slices@.subrange(0, 0));
        assert(sorted@.len() == 0);
    }
    while i < slices.len()
        invariant
            i <= slices@.len(),
            largest_first(sorted@),
            sorted@.to_multiset() == slices@.subrange(0, i as int).to_multiset(),
            forall|a: int, b: int| 0 <= a < b < slices@.len() ==> pair_less(#[trigger] slices@[a], #[trigger] slices@[b]),
            forall|q: int| 0 <= q < sorted@.len() ==> exists|j: int| 0 <= j < i && #[trigger] sorted@[q] == slices@[j],
        decreases slices@.len() - i,
    {
        let x = slices[i];
        let mut p: usize = 0;
        while p < sorted.len() && sorted[p].2 >= x.2
            invariant
                p <= sorted@.len(),
                forall|q: int| 0 <= q < p ==> sorted@[q].2 >= x.2,
            decreases sorted@.len() - p,
        {
            p += 1;
        }
        let ghost before = sorted@;
        sorted.insert(p, x);
        proof {
            assert(sorted@ == before.insert(p as int, x));
            vstd::seq_lib::to_multiset_insert(before, p as int, x);
            assert(slices@.subrange(0, i as int + 1) =~= slices@.subrange(0, i as int).push(x));
            vstd::seq_lib::to_multiset_build(slices@.subrange(0, i as int), x);
            assert forall|q: int| 0 <= q < before.len() implies pair_less(#[trigger] before[q], x) by {
                let j = choose|j: int| 0 <= j < i && before[q] == slices@[j];
                assert(pair_less(slices@[j], slices@[i as int]));
            }
            assert forall|a: int, c: int| 0 <= a < c < sorted@.len() implies #[trigger] sorted@[a].2 > #[trigger] sorted@[c].2
                || (sorted@[a].2 == sorted@[c].2 && pair_less(sorted@[a], sorted@[c])) by {
                if c < p {
                    assert(sorted@[a] == before[a] && sorted@[c] == before[c]);
                } else if c == p {
                    assert(sorted@[a] == before[a]);
                    assert(pair_less(before[a], x));
                } else if a < p {
                    assert(sorted@[a] == before[a] && sorted@[c] == before[c - 1]);
                } else if a == p {
                    assert(sorted@[c] == before[c - 1]);
                    assert(before[p as int].2 < x.2);
                } else {
                    assert(sorted@[a] == before[a - 1] && sorted@[c] == before[c - 1]);
                }
            }
            assert forall|q: int| 0 <= q < sorted@.len() implies exists|j: int| 0 <= j < i + 1 && #[trigger] sorted@[q]
                == slices@[j] by {
                if q < p {
                    assert(sorted@[q] == before[q]);
                } else if q == p {
                    assert(sorted@[q] == slices@[i as int]);
                } else {
                    assert(sorted@[q] == before[q - 1]);
                }
            }
        }
        i += 1;
    }
    proof {
        assert(slices@.subrange(0, i as int) =~= slices@);
    }
    (sorted, all, work)
}

} // verus!
