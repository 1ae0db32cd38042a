//! How large the dense morris index of a board is: the positions its buckets
//! hold and how many buckets it has, summed in code order, and when both fit
//! the machine words the index keeps them in.

use vstd::prelude::*;
use crate::index::{binom, c_spec, lemma_binom_zero, MAX_N};
use crate::games::generic_morris::{admissible, bucket_size, code_digits, lemma_digits_range};

verus! {

/// 3^k.
pub open spec fn three_to(k: nat) -> nat
    decreases k,
{
    if k == 0 {
        1
    } else {
        3 * three_to((k - 1) as nat)
    }
}

/// The number of bucket codes of a game with `men` men a side: two turns and
/// four counts up to `men`.
pub open spec fn code_count(men: int) -> int {
    2 * (men + 1) * (men + 1) * (men + 1) * (men + 1)
}

/// The positions in the bucket of code `c`, or 0 where no position has its counts.
pub open spec fn code_size(n: int, men: int, c: int) -> int {
    let d = code_digits(c, men + 1);
    if admissible(n, men, d) {
        bucket_size(n, d.2, d.4)
    } else {
        0
    }
}

/// The positions in the buckets of the codes below `c`.
pub open spec fn span_below(n: int, men: int, c: nat) -> int
    decreases c,
{
    if c == 0 {
        0
    } else {
        span_below(n, men, (c - 1) as nat) + code_size(n, men, c - 1)
    }
}

/// The codes below `c` that have a bucket (one that holds some position).
pub open spec fn buckets_below(n: int, men: int, c: nat) -> int
    decreases c,
{
    if c == 0 {
        0
    } else {
        buckets_below(n, men, (c - 1) as nat) + if code_size(n, men, c - 1) > 0 {
            1int
        } else {
            0int
        }
    }
}

/// The dense index of an `n`-point board with `men` men a side fits the
/// machine: its code table fits memory, its offsets `u64` and its bucket ids
/// (one value kept for "no bucket") `u32`.
pub open spec fn index_fits(n: int, men: int) -> bool {
    &&& code_count(men) <= usize::MAX
    &&& span_below(n, men, code_count(men) as nat) <= u64::MAX
    &&& buckets_below(n, men, code_count(men) as nat) < u32::MAX
}

/// Sums over more codes are no smaller.
pub proof fn lemma_below_mono(n: int, men: int, a: nat, b: nat)
    requires
        a <= b,
    ensures
        0 <= span_below(n, men, a) <= span_below(n, men, b),
        0 <= buckets_below(n, men, a) <= buckets_below(n, men, b),
    decreases b,
{
    if a < b {
        lemma_below_mono(n, men, a, (b - 1) as nat);
        assert(code_size(n, men, b - 1) >= 0);
    } else if b > 0 {
        lemma_below_mono(n, men, 0, (b - 1) as nat);
        assert(code_size(n, men, b - 1) >= 0);
    }
}

/// Placing `a` men of one colour and then `b` of the other on `n` points can be
/// done in at most `3^n` ways.
pub proof fn lemma_placements_bound(n: nat, a: nat, b: nat)
    requires
        a <= n,
    ensures
        binom(n, a) * binom((n - a) as nat, b) <= three_to(n),
    decreases n,
{
    if n == 0 {
        assert(a == 0 && binom(0, 0) == 1);
        if b > 0 {
            lemma_binom_zero(0, b);
        }
        assert(binom(n, a) * binom((n - a) as nat, b) <= three_to(n));
    } else {
        let m = (n - 1) as nat;
        let x = binom((n - a) as nat, b);
        // Splitting the other colour's choice on the last free point.
        let x0: nat = if b > 0 && a <= m {
            binom((m - a) as nat, (b - 1) as nat)
        } else {
            0
        };
        let x1: nat = if a <= m {
            binom((m - a) as nat, b)
        } else {
            0
        };
        if a == 0 {
            if b == 0 {
                assert(three_to(n) >= 1) by {
                    lemma_three_to_pos(n);
                }
                assert(binom(n, 0) == 1 && x == 1);
            } else {
                lemma_placements_bound(m, 0, (b - 1) as nat);
                lemma_placements_bound(m, 0, b);
                assert(binom(m, 0) == 1);
                assert(binom(n, 0) == 1);
                assert(x == binom(m, (b - 1) as nat) + binom(m, b));
                let y0 = binom(m, (b - 1) as nat);
                let y1 = binom(m, b);
                assert(binom(m, 0) * binom((m - 0) as nat, (b - 1) as nat) <= three_to(m));
                assert(binom(m, 0) * binom((m - 0) as nat, b) <= three_to(m));
                assert(y0 <= three_to(m) && y1 <= three_to(m)) by (nonlinear_arith)
                    requires
                        binom(m, 0) == 1,
                        binom(m, 0) * y0 <= three_to(m),
                        binom(m, 0) * y1 <= three_to(m),
                ;
                assert(three_to(n) == 3 * three_to(m));
            }
            assert(binom(n, a) == 1);
            assert(binom(n, a) * x == x) by (nonlinear_arith)
                requires
                    binom(n, a) == 1,
            ;
            assert(binom(n, a) * x <= three_to(n));
        } else {
            let p = binom(m, (a - 1) as nat);
            let q = binom(m, a);
            assert(binom(n, a) == p + q);
            lemma_placements_bound(m, (a - 1) as nat, b);
            assert(p * x <= three_to(m));
            if a <= m {
                if b == 0 {
                    lemma_placements_bound(m, a, 0);
                    assert(x == 1 && binom((m - a) as nat, 0) == 1);
                    assert(q * x <= three_to(m));
                } else {
                    lemma_placements_bound(m, a, (b - 1) as nat);
                    lemma_placements_bound(m, a, b);
                    assert(x == x0 + x1);
                    assert(q * x == q * x0 + q * x1) by (nonlinear_arith)
                        requires
                            x == x0 + x1,
                    ;
                }
                assert(q * x <= 2 * three_to(m));
            } else {
                lemma_binom_zero(m, a);
                assert(q * x == 0);
            }
            assert(binom(n, a) * x == p * x + q * x) by (nonlinear_arith)
                requires
                    binom(n, a) == p + q,
            ;
            assert(three_to(n) == 3 * three_to(m));
            assert(binom(n, a) * x <= three_to(n));
        }
    }
}

pub proof fn lemma_three_to_pos(k: nat)
    ensures
        three_to(k) >= 1,
    decreases k,
{
    if k > 0 {
        lemma_three_to_pos((k - 1) as nat);
    }
}

/// No bucket holds more than `3^n` positions.
pub proof fn lemma_code_size_bound(n: int, men: int, c: int)
    requires
        0 <= n,
        0 <= men,
        0 <= c < code_count(men),
    ensures
        0 <= code_size(n, men, c) <= three_to(n as nat),
{
    let radix = men + 1;
    lemma_digits_range(c, radix);
    let d = code_digits(c, radix);
    lemma_three_to_pos(n as nat);
    if admissible(n, men, d) {
        if n < MAX_N {
            let x = binom(n as nat, d.2 as nat);
            let y = binom((n - d.2) as nat, d.4 as nat);
            assert(c_spec(n, d.2) == x);
            assert(c_spec(n - d.2, d.4) == y);
            lemma_placements_bound(n as nat, d.2 as nat, d.4 as nat);
            assert(x * y <= three_to(n as nat));
            assert(code_size(n, men, c) == x * y);
        } else {
            assert(c_spec(n, d.2) == 0);
            assert(code_size(n, men, c) == 0);
        }
    }
}

/// The first `c` codes hold at most `c · 3^n` positions.
pub proof fn lemma_span_bound(n: int, men: int, c: nat)
    requires
        0 <= n,
        0 <= men,
        c <= code_count(men),
    ensures
        span_below(n, men, c) <= c * three_to(n as nat),
    decreases c,
{
    if c > 0 {
        lemma_span_bound(n, men, (c - 1) as nat);
        lemma_code_size_bound(n, men, c - 1);
        assert(c * three_to(n as nat) == (c - 1) * three_to(n as nat) + three_to(n as nat)) by (nonlinear_arith);
    }
}

/// Each run of `men + 1` consecutive codes shares all digits but the last,
/// black's count on the board; at most `n + 1` of them have a bucket.
pub proof fn lemma_bucket_count_bound(n: int, men: int, c: nat)
    requires
        0 <= n,
        0 <= men,
        c <= code_count(men),
    ensures
        buckets_below(n, men, c) <= ((c as int) / (men + 1)) * (n + 1) + (if (c as int) % (men + 1) <= n + 1 {
            (c as int) % (men + 1)
        } else {
            n + 1
        }),
    decreases c,
{
    let r = men + 1;
    if c > 0 {
        let p: int = c - 1;
        lemma_bucket_count_bound(n, men, (c - 1) as nat);
        let q: int = p / r;
        let j: int = p % r;
        vstd::arithmetic::div_mod::lemma_fundamental_div_mod(p, r);
        vstd::arithmetic::div_mod::lemma_mod_pos_bound(p, r);
        vstd::arithmetic::div_mod::lemma_div_pos_is_pos(p, r);
        if j + 1 < r {
            assert(c == q * r + (j + 1)) by (nonlinear_arith)
                requires
                    p == r * q + j,
                    c == p + 1,
            ;
            vstd::arithmetic::div_mod::lemma_fundamental_div_mod_converse(c as int, r, q, j + 1);
        } else {
            assert(c == (q + 1) * r + 0) by (nonlinear_arith)
                requires
                    p == r * q + j,
                    c == p + 1,
                    j + 1 == r,
            ;
            vstd::arithmetic::div_mod::lemma_fundamental_div_mod_converse(c as int, r, q + 1, 0);
            assert((q + 1) * (n + 1) == q * (n + 1) + (n + 1)) by (nonlinear_arith);
        }
        lemma_digits_range(p, r);
        let d = code_digits(p, r);
        assert(d.4 == j);
        if code_size(n, men, p) > 0 {
            assert(admissible(n, men, d));
            assert(j <= n);
        }
    }
}

/// The first `c` codes hold at most `3^n` positions per bucket.
pub proof fn lemma_span_by_buckets(n: int, men: int, c: nat)
    requires
        0 <= n,
        0 <= men,
        c <= code_count(men),
    ensures
        span_below(n, men, c) <= buckets_below(n, men, c) * three_to(n as nat),
    decreases c,
{
    if c > 0 {
        lemma_span_by_buckets(n, men, (c - 1) as nat);
        lemma_code_size_bound(n, men, c - 1);
        let b = buckets_below(n, men, (c - 1) as nat);
        assert((b + 1) * three_to(n as nat) == b * three_to(n as nat) + three_to(n as nat)) by (nonlinear_arith);
    }
}

/// A board of at most 32 points fits the dense index whenever its code table
/// fits memory and `3^n` times either the number of codes, `2 (men + 1)^4`,
/// or the bound `2 (men + 1)^3 (n + 1)` on the number of buckets fits `u64`.
pub proof fn lemma_index_fits(n: int, men: int)
    requires
        0 <= n <= 32,
        0 <= men <= 255,
        code_count(men) <= usize::MAX,
        code_count(men) * three_to(n as nat) <= u64::MAX || 2 * (men + 1) * (men + 1) * (men + 1) * (n + 1)
            * three_to(n as nat) <= u64::MAX,
    ensures
        index_fits(n, men),
{
    let r = men + 1;
    let cc = code_count(men);
    let t = three_to(n as nat);
    lemma_span_bound(n, men, cc as nat);
    lemma_span_by_buckets(n, men, cc as nat);
    lemma_bucket_count_bound(n, men, cc as nat);
    let r3 = 2 * r * r * r;
    assert(cc == r3 * r);
    vstd::arithmetic::div_mod::lemma_fundamental_div_mod_converse(cc, r, r3, 0);
    assert(r3 <= 2 * 256 * 256 * 256) by (nonlinear_arith)
        requires
            r3 == 2 * r * r * r,
            1 <= r <= 256,
    ;
    assert(r3 * (n + 1) <= 2 * 256 * 256 * 256 * 33) by (nonlinear_arith)
        requires
            0 <= r3 <= 2 * 256 * 256 * 256,
            0 <= n <= 32,
    ;
    let b = buckets_below(n, men, cc as nat);
    lemma_below_mono(n, men, 0, cc as nat);
    assert(b * t <= r3 * (n + 1) * t) by (nonlinear_arith)
        requires
            0 <= b <= r3 * (n + 1),
            t >= 0,
    ;
    assert(r3 * (n + 1) * t == 2 * r * r * r * (n + 1) * t) by (nonlinear_arith)
        requires
            r3 == 2 * r * r * r,
    ;
}

} // verus!
