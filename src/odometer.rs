//! Mixed-radix arithmetic on digit sequences: the mathematics behind the
//! string generator. A digit is a position in an alphabet of `k` symbols; the
//! most significant digit comes first.

use vstd::prelude::*;

verus! {

/// `k` raised to the power `e`.
pub open spec fn pow(k: nat, e: nat) -> nat
    decreases e,
{
    if e == 0 {
        1
    } else {
        pow(k, (e - 1) as nat) * k
    }
}

/// `k^lo + k^(lo+1) + ... + k^hi` (zero when `hi < lo`).
pub open spec fn sum_pow(k: nat, lo: nat, hi: nat) -> nat
    decreases hi,
{
    if hi < lo {
        0
    } else if hi == lo {
        pow(k, lo)
    } else {
        sum_pow(k, lo, (hi - 1) as nat) + pow(k, hi)
    }
}

/// Every digit is a position of the alphabet.
pub open spec fn valid_digits(k: nat, d: Seq<nat>) -> bool {
    forall|i: int| 0 <= i < d.len() ==> d[i] < k
}

/// Every digit is the alphabet's last position.
pub open spec fn all_last(k: nat, d: Seq<nat>) -> bool {
    forall|i: int| 0 <= i < d.len() ==> d[i] == k - 1
}

/// `n` copies of the first position.
pub open spec fn zeros(n: nat) -> Seq<nat> {
    Seq::new(n, |i: int| 0nat)
}

/// The odometer's successor: the rightmost digit that is not the last
/// position is incremented and every digit right of it returns to the first
/// position; when every digit is the last position, the result is one digit
/// longer and all first positions.
pub open spec fn succ(k: nat, d: Seq<nat>) -> Seq<nat>
    decreases d.len(),
{
    if d.len() == 0 {
        seq![0nat]
    } else if d.last() + 1 < k {
        d.drop_last().push((d.last() + 1) as nat)
    } else {
        succ(k, d.drop_last()).push(0nat)
    }
}

/// The number that a digit sequence writes in base `k`.
pub open spec fn value(k: nat, d: Seq<nat>) -> nat
    decreases d.len(),
{
    if d.len() == 0 {
        0
    } else {
        value(k, d.drop_last()) * k + d.last()
    }
}

/// The position of a nonempty digit sequence in the order that lists all
/// sequences of length one, then all of length two, and so on, each length
/// in increasing value.
pub open spec fn rank(k: nat, d: Seq<nat>) -> nat {
    sum_pow(k, 1, (d.len() - 1) as nat) + value(k, d)
}

pub proof fn lemma_pow_positive(k: nat, e: nat)
    requires
        k >= 1,
    ensures
        pow(k, e) >= 1,
    decreases e,
{
    if e > 0 {
        lemma_pow_positive(k, (e - 1) as nat);
        assert(pow(k, (e - 1) as nat) * k >= 1) by (nonlinear_arith)
            requires
                pow(k, (e - 1) as nat) >= 1,
                k >= 1,
        ;
    }
}

/// Raising the upper end of a sum of powers past `a` adds at least `k^(a+1)`.
pub proof fn lemma_sum_pow_grows(k: nat, lo: nat, a: nat, b: nat)
    requires
        lo <= a < b,
    ensures
        sum_pow(k, lo, a) + pow(k, (a + 1) as nat) <= sum_pow(k, lo, b),
    decreases b - a,
{
    if a + 1 < b {
        lemma_sum_pow_grows(k, lo, a, (b - 1) as nat);
    }
}

pub proof fn lemma_value_zeros(k: nat, n: nat)
    ensures
        value(k, zeros(n)) == 0,
    decreases n,
{
    if n > 0 {
        assert(zeros(n).drop_last() =~= zeros((n - 1) as nat));
        assert(zeros(n).last() == 0);
        lemma_value_zeros(k, (n - 1) as nat);
        assert(0 * k == 0);
    }
}

/// The value of `n` digits is below `k^n`, and it is `k^n - 1` exactly when
/// every digit is the last position.
pub proof fn lemma_value_bound(k: nat, d: Seq<nat>)
    requires
        k >= 1,
        valid_digits(k, d),
    ensures
        value(k, d) < pow(k, d.len()),
        value(k, d) + 1 == pow(k, d.len()) <==> all_last(k, d),
    decreases d.len(),
{
    if d.len() > 0 {
        let p = d.drop_last();
        let v = value(k, p);
        let n = d.len();
        let q = pow(k, p.len());
        lemma_value_bound(k, p);
        assert(pow(k, n) == q * k);
        let l = d.last();
        assert(v * k + l < q * k) by (nonlinear_arith)
            requires
                v < q,
                l < k,
        ;
        if all_last(k, d) {
            assert(all_last(k, p));
            assert(v * k + l + 1 == q * k) by (nonlinear_arith)
                requires
                    v + 1 == q,
                    l + 1 == k,
            ;
        }
        if value(k, d) + 1 == pow(k, n) {
            assert(v + 1 == q && l + 1 == k) by (nonlinear_arith)
                requires
                    v * k + l + 1 == q * k,
                    v < q,
                    l < k,
            ;
            assert forall|i: int| 0 <= i < d.len() implies d[i] == k - 1 by {
                if i < p.len() {
                    assert(d[i] == p[i]);
                }
            }
        }
    } else {
        assert(all_last(k, d));
    }
}

/// The successor is valid; it is all first positions and one longer when
/// every digit is the last position, and otherwise it has the same length
/// and a value one higher.
pub proof fn lemma_succ(k: nat, d: Seq<nat>)
    requires
        k >= 1,
        valid_digits(k, d),
    ensures
        valid_digits(k, succ(k, d)),
        all_last(k, d) ==> succ(k, d) == zeros(d.len() + 1),
        !all_last(k, d) ==> succ(k, d).len() == d.len() && value(k, succ(k, d)) == value(k, d)
            + 1,
    decreases d.len(),
{
    if d.len() == 0 {
        assert(succ(k, d) =~= zeros(1));
    } else {
        let p = d.drop_last();
        let s = succ(k, d);
        if d.last() + 1 < k {
            assert(!all_last(k, d));
            assert(s.drop_last() =~= p);
        } else {
            lemma_succ(k, p);
            let sp = succ(k, p);
            assert(s.drop_last() =~= sp);
            if all_last(k, p) {
                assert(all_last(k, d)) by {
                    assert forall|i: int| 0 <= i < d.len() implies d[i] == k - 1 by {
                        if i < p.len() {
                            assert(d[i] == p[i]);
                        }
                    }
                }
                assert(s =~= zeros(d.len() + 1));
            } else {
                assert(!all_last(k, d)) by {
                    let i = choose|i: int| 0 <= i < p.len() && p[i] != k - 1;
                    assert(d[i] == p[i]);
                }
                let v = value(k, p);
                assert((v + 1) * k + 0 == v * k + (k - 1) + 1) by (nonlinear_arith);
            }
        }
    }
}

/// The successor's rank is one more.
pub proof fn lemma_rank_succ(k: nat, d: Seq<nat>)
    requires
        k >= 1,
        valid_digits(k, d),
        d.len() >= 1,
    ensures
        rank(k, succ(k, d)) == rank(k, d) + 1,
{
    lemma_succ(k, d);
    lemma_value_bound(k, d);
    if all_last(k, d) {
        lemma_value_zeros(k, d.len() + 1);
    }
}

/// Below a length bound `max`, ranks stay under the number of sequences of
/// length one to `max`, and only the longest sequence of last positions
/// reaches the top rank.
pub proof fn lemma_rank_bound(k: nat, d: Seq<nat>, max: nat)
    requires
        k >= 1,
        valid_digits(k, d),
        1 <= d.len() <= max,
    ensures
        rank(k, d) < sum_pow(k, 1, max),
        rank(k, d) + 1 == sum_pow(k, 1, max) <==> (d.len() == max && all_last(k, d)),
{
    let n = d.len();
    lemma_value_bound(k, d);
    assert(sum_pow(k, 1, n) == sum_pow(k, 1, (n - 1) as nat) + pow(k, n));
    if n < max {
        lemma_sum_pow_grows(k, 1, n, max);
        lemma_pow_positive(k, n + 1);
    }
}

/// The successor written out: `d[p]` is incremented and the digits right of
/// it, all last positions, return to the first position.
pub proof fn lemma_succ_at(k: nat, d: Seq<nat>, p: int)
    requires
        0 <= p < d.len(),
        d[p] + 1 < k,
        forall|j: int| p < j < d.len() ==> d[j] == k - 1,
    ensures
        succ(k, d) == d.take(p).push((d[p] + 1) as nat) + zeros((d.len() - p - 1) as nat),
    decreases d.len(),
{
    let pre = d.drop_last();
    if p == d.len() - 1 {
        assert(d.take(p) =~= pre);
        assert(succ(k, d) =~= d.take(p).push((d[p] + 1) as nat) + zeros(0));
    } else {
        assert(d.last() == k - 1);
        lemma_succ_at(k, pre, p);
        assert(pre.take(p) =~= d.take(p));
        assert(succ(k, d) =~= d.take(p).push((d[p] + 1) as nat) + zeros(
            (d.len() - p - 1) as nat,
        ));
    }
}

} // verus!
