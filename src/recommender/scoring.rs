//! The arithmetic of a query: how the step budget is shared among the
//! seeds, how visit counts become scores, and how scores become a ranking.
//!
//! All of it is integer arithmetic. A square root is taken to 16 binary
//! places (the root of the count times 2^32, rounded down), and nodes are
//! ranked by the sum of those roots over the seeds: squaring the sum, as a
//! final score, keeps the same order.

use vstd::prelude::*;

verus! {

/// The base-2 logarithm of `d`, rounded down (0 for 0 and 1).
pub open spec fn floor_log2(d: nat) -> nat
    decreases d,
{
    if d <= 1 {
        0
    } else {
        1 + floor_log2(d / 2)
    }
}

proof fn lemma_log2_below(d: nat)
    requires
        d >= 1,
    ensures
        floor_log2(d) < d,
    decreases d,
{
    if d > 1 {
        lemma_log2_below(d / 2);
    }
}

/// The base-2 logarithm of `d`, rounded down.
pub fn log2_floor(d: usize) -> (r: usize)
    ensures
        r == floor_log2(d as nat),
{
    let mut x: usize = d;
    let mut r: usize = 0;
    while x > 1
        invariant
            floor_log2(d as nat) == r + floor_log2(x as nat),
            r <= d,
            x >= 1 ==> r + x <= d,
        decreases x,
    {
        x = x / 2;
        r = r + 1;
    }
    r
}

/// The weight of a seed in the sharing of the budget: its degree times
/// the largest degree less the base-2 logarithm of its degree; 0 for a
/// seed without neighbours; held at `u64::MAX` at most.
pub open spec fn scaling_spec(degree: nat, max_degree: nat) -> nat {
    if degree == 0 {
        0
    } else {
        let s = degree * (max_degree - floor_log2(degree));
        if s > u64::MAX {
            u64::MAX as nat
        } else {
            s as nat
        }
    }
}

/// Computes `scaling_spec` for a seed of the given degree.
pub fn scaling_factor(degree: usize, max_degree: usize) -> (s: u64)
    requires
        degree <= max_degree,
    ensures
        s == scaling_spec(degree as nat, max_degree as nat),
{
    if degree == 0 {
        return 0;
    }
    let lg = log2_floor(degree);
    proof {
        lemma_log2_below(degree as nat);
    }
    let d: u128 = degree as u128;
    let rest: u128 = (max_degree - lg) as u128;
    assert(d * rest <= 0xffff_ffff_ffff_ffffu128 * 0xffff_ffff_ffff_ffffu128) by (nonlinear_arith)
        requires
            d <= 0xffff_ffff_ffff_ffffu128,
            rest <= 0xffff_ffff_ffff_ffffu128,
    ;
    let s: u128 = d * rest;
    if s > u64::MAX as u128 {
        u64::MAX
    } else {
        s as u64
    }
}

/// The sum of a sequence of factors.
pub open spec fn factor_sum(s: Seq<u64>) -> nat
    decreases s.len(),
{
    if s.len() == 0 {
        0
    } else {
        factor_sum(s.drop_last()) + s.last() as nat
    }
}

/// The sum of a sequence of counts.
pub open spec fn count_sum(s: Seq<usize>) -> nat
    decreases s.len(),
{
    if s.len() == 0 {
        0
    } else {
        count_sum(s.drop_last()) + s.last() as nat
    }
}

/// The steps a seed of factor `s` gets out of `total`, when the factors of
/// all seeds sum to `sum`: its share, rounded down; none when `sum` is 0.
pub open spec fn budget_share(total: nat, s: nat, sum: nat) -> nat {
    if sum == 0 {
        0
    } else {
        (total * s) / sum
    }
}

/// The budget of each seed.
pub open spec fn budget_split(factors: Seq<u64>, total: nat) -> Seq<nat> {
    Seq::new(factors.len(), |i: int| budget_share(total, factors[i] as nat, factor_sum(factors)))
}

/// The sum of a sequence of naturals.
pub open spec fn nat_sum(s: Seq<nat>) -> nat
    decreases s.len(),
{
    if s.len() == 0 {
        0
    } else {
        nat_sum(s.drop_last()) + s.last()
    }
}

proof fn lemma_factor_sum_bound(s: Seq<u64>)
    ensures
        factor_sum(s) <= s.len() * 0xffff_ffff_ffff_ffff,
    decreases s.len(),
{
    if s.len() > 0 {
        lemma_factor_sum_bound(s.drop_last());
    }
}

proof fn lemma_factor_sum_step(s: Seq<u64>, i: int)
    requires
        0 <= i < s.len(),
    ensures
        factor_sum(s.take(i + 1)) == factor_sum(s.take(i)) + s[i],
{
    assert(s.take(i + 1).drop_last() =~= s.take(i));
}

proof fn lemma_factor_le_sum(s: Seq<u64>, i: int)
    requires
        0 <= i < s.len(),
    ensures
        s[i] <= factor_sum(s),
    decreases s.len(),
{
    if i < s.len() - 1 {
        lemma_factor_le_sum(s.drop_last(), i);
    }
}

proof fn lemma_split_total(factors: Seq<u64>, total: nat, sum: nat)
    requires
        sum > 0,
    ensures
        nat_sum(Seq::new(factors.len(), |i: int| budget_share(total, factors[i] as nat, sum))) * sum
            <= total * factor_sum(factors),
    decreases factors.len(),
{
    let shares = Seq::new(factors.len(), |i: int| budget_share(total, factors[i] as nat, sum));
    if factors.len() > 0 {
        let init = factors.drop_last();
        lemma_split_total(init, total, sum);
        let init_shares = Seq::new(init.len(), |i: int| budget_share(total, init[i] as nat, sum));
        assert(shares.drop_last() =~= init_shares);
        let a = nat_sum(init_shares);
        let f = factor_sum(init);
        let x = factors.last() as nat;
        let q = (total * x) / sum;
        assert(q * sum <= total * x) by {
            vstd::arithmetic::div_mod::lemma_fundamental_div_mod((total * x) as int, sum as int);
            vstd::arithmetic::div_mod::lemma_mod_pos_bound((total * x) as int, sum as int);
        }
        assert((a + q) * sum <= total * (f + x)) by (nonlinear_arith)
            requires
                a * sum <= total * f,
                q * sum <= total * x,
        ;
        assert(shares.last() == q);
        assert(nat_sum(shares) == a + q);
        assert(factor_sum(factors) == f + x);
    } else {
        assert(nat_sum(shares) == 0);
        assert(0 * sum <= total * 0) by (nonlinear_arith);
    }
}

/// Sharing never hands out more than the whole budget.
pub proof fn lemma_budget_conserved(factors: Seq<u64>, total: nat)
    ensures
        nat_sum(budget_split(factors, total)) <= total,
{
    let sum = factor_sum(factors);
    if sum > 0 {
        lemma_split_total(factors, total, sum);
        let b = nat_sum(budget_split(factors, total));
        assert(b * sum <= total * sum);
        assert(b <= total) by (nonlinear_arith)
            requires
                b * sum <= total * sum,
                sum > 0,
        ;
    } else {
        lemma_zero_shares(factors, total);
    }
}

proof fn lemma_zero_shares(factors: Seq<u64>, total: nat)
    requires
        factor_sum(factors) == 0,
    ensures
        nat_sum(budget_split(factors, total)) == 0,
    decreases factors.len(),
{
    let split = budget_split(factors, total);
    if factors.len() > 0 {
        let init = factors.drop_last();
        assert(factor_sum(init) == 0);
        lemma_zero_shares(init, total);
        assert(split.drop_last() =~= budget_split(init, total));
    }
}

/// Shares `max_total_steps` among the seeds in proportion to their factors,
/// each share rounded down.
pub fn split_budget(factors: &Vec<u64>, max_total_steps: usize) -> (r: Vec<usize>)
    ensures
        r.len() == factors.len(),
        forall|i: int|
            0 <= i < r.len() ==> r[i] == #[trigger] budget_split(factors@, max_total_steps as nat)[i],
        count_sum(r@) <= max_total_steps,
{
    let mut sum: u128 = 0;
    let mut i: usize = 0;
    while i < factors.len()
        invariant
            i <= factors.len(),
            sum == factor_sum(factors@.take(i as int)),
        decreases factors.len() - i,
    {
        proof {
            lemma_factor_sum_step(factors@, i as int);
            lemma_factor_sum_bound(factors@.take(i as int + 1));
        }
        sum = sum + factors[i] as u128;
        i = i + 1;
    }
    assert(factors@.take(factors.len() as int) =~= factors@);
    let mut r: Vec<usize> = Vec::new();
    let mut k: usize = 0;
    while k < factors.len()
        invariant
            k <= factors.len(),
            sum == factor_sum(factors@),
            r.len() == k,
            forall|i: int|
                0 <= i < k ==> r[i] == #[trigger] budget_split(factors@, max_total_steps as nat)[i],
        decreases factors.len() - k,
    {
        if sum == 0 {
            r.push(0);
        } else {
            let m: u128 = max_total_steps as u128;
            let f: u128 = factors[k] as u128;
            proof {
                lemma_factor_le_sum(factors@, k as int);
            }
            assert(m * f <= 0xffff_ffff_ffff_ffffu128 * 0xffff_ffff_ffff_ffffu128) by (nonlinear_arith)
                requires
                    m <= 0xffff_ffff_ffff_ffffu128,
                    f <= 0xffff_ffff_ffff_ffffu128,
            ;
            let share: u128 = (m * f) / sum;
            proof {
                let mi = m as int;
                let fi = f as int;
                let si = sum as int;
                assert(mi * fi <= mi * si) by (nonlinear_arith)
                    requires
                        0 <= mi,
                        0 <= fi <= si,
                ;
                vstd::arithmetic::div_mod::lemma_div_is_ordered(mi * fi, mi * si, si);
                vstd::arithmetic::div_mod::lemma_div_multiples_vanish(mi, si);
            }
            r.push(share as usize);
        }
        k = k + 1;
    }
    proof {
        lemma_budget_conserved(factors@, max_total_steps as nat);
        lemma_count_sum_matches(r@, budget_split(factors@, max_total_steps as nat));
    }
    r
}

proof fn lemma_count_sum_matches(r: Seq<usize>, s: Seq<nat>)
    requires
        r.len() == s.len(),
        forall|i: int| 0 <= i < r.len() ==> r[i] == #[trigger] s[i],
    ensures
        count_sum(r) == nat_sum(s),
    decreases r.len(),
{
    if r.len() > 0 {
        lemma_count_sum_matches(r.drop_last(), s.drop_last());
    }
}

/// `r` is the square root of `n`, rounded down.
pub open spec fn is_floor_sqrt(n: nat, r: nat) -> bool {
    r * r <= n && n < (r + 1) * (r + 1)
}

/// The square root of `n`, rounded down.
pub open spec fn sqrt_floor(n: nat) -> nat {
    choose|r: nat| is_floor_sqrt(n, r)
}

/// The rounded-down square root is unique.
proof fn lemma_floor_sqrt_unique(n: nat, r1: nat, r2: nat)
    requires
        is_floor_sqrt(n, r1),
        is_floor_sqrt(n, r2),
    ensures
        r1 == r2,
{
    if r1 < r2 {
        assert((r1 + 1) * (r1 + 1) <= r2 * r2) by (nonlinear_arith)
            requires
                r1 + 1 <= r2,
        ;
    } else if r2 < r1 {
        assert((r2 + 1) * (r2 + 1) <= r1 * r1) by (nonlinear_arith)
            requires
                r2 + 1 <= r1,
        ;
    }
}

/// The square root of `n`, rounded down, by bisection.
pub fn floor_sqrt(n: u128) -> (r: u64)
    ensures
        r == sqrt_floor(n as nat),
{
    let mut lo: u128 = 0;
    let mut hi: u128 = 0x1_0000_0000_0000_0000;
    assert(n < hi * hi) by (nonlinear_arith)
        requires
            hi == 0x1_0000_0000_0000_0000u128,
            n <= 0xffff_ffff_ffff_ffff_ffff_ffff_ffff_ffffu128,
    ;
    while hi - lo > 1
        invariant
            lo < hi <= 0x1_0000_0000_0000_0000,
            lo * lo <= n,
            n < hi * hi,
        decreases hi - lo,
    {
        let mid: u128 = lo + (hi - lo) / 2;
        assert(mid * mid <= 0xffff_ffff_ffff_ffffu128 * 0xffff_ffff_ffff_ffffu128) by (nonlinear_arith)
            requires
                mid < 0x1_0000_0000_0000_0000u128,
        ;
        if mid * mid <= n {
            lo = mid;
        } else {
            hi = mid;
        }
    }
    proof {
        assert(hi == lo + 1);
        assert(is_floor_sqrt(n as nat, lo as nat));
        lemma_floor_sqrt_unique(n as nat, lo as nat, sqrt_floor(n as nat));
    }
    lo as u64
}

/// What `count` visits under one seed add to a node's score: the square
/// root of the count to 16 binary places, that is the rounded-down root of
/// `count * 2^32`.
pub open spec fn visit_root(count: nat) -> nat {
    sqrt_floor(count * 0x1_0000_0000)
}

/// What one seed adds to a score stays below 2^48.
pub proof fn lemma_visit_root_bound(count: nat)
    requires
        count <= 0xffff_ffff_ffff_ffff,
    ensures
        visit_root(count) < 0x1_0000_0000_0000,
{
    let n = count * 0x1_0000_0000;
    let r = visit_root(count);
    assert(n < 0x1_0000_0000_0000 * 0x1_0000_0000_0000) by (nonlinear_arith)
        requires
            n == count * 0x1_0000_0000,
            count <= 0xffff_ffff_ffff_ffff,
    ;
    assert(is_floor_sqrt(n, r)) by {
        floor_sqrt_witness(n);
    }
    if r >= 0x1_0000_0000_0000 {
        assert(r * r >= 0x1_0000_0000_0000 * 0x1_0000_0000_0000) by (nonlinear_arith)
            requires
                r >= 0x1_0000_0000_0000,
        ;
    }
}

/// Every natural has a rounded-down square root.
proof fn floor_sqrt_witness(n: nat) -> (r: nat)
    ensures
        is_floor_sqrt(n, r),
        is_floor_sqrt(n, sqrt_floor(n)),
    decreases n,
{
    if n == 0 {
        assert(is_floor_sqrt(0, 0)) by (nonlinear_arith);
        0
    } else {
        let p = floor_sqrt_witness((n - 1) as nat);
        let r = if (p + 1) * (p + 1) <= n {
            p + 1
        } else {
            p
        };
        assert(r * r <= n);
        assert(n < (r + 1) * (r + 1)) by (nonlinear_arith)
            requires
                p * p <= n - 1,
                n - 1 < (p + 1) * (p + 1),
                r == (if (p + 1) * (p + 1) <= n { p + 1 } else { p }),
        ;
        r
    }
}

/// Adds to each node's score what its visit count under one more seed gives.
pub fn add_visit_roots(scores: &mut Vec<u128>, counts: &Vec<usize>)
    requires
        old(scores).len() == counts.len(),
        forall|i: int| 0 <= i < old(scores).len() ==> #[trigger] old(scores)[i] <= u128::MAX - 0x1_0000_0000_0000,
    ensures
        final(scores).len() == counts.len(),
        forall|i: int|
            0 <= i < counts.len() ==> #[trigger] final(scores)[i] == old(scores)[i] + visit_root(counts[i] as nat),
{
    let mut i: usize = 0;
    while i < counts.len()
        invariant
            scores.len() == counts.len(),
            old(scores).len() == counts.len(),
            i <= counts.len(),
            forall|j: int| 0 <= j < i ==> #[trigger] scores[j] == old(scores)[j] + visit_root(counts[j] as nat),
            forall|j: int| i <= j < counts.len() ==> #[trigger] scores[j] == old(scores)[j],
            forall|j: int| 0 <= j < old(scores).len() ==> #[trigger] old(scores)[j] <= u128::MAX - 0x1_0000_0000_0000,
        decreases counts.len() - i,
    {
        let c: u128 = counts[i] as u128;
        let root = floor_sqrt(c * 0x1_0000_0000);
        proof {
            assert(counts[i as int] <= usize::MAX);
            lemma_visit_root_bound(counts[i as int] as nat);
            assert(root == visit_root(counts[i as int] as nat));
            assert(scores[i as int] == old(scores)[i as int]);
        }
        scores.set(i, scores[i] + root as u128);
        i = i + 1;
    }
}

/// Node `i` comes before node `j`: it has the higher score, or the same
/// score and the lower position.
pub open spec fn ranks_before(scores: Seq<u128>, i: int, j: int) -> bool {
    scores[i] > scores[j] || (scores[i] == scores[j] && i < j)
}

/// Node `i` is ranked: it has a score and is not excluded.
pub open spec fn is_ranked(scores: Seq<u128>, excluded: Seq<bool>, i: int) -> bool {
    0 <= i < scores.len() && !excluded[i] && scores[i] > 0
}

/// Orders the nodes that are not excluded and have a positive score, best
/// first: by descending score, and by position among equal scores.
pub fn rank_by_score(scores: &Vec<u128>, excluded: &Vec<bool>) -> (r: Vec<usize>)
    requires
        scores.len() == excluded.len(),
    ensures
        forall|i: usize| is_ranked(scores@, excluded@, i as int) <==> r@.contains(i),
        forall|a: int, b: int|
            0 <= a < b < r.len() ==> ranks_before(scores@, #[trigger] r[a] as int, #[trigger] r[b] as int),
        r@.no_duplicates(),
{
    let mut r: Vec<usize> = Vec::new();
    let mut i: usize = 0;
    while i < scores.len()
        invariant
            scores.len() == excluded.len(),
            i <= scores.len(),
            forall|j: int| 0 <= j < r.len() ==> #[trigger] r[j] < i,
            forall|j: int| 0 <= j < i ==> (is_ranked(scores@, excluded@, j) <==> r@.contains(j as usize)),
            forall|a: int, b: int|
                0 <= a < b < r.len() ==> ranks_before(scores@, #[trigger] r[a] as int, #[trigger] r[b] as int),
        decreases scores.len() - i,
    {
        if !excluded[i] && scores[i] > 0 {
            let mut p: usize = 0;
            while p < r.len() && !(scores[i] > scores[r[p]])
                invariant
                    scores.len() == excluded.len(),
                    i < scores.len(),
                    p <= r.len(),
                    forall|j: int| 0 <= j < r.len() ==> #[trigger] r[j] < i,
                    forall|q: int| 0 <= q < p ==> scores[r[q] as int] >= scores[i as int],
                decreases r.len() - p,
            {
                p = p + 1;
            }
            let ghost before = r@;
            r.insert(p, i);
            proof {
                assert forall|a: int, b: int| 0 <= a < b < r.len() implies ranks_before(
                    scores@,
                    #[trigger] r[a] as int,
                    #[trigger] r[b] as int,
                ) by {
                    if b < p {
                        assert(r[a] == before[a] && r[b] == before[b]);
                    } else if b == p {
                        assert(r[a] == before[a]);
                    } else if a == p {
                        assert(r[b] == before[b - 1]);
                        assert(ranks_before(scores@, before[p as int] as int, before[b - 1] as int)
                            || b - 1 == p);
                    } else if a < p {
                        assert(r[a] == before[a] && r[b] == before[b - 1]);
                    } else {
                        assert(r[a] == before[a - 1] && r[b] == before[b - 1]);
                    }
                }
                assert forall|j: int| 0 <= j < i + 1 implies (is_ranked(scores@, excluded@, j)
                    <==> r@.contains(j as usize)) by {
                    if j < i {
                        if before.contains(j as usize) {
                            let q = choose|q: int| 0 <= q < before.len() && before[q] == j as usize;
                            if q < p {
                                assert(r[q] == j as usize);
                            } else {
                                assert(r[q + 1] == j as usize);
                            }
                        }
                        if r@.contains(j as usize) {
                            let q = choose|q: int| 0 <= q < r.len() && r[q] == j as usize;
                            if q < p {
                                assert(before[q] == j as usize);
                            } else if q > p {
                                assert(before[q - 1] == j as usize);
                            }
                        }
                    } else {
                        assert(r[p as int] == i);
                    }
                }
            }
        } else {
            proof {
                assert forall|j: int| 0 <= j < i + 1 implies (is_ranked(scores@, excluded@, j)
                    <==> r@.contains(j as usize)) by {
                    if j == i {
                        if r@.contains(j as usize) {
                            let q = choose|q: int| 0 <= q < r.len() && r[q] == j as usize;
                            assert(r[q] < i);
                        }
                    }
                }
            }
        }
        i = i + 1;
    }
    proof {
        assert forall|a: int, b: int| 0 <= a < r.len() && 0 <= b < r.len() && a != b implies r[a] != r[b] by {
            if a < b {
                assert(ranks_before(scores@, r[a] as int, r[b] as int));
            } else {
                assert(ranks_before(scores@, r[b] as int, r[a] as int));
            }
        }
        assert forall|j: usize| is_ranked(scores@, excluded@, j as int) <==> r@.contains(j) by {
            if r@.contains(j) {
                let q = choose|q: int| 0 <= q < r.len() && r[q] == j;
                assert(r[q] < i);
            }
        }
    }
    r
}

pub(crate) proof fn lemma_count_sum_bump(s: Seq<usize>, i: int)
    requires
        0 <= i < s.len(),
        s[i] < usize::MAX,
    ensures
        count_sum(s.update(i, (s[i] + 1) as usize)) == count_sum(s) + 1,
    decreases s.len(),
{
    let t = s.update(i, (s[i] + 1) as usize);
    if i == s.len() - 1 {
        assert(t.drop_last() =~= s.drop_last());
    } else {
        lemma_count_sum_bump(s.drop_last(), i);
        assert(t.drop_last() =~= s.drop_last().update(i, (s[i] + 1) as usize));
    }
}

pub(crate) proof fn lemma_count_le_sum(s: Seq<usize>, i: int)
    requires
        0 <= i < s.len(),
    ensures
        s[i] <= count_sum(s),
    decreases s.len(),
{
    if i < s.len() - 1 {
        lemma_count_le_sum(s.drop_last(), i);
    }
}

pub(crate) proof fn lemma_count_sum_zeros(s: Seq<usize>)
    requires
        forall|i: int| 0 <= i < s.len() ==> s[i] == 0,
    ensures
        count_sum(s) == 0,
    decreases s.len(),
{
    if s.len() > 0 {
        lemma_count_sum_zeros(s.drop_last());
    }
}

/// A node that a seed's walks never reached gets nothing from that seed.
pub proof fn lemma_no_visits_no_score()
    ensures
        visit_root(0) == 0,
{
    floor_sqrt_witness(0);
    assert(is_floor_sqrt(0, 0)) by (nonlinear_arith);
    lemma_floor_sqrt_unique(0, 0, sqrt_floor(0));
}

pub(crate) proof fn lemma_count_sum_step(s: Seq<usize>, i: int)
    requires
        0 <= i < s.len(),
    ensures
        count_sum(s.take(i + 1)) == count_sum(s.take(i)) + s[i],
{
    assert(s.take(i + 1).drop_last() =~= s.take(i));
}

} // verus!
