//! Weighted choice among candidates: the draw and what is chosen by it.

use vstd::prelude::*;
use rand::Rng;

verus! {

/// The weight that a candidate carries in a draw: a negative weight counts as none.
pub open spec fn clamp_weight(w: i64) -> nat {
    if w > 0 {
        w as nat
    } else {
        0
    }
}

/// The sum of the clamped weights.
pub open spec fn weight_total(ws: Seq<i64>) -> nat
    decreases ws.len(),
{
    if ws.len() == 0 {
        0
    } else {
        weight_total(ws.drop_last()) + clamp_weight(ws.last())
    }
}

/// `i` is the candidate that a draw of `r` selects: the draw falls within
/// the stretch of the cumulative weights that `i` covers.
pub open spec fn selects(ws: Seq<i64>, r: nat, i: int) -> bool {
    &&& 0 <= i < ws.len()
    &&& weight_total(ws.take(i)) <= r
    &&& r < weight_total(ws.take(i + 1))
}

proof fn lemma_take_full(ws: Seq<i64>)
    ensures
        ws.take(ws.len() as int) == ws,
{
    assert(ws.take(ws.len() as int) =~= ws);
}

/// The draws that select candidate `i` form a stretch as wide as its
/// clamped weight, so under a uniform draw each candidate is chosen with
/// probability proportional to that weight.
pub proof fn lemma_total_step(ws: Seq<i64>, i: int)
    requires
        0 <= i < ws.len(),
    ensures
        weight_total(ws.take(i + 1)) == weight_total(ws.take(i)) + clamp_weight(ws[i]),
{
    assert(ws.take(i + 1).drop_last() =~= ws.take(i));
}

proof fn lemma_total_bound(ws: Seq<i64>)
    ensures
        weight_total(ws) <= ws.len() * 0x8000_0000_0000_0000,
    decreases ws.len(),
{
    if ws.len() > 0 {
        lemma_total_bound(ws.drop_last());
    }
}

/// Clamped weights that sum to zero are each zero or below.
pub proof fn lemma_zero_total(ws: Seq<i64>)
    requires
        weight_total(ws) == 0,
    ensures
        forall|k: int| 0 <= k < ws.len() ==> ws[k] <= 0,
    decreases ws.len(),
{
    if ws.len() > 0 {
        lemma_zero_total(ws.drop_last());
        assert forall|k: int| 0 <= k < ws.len() implies ws[k] <= 0 by {
            if k < ws.len() - 1 {
                assert(ws.drop_last()[k] == ws[k]);
            }
        }
    }
}

/// A selected candidate always has a positive weight.
pub proof fn lemma_selected_is_positive(ws: Seq<i64>, r: nat, i: int)
    requires
        selects(ws, r, i),
    ensures
        ws[i] > 0,
{
    lemma_total_step(ws, i);
}

/// Where one candidate alone has a positive weight, every draw selects it.
pub proof fn lemma_single_positive_selected(ws: Seq<i64>, r: nat, i: int, a: int)
    requires
        selects(ws, r, i),
        0 <= a < ws.len(),
        forall|j: int| 0 <= j < ws.len() && j != a ==> ws[j] <= 0,
    ensures
        i == a,
{
    lemma_selected_is_positive(ws, r, i);
}

/// The sum of the clamped weights, computed without overflow.
pub fn total_weight(weights: &Vec<i64>) -> (r: u128)
    ensures
        r == weight_total(weights@),
{
    let mut sum: u128 = 0;
    let mut i: usize = 0;
    while i < weights.len()
        invariant
            i <= weights.len(),
            sum == weight_total(weights@.take(i as int)),
        decreases weights.len() - i,
    {
        proof {
            lemma_total_step(weights@, i as int);
            lemma_total_bound(weights@.take(i as int + 1));
        }
        if weights[i] > 0 {
            sum = sum + weights[i] as u128;
        }
        i = i + 1;
    }
    proof {
        lemma_take_full(weights@);
    }
    sum
}

/// Cumulative-weight selection: walks the candidates in order, taking away
/// each one's clamped weight from the draw, and stops at the candidate whose
/// stretch holds the draw.
pub fn pick_weighted(weights: &Vec<i64>, draw: u128) -> (i: usize)
    requires
        draw < weight_total(weights@),
    ensures
        selects(weights@, draw as nat, i as int),
{
    let mut i: usize = 0;
    let mut passed: u128 = 0;
    proof {
        lemma_take_full(weights@);
    }
    loop
        invariant
            i < weights.len(),
            passed == weight_total(weights@.take(i as int)),
            passed <= draw,
            draw < weight_total(weights@),
        decreases weights.len() - i,
    {
        proof {
            lemma_total_step(weights@, i as int);
            lemma_total_bound(weights@.take(i as int + 1));
        }
        let w: u128 = if weights[i] > 0 {
            weights[i] as u128
        } else {
            0
        };
        if draw < passed + w {
            return i;
        }
        passed = passed + w;
        i = i + 1;
        proof {
            if i == weights.len() {
                lemma_take_full(weights@);
            }
        }
    }
}

/// Relies on rand's `Rng::gen_range` over `OsRng`: a uniform draw from
/// `0..bound`, which is below `bound` (the range is not empty).
#[verifier::external_body]
fn uniform_below(bound: u128) -> (r: u128)
    requires
        bound > 0,
    ensures
        r < bound,
{
    rand::rngs::OsRng.gen_range(0..bound)
}

/// Draws one candidate with probability proportional to its clamped weight.
/// No candidate is drawn when the clamped weights sum to zero.
pub fn draw_weighted(weights: &Vec<i64>) -> (r: Option<usize>)
    ensures
        r is None <==> weight_total(weights@) == 0,
        r matches Some(i) ==> i < weights.len() && weights@[i as int] > 0,
{
    let total = total_weight(weights);
    if total == 0 {
        None
    } else {
        let draw = uniform_below(total);
        let i = pick_weighted(weights, draw);
        proof {
            lemma_selected_is_positive(weights@, draw as nat, i as int);
        }
        Some(i)
    }
}

} // verus!
