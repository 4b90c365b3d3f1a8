use vstd::prelude::*;
use rand::Rng;

verus! {

/// The sum of the first `n` weights.
pub open spec fn total(weights: Seq<i64>, n: int) -> int
    decreases n,
{
    if n <= 0 {
        0
    } else {
        total(weights, n - 1) + weights[n - 1]
    }
}

/// Every weight is positive.
pub open spec fn all_positive(weights: Seq<i64>) -> bool {
    forall|i: int| 0 <= i < weights.len() ==> #[trigger] weights[i] > 0
}

/// The sums of positive weights grow, and none is greater than as many
/// times the greatest weight.
pub proof fn lemma_total(weights: Seq<i64>, n: int)
    requires
        all_positive(weights),
        0 <= n <= weights.len(),
    ensures
        n <= total(weights, n) <= n * i64::MAX,
        forall|m: int| 0 <= m <= n ==> total(weights, m) <= total(weights, n),
    decreases n,
{
    if n > 0 {
        lemma_total(weights, n - 1);
        assert(weights[n - 1] > 0);
        assert((n - 1) * i64::MAX + i64::MAX == n * i64::MAX) by (nonlinear_arith);
    }
}

/// The sum of as many weights as a list can hold leaves room for one
/// weight more in 128 bits.
pub proof fn lemma_total_fits(weights: Seq<i64>, n: int)
    requires
        all_positive(weights),
        0 <= n <= weights.len(),
        n <= usize::MAX,
    ensures
        0 <= total(weights, n),
        total(weights, n) + i64::MAX <= i128::MAX,
{
    lemma_total(weights, n);
    assert(n * i64::MAX <= 0xffff_ffff_ffff_ffff * 0x7fff_ffff_ffff_ffff) by (nonlinear_arith)
        requires
            0 <= n <= 0xffff_ffff_ffff_ffff,
    ;
}

/// `rand::Rng::gen_range` on the thread's generator `rand::thread_rng()`,
/// with the range `0..bound`: a number of that range. It panics on an empty
/// range, so the bound is positive. Which number comes is left open.
#[verifier::external_body]
fn random_below(bound: i128) -> (r: i128)
    requires
        bound > 0,
    ensures
        0 <= r < bound,
{
    rand::thread_rng().gen_range(0..bound)
}

/// The position that a draw selects: the first one at which the sum of the
/// weights up to and with it is greater than the draw.
pub fn pick(weights: &Vec<i64>, draw: i128) -> (idx: usize)
    requires
        all_positive(weights@),
        0 <= draw < total(weights@, weights.len() as int),
    ensures
        idx < weights.len(),
        total(weights@, idx as int) <= draw < total(weights@, idx + 1),
{
    let mut running: i128 = 0;
    let mut i: usize = 0;
    loop
        invariant
            all_positive(weights@),
            0 <= draw < total(weights@, weights.len() as int),
            i < weights.len(),
            running == total(weights@, i as int),
            running <= draw,
        decreases weights.len() - i,
    {
        proof {
            lemma_total(weights@, i + 1);
            lemma_total(weights@, weights.len() as int);
            lemma_total_fits(weights@, i as int);
        }
        running = running + weights[i] as i128;
        if draw < running {
            return i;
        }
        proof {
            if i + 1 == weights.len() {
                assert(false);
            }
        }
        i += 1;
    }
}

/// The sum of all weights.
pub fn sum(weights: &Vec<i64>) -> (r: i128)
    requires
        all_positive(weights@),
    ensures
        r == total(weights@, weights.len() as int),
        r >= weights.len(),
{
    let mut running: i128 = 0;
    let mut i: usize = 0;
    while i < weights.len()
        invariant
            all_positive(weights@),
            i <= weights.len(),
            running == total(weights@, i as int),
        decreases weights.len() - i,
    {
        proof {
            lemma_total_fits(weights@, i as int);
        }
        running = running + weights[i] as i128;
        i += 1;
    }
    proof {
        lemma_total(weights@, weights.len() as int);
    }
    running
}

/// Whether a draw selects a position: the position is the first one at
/// which the sum of the weights up to and with it is greater than the draw.
pub open spec fn selects(weights: Seq<i64>, draw: int, idx: int) -> bool {
    0 <= idx < weights.len() && total(weights, idx) <= draw < total(weights, idx + 1)
}

/// Chooses a weighted random position: a number is drawn that is not
/// negative and less than the sum of the weights, and the position is the
/// one that the draw selects. So each position comes with a chance in
/// proportion to its weight.
pub fn choose_from_frequency_map(weights: &Vec<i64>) -> (idx: usize)
    requires
        weights.len() > 0,
        all_positive(weights@),
    ensures
        idx < weights.len(),
        exists|draw: int|
            0 <= draw < total(weights@, weights.len() as int) && #[trigger] selects(
                weights@,
                draw,
                idx as int,
            ),
{
    let all = sum(weights);
    let random = random_below(all);
    let idx = pick(weights, random);
    assert(selects(weights@, random as int, idx as int));
    idx
}

/// All positions of the weights in a weighted random order: one position
/// after the other is drawn from those that are left, each with a chance in
/// proportion to its weight. Every position comes once.
pub fn weighted_order(weights: &Vec<i64>) -> (order: Vec<usize>)
    requires
        all_positive(weights@),
    ensures
        order.len() == weights.len(),
        order@.no_duplicates(),
        forall|i: int| 0 <= i < order.len() ==> #[trigger] order[i] < weights.len(),
        forall|p: usize| p < weights.len() ==> order@.contains(p),
{
    let n = weights.len();
    let mut left: Vec<usize> = Vec::new();
    let mut left_weights: Vec<i64> = Vec::new();
    let mut i: usize = 0;
    while i < n
        invariant
            n == weights.len(),
            i <= n,
            left.len() == i,
            left_weights.len() == i,
            forall|k: int| 0 <= k < i ==> #[trigger] left[k] == k,
            forall|k: int| 0 <= k < i ==> #[trigger] left_weights[k] == weights[k],
        decreases n - i,
    {
        left.push(i);
        left_weights.push(weights[i]);
        i += 1;
    }
    let mut order: Vec<usize> = Vec::new();
    assert forall|p: usize| p < n implies left@.contains(p) by {
        assert(left@[p as int] == p);
    }
    while left.len() > 0
        invariant
            n == weights.len(),
            left.len() == left_weights.len(),
            order.len() + left.len() == n,
            all_positive(left_weights@),
            (order@ + left@).no_duplicates(),
            forall|k: int| 0 <= k < order.len() ==> #[trigger] order[k] < n,
            forall|k: int| 0 <= k < left.len() ==> #[trigger] left[k] < n,
            forall|p: usize| p < n ==> order@.contains(p) || left@.contains(p),
        decreases left.len(),
    {
        let at = choose_from_frequency_map(&left_weights);
        let ghost joined = order@ + left@;
        let ghost before_order = order@;
        let ghost before_left = left@;
        let position = left.remove(at);
        left_weights.remove(at);
        order.push(position);
        proof {
            let now = order@ + left@;
            assert forall|a: int, b: int| 0 <= a < now.len() && 0 <= b < now.len() && a
                != b implies now[a] != now[b] by {
                let m = before_order.len() as int;
                let a0 = if a < m {
                    a
                } else if a == m {
                    m + at
                } else if a - m - 1 < at {
                    a - 1
                } else {
                    a
                };
                let b0 = if b < m {
                    b
                } else if b == m {
                    m + at
                } else if b - m - 1 < at {
                    b - 1
                } else {
                    b
                };
                assert(now[a] == joined[a0]);
                assert(now[b] == joined[b0]);
            }
            assert forall|p: usize| p < n implies order@.contains(p) || left@.contains(p) by {
                if before_order.contains(p) {
                    let k = choose|k: int| 0 <= k < before_order.len() && before_order[k] == p;
                    assert(order@[k] == p);
                } else {
                    let k = choose|k: int| 0 <= k < before_left.len() && before_left[k] == p;
                    if k == at {
                        assert(order@[order.len() - 1] == p);
                    } else if k < at {
                        assert(left@[k] == p);
                    } else {
                        assert(left@[k - 1] == p);
                    }
                }
            }
        }
    }
    assert(order@ + left@ =~= order@);
    order
}

} // verus!
