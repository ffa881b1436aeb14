//! Post-session statistics: median and mean response latency, accuracy
//! rate, and the summary handed to the presentation layer when a session
//! ends.

use vstd::prelude::*;
use vstd::relations::{sorted_by, total_ordering};
use vstd::seq_lib::lemma_sorted_unique;

use crate::session::State;

verus! {

/// The ordering latencies are sorted by.
pub open spec fn latency_leq() -> spec_fn(u64, u64) -> bool {
    |a: u64, b: u64| a <= b
}

pub proof fn lemma_latency_leq_total()
    ensures
        total_ordering(latency_leq()),
{
}

/// The latency sequence in ascending order.
pub open spec fn sorted_of(s: Seq<u64>) -> Seq<u64> {
    s.sort_by(latency_leq())
}

/// The median latency: the middle element of the sorted sequence; for even
/// lengths, the mean of the two middle elements, truncated.
pub open spec fn median_spec(s: Seq<u64>) -> u64
    recommends
        s.len() > 0,
{
    let t = sorted_of(s);
    let n = t.len() as int;
    if n % 2 == 0 {
        ((t[n / 2 - 1] + t[n / 2]) / 2) as u64
    } else {
        t[n / 2]
    }
}

/// Sorts latencies ascending by repeated insertion into a sorted prefix.
pub fn sort_u64(v: Vec<u64>) -> (r: Vec<u64>)
    ensures
        r@ == sorted_of(v@),
        r@.len() == v@.len(),
{
    let mut out: Vec<u64> = Vec::new();
    let mut i: usize = 0;
    proof {
        assert(v@.subrange(0, 0) =~= Seq::<u64>::empty());
        Seq::<u64>::empty().to_multiset_ensures();
    }
    while i < v.len()
        invariant
            i <= v@.len(),
            out@.len() == i,
            sorted_by(out@, latency_leq()),
            out@.to_multiset() == v@.subrange(0, i as int).to_multiset(),
        decreases v@.len() - i,
    {
        let x = v[i];
        let mut j: usize = 0;
        while j < out.len() && out[j] <= x
            invariant
                j <= out@.len(),
                forall|k: int| 0 <= k < j ==> out@[k] <= x,
            decreases out@.len() - j,
        {
            j = j + 1;
        }
        let ghost prev = out@;
        out.insert(j, x);
        proof {
            prev.insert_ensures(j as int, x);
            assert(sorted_by(out@, latency_leq())) by {
                assert forall|a: int, b: int| 0 <= a < b < out@.len() implies latency_leq()(
                    out@[a],
                    out@[b],
                ) by {
                    if b < j {
                        assert(out@[a] == prev[a] && out@[b] == prev[b]);
                    } else if b == j {
                        assert(out@[a] == prev[a] && out@[b] == x);
                    } else if a < j {
                        assert(out@[a] == prev[a] && out@[b] == prev[b - 1]);
                        if j < prev.len() {
                            assert(x < prev[j as int]);
                        }
                    } else if a == j {
                        assert(out@[a] == x && out@[b] == prev[b - 1]);
                        assert(x < prev[j as int]);
                        assert(latency_leq()(prev[j as int], prev[b - 1]) || j == b - 1);
                    } else {
                        assert(out@[a] == prev[a - 1] && out@[b] == prev[b - 1]);
                    }
                }
            }
            vstd::seq_lib::to_multiset_insert(prev, j as int, x);
            assert(v@.subrange(0, (i + 1) as int) =~= v@.subrange(0, i as int).push(
                v@[i as int],
            ));
            v@.subrange(0, i as int).to_multiset_ensures();
        }
        i = i + 1;
    }
    proof {
        assert(v@.subrange(0, v@.len() as int) =~= v@);
        v@.lemma_sort_by_ensures(latency_leq());
        lemma_latency_leq_total();
        lemma_sorted_unique(out@, sorted_of(v@), latency_leq());
    }
    out
}

/// Computes the median response latency of a non-empty latency vector.
pub fn compute_median(times: Vec<u64>) -> (r: u64)
    requires
        times@.len() > 0,
    ensures
        r == median_spec(times@),
{
    let ghost orig = times@;
    let sorted = sort_u64(times);
    let n = sorted.len();
    if n % 2 == 0 {
        let a = sorted[n / 2 - 1];
        let b = sorted[n / 2];
        ((a as u128 + b as u128) / 2) as u64
    } else {
        sorted[n / 2]
    }
}

/// The sum of a latency sequence.
pub open spec fn sum_spec(s: Seq<u64>) -> int
    decreases s.len(),
{
    if s.len() == 0 {
        0
    } else {
        sum_spec(s.drop_last()) + s.last()
    }
}

/// The mean latency, truncated to a whole number of milliseconds.
pub open spec fn mean_spec(s: Seq<u64>) -> int
    recommends
        s.len() > 0,
{
    sum_spec(s) / (s.len() as int)
}

/// Computes the mean response latency of a non-empty latency vector.
pub fn compute_mean(times: &Vec<u64>) -> (r: u64)
    requires
        times@.len() > 0,
    ensures
        r == mean_spec(times@),
{
    let mut acc: u128 = 0;
    let mut i: usize = 0;
    while i < times.len()
        invariant
            i <= times@.len(),
            acc == sum_spec(times@.subrange(0, i as int)),
            acc <= (i as int) * (u64::MAX as int),
        decreases times@.len() - i,
    {
        proof {
            assert(times@.subrange(0, (i + 1) as int).drop_last() =~= times@.subrange(
                0,
                i as int,
            ));
        }
        acc = acc + (times[i] as u128);
        i = i + 1;
    }
    proof {
        assert(times@.subrange(0, times@.len() as int) =~= times@);
        vstd::arithmetic::div_mod::lemma_multiply_divide_le(
            acc as int,
            times@.len() as int,
            u64::MAX as int,
        );
    }
    (acc / (times.len() as u128)) as u64
}

/// The accuracy rate as a whole-number percentage of attempts answered
/// correctly, defined as zero when no attempts were made.
pub open spec fn accuracy_spec(correct: nat, incorrect: nat) -> int {
    if correct + incorrect == 0 {
        0
    } else {
        100 * (correct as int) / (correct + incorrect) as int
    }
}

/// Computes the accuracy percentage, avoiding division by zero.
pub fn accuracy_rate(correct: u64, incorrect: u64) -> (r: u64)
    requires
        100 * correct <= u64::MAX,
        correct + incorrect <= u64::MAX,
    ensures
        r == accuracy_spec(correct as nat, incorrect as nat),
        r <= 100,
{
    let total = correct + incorrect;
    if total == 0 {
        0
    } else {
        proof {
            vstd::arithmetic::div_mod::lemma_multiply_divide_le(
                100 * (correct as int),
                total as int,
                100,
            );
            vstd::arithmetic::mul::lemma_mul_inequality(correct as int, total as int, 100);
            vstd::arithmetic::mul::lemma_mul_is_commutative(total as int, 100);
        }
        (100 * correct) / total
    }
}

/// Post-session statistics: the final score and counters, the median
/// response latency, and the accuracy percentage.
#[derive(Clone, Copy, PartialEq, Eq, Structural, Debug)]
pub struct Summary {
    pub score: i64,
    pub correct: u64,
    pub incorrect: u64,
    pub total: u64,
    pub median_ms: u64,
    pub accuracy_pct: u64,
}

/// Consumes the final session state and computes its statistics: the
/// median latency (zero when no round was timed) and the accuracy
/// percentage (zero when no attempts were made).
pub fn process_results(s: State) -> (sum: Summary)
    requires
        s.wf(),
    ensures
        sum.score == s@.score,
        sum.correct == s@.correct,
        sum.incorrect == s@.incorrect,
        sum.total == s@.correct + s@.incorrect,
        sum.median_ms == if s@.times.len() == 0 {
            0u64
        } else {
            median_spec(s@.times)
        },
        sum.accuracy_pct == accuracy_spec(s@.correct, s@.incorrect),
{
    let total = s.correct + s.incorrect;
    let acc = accuracy_rate(s.correct, s.incorrect);
    let median = if s.times.len() != 0 {
        compute_median(s.times)
    } else {
        0
    };
    Summary {
        score: s.score,
        correct: s.correct,
        incorrect: s.incorrect,
        total,
        median_ms: median,
        accuracy_pct: acc,
    }
}

} // verus!
