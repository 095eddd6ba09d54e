//! The benchmark harness arithmetic: how a seed measurement is turned into
//! a measurement plan, and how the timed blocks are summarized into one
//! robust latency estimate.
//!
//! All durations are integer picoseconds. The clock reads themselves happen
//! outside this library; these functions decide how often to run and what
//! to report, and are what makes the reported number reproducible.

use vstd::prelude::*;
use vstd::seq_lib::lemma_sorted_unique;
use vstd::relations::sorted_by;
use vstd::relations::total_ordering;

verus! {

/// One second, in picoseconds.
pub const PS_PER_SECOND: u64 = 1_000_000_000_000;

/// Seed durations below one millisecond are re-measured in an amortized
/// block of `AMORTIZED_ITERS` runs.
pub const AMORTIZE_THRESHOLD_PS: u64 = 1_000_000_000;

pub const AMORTIZED_ITERS: u64 = 1000;

pub const MIN_CHUNKS: u64 = 100;

pub const MAX_CHUNKS: u64 = 10000;

/// How one measurement runs: `chunks` independently timed blocks of `chunk`
/// repetitions each.
#[derive(Clone, Copy, PartialEq, Eq, Structural, Debug)]
pub struct BenchPlan {
    pub chunk: u64,
    pub chunks: u64,
}

/// A seed duration too short for the timer's resolution: the measurement
/// must fall back to the amortized multi-iteration path.
pub fn needs_amortized(once_ps: u64) -> (r: bool)
    ensures
        r == (once_ps < AMORTIZE_THRESHOLD_PS),
{
    once_ps < AMORTIZE_THRESHOLD_PS
}

/// Repetitions per timed block: about one second's worth, and at least one.
pub open spec fn spec_chunk(evaled_ps: int) -> int {
    let c = PS_PER_SECOND as int / evaled_ps;
    if c < 1 {
        1
    } else {
        c
    }
}

/// Number of timed blocks: inversely proportional to one block's duration,
/// clamped to `[MIN_CHUNKS, MAX_CHUNKS]`.
pub open spec fn spec_chunks(evaled_ps: int) -> int {
    let raw = PS_PER_SECOND as int / (evaled_ps * spec_chunk(evaled_ps));
    if raw < MIN_CHUNKS as int {
        MIN_CHUNKS as int
    } else if raw > MAX_CHUNKS as int {
        MAX_CHUNKS as int
    } else {
        raw
    }
}

/// Turn a seed duration (one run, or an amortized average) into the
/// measurement plan.
pub fn plan_bench(evaled_ps: u64) -> (p: BenchPlan)
    requires
        evaled_ps >= 1,
    ensures
        p.chunk == spec_chunk(evaled_ps as int),
        p.chunks == spec_chunks(evaled_ps as int),
{
    let c = PS_PER_SECOND / evaled_ps;
    let chunk = if c < 1 {
        1
    } else {
        c
    };
    proof {
        crate::storage::lemma_mul_bound(
            evaled_ps as int,
            chunk as int,
            0xffff_ffff_ffff_ffff,
            0xffff_ffff_ffff_ffff,
        );
    }
    let denom: u128 = (evaled_ps as u128) * (chunk as u128);
    proof {
        assert(evaled_ps as int * chunk as int >= 1) by (nonlinear_arith)
            requires
                evaled_ps >= 1,
                chunk >= 1,
        ;
    }
    let raw: u128 = (PS_PER_SECOND as u128) / denom;
    let chunks: u64 = if raw < MIN_CHUNKS as u128 {
        MIN_CHUNKS
    } else if raw > MAX_CHUNKS as u128 {
        MAX_CHUNKS
    } else {
        raw as u64
    };
    BenchPlan { chunk, chunks }
}

pub open spec fn leq_u64() -> spec_fn(u64, u64) -> bool {
    |a: u64, b: u64| a <= b
}

/// The harness's robust estimate: the first-quartile element of the sorted
/// per-repetition block averages.
pub open spec fn spec_summarize(measures: Seq<u64>) -> int {
    measures.sort_by(leq_u64())[measures.len() as int / 4] as int
}

/// Sort the block averages and return the value at the first quartile: a
/// robust low-noise estimate, since interference predominantly increases
/// measured latency.
pub fn summarize(measures: &Vec<u64>) -> (q1: u64)
    requires
        measures@.len() >= 1,
    ensures
        q1 as int == spec_summarize(measures@),
{
    broadcast use vstd::seq_lib::group_to_multiset_ensures;

    let mut rest: Vec<u64> = Vec::new();
    let mut i: usize = 0;
    while i < measures.len()
        invariant
            i <= measures@.len(),
            rest@ == measures@.subrange(0, i as int),
        decreases measures@.len() - i,
    {
        rest.push(measures[i]);
        proof {
            assert(rest@ =~= measures@.subrange(0, i + 1));
        }
        i = i + 1;
    }
    proof {
        assert(measures@.subrange(0, measures@.len() as int) =~= measures@);
    }
    let mut out: Vec<u64> = Vec::new();
    while rest.len() > 0
        invariant
            out@.to_multiset().add(rest@.to_multiset()) =~= measures@.to_multiset(),
            sorted_by(out@, leq_u64()),
            forall|a: int, b: int|
                0 <= a < out@.len() && 0 <= b < rest@.len() ==> out@[a] <= rest@[b],
        decreases rest@.len(),
    {
        let mut best: usize = 0;
        let mut j: usize = 1;
        while j < rest.len()
            invariant
                rest@.len() >= 1,
                best < j <= rest@.len(),
                forall|q: int| 0 <= q < j ==> rest@[best as int] <= rest@[q],
            decreases rest@.len() - j,
        {
            if rest[j] < rest[best] {
                best = j;
            }
            j = j + 1;
        }
        let ghost prerest = rest@;
        let v = rest.remove(best);
        let ghost preout = out@;
        out.push(v);
        proof {
            broadcast use vstd::multiset::group_multiset_axioms;

            preout.to_multiset_ensures();
            prerest.to_multiset_ensures();
            assert(sorted_by(out@, leq_u64())) by {
                assert(forall|a: int, b: int|
                    0 <= a <= b < out@.len() ==> leq_u64()(out@[a], out@[b]));
            }
            assert(out@.to_multiset() =~= preout.to_multiset().insert(v));
            assert(rest@.to_multiset() =~= prerest.to_multiset().remove(v));
            assert(prerest.contains(v));
            assert(prerest.to_multiset().count(v) > 0);
            assert(out@.to_multiset().add(rest@.to_multiset()) =~= measures@.to_multiset());
        }
    }
    proof {
        assert(rest@.to_multiset().len() == 0);
        assert(out@.to_multiset() =~= measures@.to_multiset());
        measures@.lemma_sort_by_ensures(leq_u64());
        assert(total_ordering(leq_u64()));
        lemma_sorted_unique(out@, measures@.sort_by(leq_u64()), leq_u64());
        assert(out@.len() == measures@.len()) by {
            assert(out@.to_multiset().len() == measures@.to_multiset().len());
        }
    }
    let q = out.len() / 4;
    out[q]
}

/// With noise-free measurements the estimate is exact: if every block
/// average equals the workload's true cost, the summary is that cost.
pub proof fn lemma_noise_free_exact(measures: Seq<u64>, tval: u64)
    requires
        measures.len() >= 1,
        forall|q: int| 0 <= q < measures.len() ==> measures[q] == tval,
    ensures
        spec_summarize(measures) == tval as int,
{
    broadcast use vstd::seq_lib::group_to_multiset_ensures;

    measures.lemma_sort_by_ensures(leq_u64());
    let s = measures.sort_by(leq_u64());
    assert(s.len() == measures.len()) by {
        assert(s.to_multiset().len() == measures.to_multiset().len());
    }
    let ix = measures.len() as int / 4;
    assert(0 <= ix < s.len()) by {
        vstd::arithmetic::div_mod::lemma_fundamental_div_mod(measures.len() as int, 4);
    }
    assert(s.to_multiset().contains(s[ix]));
    assert(measures.to_multiset().contains(s[ix]));
    assert(measures.contains(s[ix]));
}

/// The harness's reported number: the quartile estimate less the one-time
/// noise-floor baseline. May be negative, as the original measurement may
/// sit below the baseline.
pub fn bias_correct(estimate_ps: u64, noise_floor_ps: u64) -> (r: i64)
    requires
        estimate_ps <= i64::MAX,
        noise_floor_ps <= i64::MAX,
    ensures
        r == estimate_ps - noise_floor_ps,
{
    (estimate_ps as i64) - (noise_floor_ps as i64)
}

} // verus!
