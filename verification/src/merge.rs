//! Planning the merge of angularly close diffraction peaks.
//!
//! The merger scans reflections sorted by angle and coalesces a run of
//! consecutive reflections that all lie within the tolerance of the run's
//! first member.  Which neighbours are close is a question about measured
//! angles and is decided by the caller; it hands this module one flag per
//! adjacent pair (`true` when reflection `i + 1` is within tolerance of
//! the current run's first member).  This module turns those decisions
//! into the merge plan — the index runs — and gathers the contributing
//! index lists, and it proves that merging conserves any additive
//! quantity.

use vstd::prelude::*;

verus! {

/// `runs` splits `0 .. n` into consecutive non-empty index ranges, given
/// as (start, length) pairs.
pub open spec fn valid_runs(runs: Seq<(usize, usize)>, n: int) -> bool {
    &&& (runs.len() == 0 <==> n == 0)
    &&& forall|j: int| 0 <= j < runs.len() ==> (#[trigger] runs[j]).1 >= 1
    &&& (runs.len() > 0 ==> runs[0].0 == 0)
    &&& forall|j: int|
        0 <= j < runs.len() - 1 ==> (#[trigger] runs[j + 1]).0 == runs[j].0 + runs[j].1
    &&& (runs.len() > 0 ==> runs[runs.len() - 1].0 + runs[runs.len() - 1].1 == n)
}

/// Every run of a valid plan stays inside `0 .. n`.
pub proof fn lemma_run_in_bounds(runs: Seq<(usize, usize)>, n: int, j: int)
    requires
        valid_runs(runs, n),
        0 <= j < runs.len(),
    ensures
        runs[j].0 + runs[j].1 <= n,
    decreases runs.len() - j,
{
    if j == runs.len() - 1 {
    } else {
        lemma_run_in_bounds(runs, n, j + 1);
    }
}

/// Turn the closeness decisions for `flags@.len() + 1` reflections into
/// the merge plan: each run starts at the reflection whose flag broke the
/// chain, and runs cover the reflections in order.
pub fn merge_runs(flags: &Vec<bool>) -> (runs: Vec<(usize, usize)>)
    requires
        flags@.len() < usize::MAX,
    ensures
        valid_runs(runs@, flags@.len() + 1int),
        // a run boundary sits exactly where a flag is false
        forall|j: int| 1 <= j < runs@.len() ==> !flags@[(#[trigger] runs@[j]).0 - 1],
        // inside a run every flag is true
        forall|j: int, i: int|
            #![trigger runs@[j], flags@[i - 1]]
            0 <= j < runs@.len() && runs@[j].0 < i < runs@[j].0 + runs@[j].1 ==> flags@[i - 1],
{
    let n = flags.len() + 1;
    let mut runs: Vec<(usize, usize)> = Vec::new();
    let mut start: usize = 0;
    let mut i: usize = 0;
    while i < flags.len()
        invariant
            n == flags@.len() + 1,
            start <= i <= flags@.len(),
            // the finished runs split 0 .. start
            runs@.len() == 0 <==> start == 0,
            forall|j: int| 0 <= j < runs@.len() ==> (#[trigger] runs@[j]).1 >= 1,
            runs@.len() > 0 ==> runs@[0].0 == 0,
            forall|j: int|
                0 <= j < runs@.len() - 1 ==> (#[trigger] runs@[j + 1]).0 == runs@[j].0
                    + runs@[j].1,
            runs@.len() > 0 ==> runs@[runs@.len() - 1].0 + runs@[runs@.len() - 1].1 == start,
            forall|j: int| 1 <= j < runs@.len() ==> !flags@[(#[trigger] runs@[j]).0 - 1],
            forall|j: int, i0: int|
                #![trigger runs@[j], flags@[i0 - 1]]
                0 <= j < runs@.len() && runs@[j].0 < i0 < runs@[j].0 + runs@[j].1
                    ==> flags@[i0 - 1],
            start > 0 ==> !flags@[start - 1],
            // the current run covers start ..= i
            forall|k: int| start <= k < i ==> flags@[k],
        decreases flags@.len() - i,
    {
        if !flags[i] {
            runs.push((start, i + 1 - start));
            start = i + 1;
        }
        i = i + 1;
    }
    runs.push((start, n - start));
    runs
}

/// Gather the index lists contributing to each merged peak: run `j` of
/// the plan takes the lists of the reflections it covers, in order.
pub fn group_hkls_by_runs(hkls: &Vec<Vec<i32>>, runs: &Vec<(usize, usize)>) -> (out: Vec<
    Vec<Vec<i32>>,
>)
    requires
        valid_runs(runs@, hkls@.len() as int),
    ensures
        out@.len() == runs@.len(),
        forall|j: int|
            0 <= j < runs@.len() ==> (#[trigger] out@[j])@.len() == runs@[j].1,
        forall|j: int, k: int|
            #![trigger out@[j]@[k]]
            0 <= j < runs@.len() && 0 <= k < runs@[j].1 ==> out@[j]@[k]@
                == hkls@[runs@[j].0 + k]@,
{
    let total = hkls.len();
    let mut out: Vec<Vec<Vec<i32>>> = Vec::new();
    let mut j: usize = 0;
    while j < runs.len()
        invariant
            total == hkls@.len(),
            valid_runs(runs@, hkls@.len() as int),
            j <= runs@.len(),
            out@.len() == j,
            forall|l: int| 0 <= l < j ==> (#[trigger] out@[l])@.len() == runs@[l].1,
            forall|l: int, k: int|
                #![trigger out@[l]@[k]]
                0 <= l < j && 0 <= k < runs@[l].1 ==> out@[l]@[k]@
                    == hkls@[runs@[l].0 + k]@,
        decreases runs@.len() - j,
    {
        proof {
            lemma_run_in_bounds(runs@, hkls@.len() as int, j as int);
        }
        let (s, l) = runs[j];
        let mut group: Vec<Vec<i32>> = Vec::new();
        let mut k: usize = 0;
        while k < l
            invariant
                total == hkls@.len(),
                valid_runs(runs@, hkls@.len() as int),
                j < runs@.len(),
                s == runs@[j as int].0,
                l == runs@[j as int].1,
                s + l <= hkls@.len(),
                k <= l,
                group@.len() == k,
                forall|k0: int| 0 <= k0 < k ==> (#[trigger] group@[k0])@ == hkls@[s + k0]@,
            decreases l - k,
        {
            let mut item: Vec<i32> = Vec::new();
            let src = &hkls[s + k];
            let mut t: usize = 0;
            while t < src.len()
                invariant
                    t <= src@.len(),
                    item@ == src@.take(t as int),
                decreases src@.len() - t,
            {
                item.push(src[t]);
                t = t + 1;
            }
            proof {
                assert(src@.take(src@.len() as int) =~= src@);
            }
            group.push(item);
            k = k + 1;
        }
        out.push(group);
        j = j + 1;
    }
    out
}

/// The sum of a sequence of integers.
pub open spec fn seq_sum(s: Seq<int>) -> int
    decreases s.len(),
{
    if s.len() == 0 {
        0
    } else {
        seq_sum(s.drop_last()) + s.last()
    }
}

/// The sum, over the runs of a plan, of the sums of the covered values.
pub open spec fn runs_sum(vals: Seq<int>, runs: Seq<(usize, usize)>) -> int
    decreases runs.len(),
{
    if runs.len() == 0 {
        0
    } else {
        runs_sum(vals, runs.drop_last()) + seq_sum(
            vals.subrange(
                runs.last().0 as int,
                runs.last().0 + runs.last().1,
            ),
        )
    }
}

proof fn lemma_seq_sum_concat(a: Seq<int>, b: Seq<int>)
    ensures
        seq_sum(a + b) == seq_sum(a) + seq_sum(b),
    decreases b.len(),
{
    if b.len() == 0 {
        assert(a + b =~= a);
    } else {
        assert((a + b).drop_last() =~= a + b.drop_last());
        assert((a + b).last() == b.last());
        lemma_seq_sum_concat(a, b.drop_last());
    }
}

proof fn lemma_runs_sum_prefix(vals: Seq<int>, runs: Seq<(usize, usize)>, m: int)
    requires
        valid_runs(runs, m),
        0 <= m <= vals.len(),
    ensures
        runs_sum(vals, runs) == seq_sum(vals.subrange(0, m)),
    decreases runs.len(),
{
    if runs.len() == 0 {
        assert(vals.subrange(0, 0) =~= Seq::<int>::empty());
    } else {
        let last = runs.last();
        let prefix = runs.drop_last();
        assert(forall|j2: int| 0 <= j2 < prefix.len() ==> #[trigger] prefix[j2] == runs[j2]);
        assert forall|j2: int| 0 <= j2 < prefix.len() implies (#[trigger] prefix[j2]).1 >= 1 by {
            assert(runs[j2].1 >= 1);
        }
        assert forall|j2: int|
            0 <= j2 < prefix.len() - 1 implies (#[trigger] prefix[j2 + 1]).0 == prefix[j2].0
            + prefix[j2].1 by {
            assert(runs[j2 + 1].0 == runs[j2].0 + runs[j2].1);
        }
        if runs.len() > 1 {
            assert(runs[runs.len() - 2 + 1].0 == runs[runs.len() - 2].0 + runs[runs.len() - 2].1);
            assert(runs[runs.len() - 2].1 >= 1);
            assert(last.0 >= 1);
            assert(prefix[prefix.len() - 1].0 + prefix[prefix.len() - 1].1 == last.0);
        }
        assert(valid_runs(prefix, last.0 as int));
        lemma_runs_sum_prefix(vals, prefix, last.0 as int);
        assert(vals.subrange(0, last.0 as int) + vals.subrange(last.0 as int, m) =~= vals.subrange(
            0,
            m,
        ));
        lemma_seq_sum_concat(
            vals.subrange(0, last.0 as int),
            vals.subrange(last.0 as int, m),
        );
    }
}

/// Merging conserves totals: for any per-reflection additive quantity,
/// the per-peak sums of a valid merge plan add up to the overall sum.
pub proof fn lemma_merge_conserves_sum(vals: Seq<int>, runs: Seq<(usize, usize)>)
    requires
        valid_runs(runs, vals.len() as int),
    ensures
        runs_sum(vals, runs) == seq_sum(vals),
{
    lemma_runs_sum_prefix(vals, runs, vals.len() as int);
    assert(vals.subrange(0, vals.len() as int) =~= vals);
}

} // verus!
