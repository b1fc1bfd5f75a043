//! Choosing which snapshots a retention plan keeps.
use vstd::prelude::*;

verus! {

/// Keep `instances` snapshots spaced `interval` seconds apart.
#[derive(Clone, Copy, Debug, PartialEq, Eq)]
pub struct Period {
    pub instances: i32,
    pub interval: i64,
}

/// Buckets of snapshots to keep.
#[derive(Clone, Debug, PartialEq, Eq)]
pub struct RetentionPlan {
    pub periods: Vec<Period>,
}

impl RetentionPlan {
    /// Hourly snapshots for a day and daily ones for a week.
    pub fn default() -> (r: RetentionPlan)
        ensures
            r.periods@ == seq![Period { instances: 24, interval: 3600 }, Period { instances: 7, interval: 86400 }],
    {
        let mut periods: Vec<Period> = Vec::new();
        periods.push(Period { instances: 24, interval: 3600 });
        periods.push(Period { instances: 7, interval: 86400 });
        assert(periods@ =~= seq![Period { instances: 24, interval: 3600 }, Period { instances: 7, interval: 86400 }]);
        RetentionPlan { periods }
    }
}

/// The `k`-th desired time of a bucket: `k` intervals before `now`.
pub open spec fn target_time(now: int, p: Period, k: int) -> int {
    now - k * p.interval
}

/// Snapshot `i` is the first, in order, created strictly after `t`.
pub open spec fn first_after(times: Seq<i64>, t: int, i: int) -> bool {
    &&& 0 <= i < times.len()
    &&& times[i] > t
    &&& forall|j: int| 0 <= j < i ==> times[j] <= t
}

/// Snapshot `i` is kept: it is the newest, or the first created after one of
/// the plan's desired times.
pub open spec fn kept_spec(times: Seq<i64>, now: int, plan: Seq<Period>, i: int) -> bool {
    ||| i == times.len() - 1
    ||| exists|b: int, k: int|
        0 <= b < plan.len() && 1 <= k < plan[b].instances && #[trigger] first_after(
            times,
            target_time(now, plan[b], k),
            i,
        )
}

/// The desired times handled so far: all of buckets before `b`, and those of
/// bucket `b` before `k`.
pub open spec fn kept_upto(times: Seq<i64>, now: int, plan: Seq<Period>, b: int, k: int, i: int) -> bool {
    ||| i == times.len() - 1
    ||| exists|bb: int, kk: int|
        0 <= bb < plan.len() && 1 <= kk < plan[bb].instances && (bb < b || (bb == b && kk < k))
            && #[trigger] first_after(times, target_time(now, plan[bb], kk), i)
}

pub open spec fn count_true(s: Seq<bool>) -> int
    decreases s.len(),
{
    if s.len() == 0 {
        0
    } else {
        count_true(s.drop_last()) + if s.last() { 1int } else { 0 }
    }
}

/// Which snapshots (given by creation time, in seconds, in repository order)
/// to keep at time `now` under `plan`, and whether keeping them exceeds the
/// budget of snapshots left after deleting `force_delete` of them.
pub fn determine_backups_to_keep(times: &Vec<i64>, now: i64, plan: &RetentionPlan, force_delete: i32) -> (r: (Vec<bool>, bool))
    ensures
        r.0@.len() == times@.len(),
        forall|i: int| 0 <= i < times@.len() ==> r.0@[i] == kept_spec(times@, now as int, plan.periods@, i),
        r.1 == (count_true(r.0@) > times@.len() - force_delete),
{
    let n = times.len();
    let mut keep: Vec<bool> = Vec::new();
    let mut i: usize = 0;
    while i < n
        invariant
            i <= n,
            n == times@.len(),
            keep@.len() == i,
            forall|j: int| 0 <= j < i ==> keep@[j] == (j == n - 1),
        decreases n - i,
    {
        keep.push(i + 1 == n);
        i = i + 1;
    }
    let ghost ps = plan.periods@;
    let mut b: usize = 0;
    while b < plan.periods.len()
        invariant
            n == times@.len(),
            keep@.len() == n,
            ps == plan.periods@,
            b <= ps.len(),
            forall|j: int| 0 <= j < n ==> keep@[j] == kept_upto(times@, now as int, ps, b as int, 0, j),
        decreases ps.len() - b,
    {
        let p = plan.periods[b];
        let mut k: i32 = 1;
        proof {
            assert forall|j: int| 0 <= j < n implies keep@[j] == kept_upto(times@, now as int, ps, b as int, 1, j) by {
                if kept_upto(times@, now as int, ps, b as int, 1, j) && j != n - 1 {
                    let (bb, kk) = choose|bb: int, kk: int|
                        0 <= bb < ps.len() && 1 <= kk < ps[bb].instances && (bb < b || (bb == b && kk < 1))
                            && #[trigger] first_after(times@, target_time(now as int, ps[bb], kk), j);
                    assert(kept_upto(times@, now as int, ps, b as int, 0, j));
                }
            }
        }
        while k < p.instances
            invariant
                n == times@.len(),
                keep@.len() == n,
                ps == plan.periods@,
                b < ps.len(),
                p == ps[b as int],
                1 <= k,
                forall|j: int| 0 <= j < n ==> keep@[j] == kept_upto(times@, now as int, ps, b as int, k as int, j),
            decreases p.instances - k,
        {
            proof {
                let kk = k as int;
                let iv = p.interval as int;
                assert(-0x8000_0000_0000_0000_0000_0000 <= kk * iv <= 0x8000_0000_0000_0000_0000_0000) by (nonlinear_arith)
                    requires
                        1 <= kk <= 0x7fff_ffff,
                        -0x8000_0000_0000_0000 <= iv <= 0x7fff_ffff_ffff_ffff,
                ;
            }
            let t: i128 = now as i128 - (k as i128) * (p.interval as i128);
            assert(t == target_time(now as int, p, k as int));
            let mut j: usize = 0;
            while j < n && (times[j] as i128) <= t
                invariant
                    n == times@.len(),
                    j <= n,
                    forall|m: int| 0 <= m < j ==> times@[m] <= t,
                decreases n - j,
            {
                j = j + 1;
            }
            if j < n {
                keep.set(j, true);
            }
            proof {
                assert forall|m: int| 0 <= m < n implies keep@[m] == kept_upto(times@, now as int, ps, b as int, k + 1, m) by {
                    if m == j && j < n {
                        assert(first_after(times@, target_time(now as int, ps[b as int], k as int), m));
                    }
                    if kept_upto(times@, now as int, ps, b as int, k + 1, m) && m != n - 1 {
                        let (bb, kk) = choose|bb: int, kk: int|
                            0 <= bb < ps.len() && 1 <= kk < ps[bb].instances && (bb < b || (bb == b && kk < k + 1))
                                && #[trigger] first_after(times@, target_time(now as int, ps[bb], kk), m);
                        if !(bb == b && kk == k) {
                            assert(kept_upto(times@, now as int, ps, b as int, k as int, m));
                        } else {
                            assert(m == j);
                        }
                    }
                }
            }
            k = k + 1;
        }
        proof {
            assert forall|j: int| 0 <= j < n implies keep@[j] == kept_upto(times@, now as int, ps, b + 1, 0, j) by {
                if kept_upto(times@, now as int, ps, b + 1, 0, j) && j != n - 1 {
                    let (bb, kk) = choose|bb: int, kk: int|
                        0 <= bb < ps.len() && 1 <= kk < ps[bb].instances && (bb < b + 1 || (bb == b + 1 && kk < 0))
                            && #[trigger] first_after(times@, target_time(now as int, ps[bb], kk), j);
                    assert(kept_upto(times@, now as int, ps, b as int, k as int, j));
                }
                if kept_upto(times@, now as int, ps, b as int, k as int, j) && j != n - 1 {
                    let (bb, kk) = choose|bb: int, kk: int|
                        0 <= bb < ps.len() && 1 <= kk < ps[bb].instances && (bb < b || (bb == b && kk < k))
                            && #[trigger] first_after(times@, target_time(now as int, ps[bb], kk), j);
                    assert(kept_upto(times@, now as int, ps, b + 1, 0, j));
                }
            }
        }
        b = b + 1;
    }
    let mut count: usize = 0;
    let mut m: usize = 0;
    while m < n
        invariant
            m <= n,
            keep@.len() == n,
            count == count_true(keep@.subrange(0, m as int)),
            count <= m,
        decreases n - m,
    {
        proof {
            assert(keep@.subrange(0, m + 1).drop_last() =~= keep@.subrange(0, m as int));
        }
        if keep[m] {
            count = count + 1;
        }
        m = m + 1;
    }
    proof {
        assert(keep@.subrange(0, n as int) =~= keep@);
    }
    let over = (count as i128) > (n as i128) - (force_delete as i128);
    (keep, over)
}

/// Plan `a` refines plan `b`: the same buckets, each with at least as many instances.
pub open spec fn refines(a: Seq<Period>, b: Seq<Period>) -> bool {
    &&& a.len() == b.len()
    &&& forall|i: int| 0 <= i < a.len() ==> (#[trigger] a[i]).interval == b[i].interval && a[i].instances >= b[i].instances
}

/// A plan that refines another keeps every snapshot that the other keeps.
pub proof fn lemma_retention_monotone(times: Seq<i64>, now: int, a: Seq<Period>, b: Seq<Period>)
    requires
        refines(a, b),
    ensures
        forall|i: int| kept_spec(times, now, b, i) ==> kept_spec(times, now, a, i),
{
    assert forall|i: int| kept_spec(times, now, b, i) implies kept_spec(times, now, a, i) by {
        if i != times.len() - 1 {
            let (bb, kk) = choose|bb: int, kk: int|
                0 <= bb < b.len() && 1 <= kk < b[bb].instances && #[trigger] first_after(
                    times,
                    target_time(now, b[bb], kk),
                    i,
                );
            assert(a[bb].interval == b[bb].interval);
            assert(target_time(now, a[bb], kk) == target_time(now, b[bb], kk));
            assert(first_after(times, target_time(now, a[bb], kk), i));
        }
    }
}

} // verus!
