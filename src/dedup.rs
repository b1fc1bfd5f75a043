//! Planning the deduplication of a new snapshot against older ones.
use vstd::prelude::*;

use cuckoofilter::CuckooFilter;
use std::collections::hash_map::DefaultHasher;

use crate::codec::ReadError;
use crate::interval::Interval;
use crate::log::{decode_all, decode_log, entry_views, BackupLog, BackupLogPath, FileRecord, LogEntry, Record};
use crate::stats::BackupStats;

verus! {

#[verifier::external_type_specification]
#[verifier::external_body]
#[verifier::reject_recursive_types(H)]
pub struct ExCuckooFilter<H>(CuckooFilter<H>);

/// The hashes that a filter reports as present: those whose fingerprint sits
/// in one of their two buckets (false positives included).
pub uninterp spec fn filter_hashes(f: CuckooFilter<DefaultHasher>) -> Set<u64>;

/// Relies on `CuckooFilter::with_capacity`: a new filter's buckets are empty
/// and no fingerprint equals the empty slot, so it reports nothing. The
/// capacity is rounded up to a power of two, which must fit in `usize`.
#[verifier::external_body]
fn new_filter(capacity: usize) -> (r: CuckooFilter<DefaultHasher>)
    requires
        capacity <= 0x8000_0000,
    ensures
        filter_hashes(r) == Set::<u64>::empty(),
{
    CuckooFilter::with_capacity(capacity)
}

/// Relies on `CuckooFilter::add`: on success the hash's fingerprint is in one
/// of its buckets and every fingerprint moved stays within its bucket pair, so
/// whatever was reported still is. On `NotEnoughSpace` (whose rebucketing
/// draws random slots) nothing is stated.
#[verifier::external_body]
fn filter_add(f: &mut CuckooFilter<DefaultHasher>, h: u64) -> (r: bool)
    ensures
        r ==> filter_hashes(*old(f)).insert(h).subset_of(filter_hashes(*final(f))),
{
    f.add(&h).is_ok()
}

/// Relies on `CuckooFilter::contains`: it looks for the hash's fingerprint in
/// its two buckets.
#[verifier::external_body]
fn filter_contains(f: &CuckooFilter<DefaultHasher>, h: u64) -> (r: bool)
    ensures
        r == filter_hashes(*f).contains(h),
{
    f.contains(&h)
}

#[derive(Clone, Copy)]
pub struct DeduplicationOptions {
    /// Compare contents byte for byte before linking.
    pub deep_compare: bool,
    /// Only files with equal mtimes are duplicates.
    pub preserve_mtime: bool,
    /// The least number of bytes a snapshot must have written to be deduplicated.
    pub min_bytes_for_dedup: u64,
}

/// A file that may be a duplicate: the mtime it is compared by (0 where
/// mtimes are not preserved), its size, its hash, whether it is to be replaced
/// by a link, and the index of its location.
pub type Candidate = (i64, u64, u64, bool, usize);

/// Where a candidate lies: a snapshot's index and the path within it.
#[derive(Debug, Clone, PartialEq, Eq)]
pub struct Location {
    pub snapshot: usize,
    pub path: BackupLogPath,
}

/// Replace each target by a hard link to the anchor (location indices).
#[derive(Debug, Clone, PartialEq, Eq)]
pub struct DedupJob {
    pub anchor: usize,
    pub targets: Vec<usize>,
}

impl View for DedupJob {
    type V = (usize, Seq<usize>);

    open spec fn view(&self) -> (usize, Seq<usize>) {
        (self.anchor, self.targets@)
    }
}

pub open spec fn job_views(v: Seq<DedupJob>) -> Seq<(usize, Seq<usize>)> {
    v.map_values(|j: DedupJob| j@)
}

pub open spec fn key_of(c: Candidate) -> (i64, u64, u64) {
    (c.0, c.1, c.2)
}

/// The order of candidate tuples: field by field, `false` before `true`.
pub open spec fn cand_le(a: Candidate, b: Candidate) -> bool {
    a.0 < b.0 || (a.0 == b.0 && (a.1 < b.1 || (a.1 == b.1 && (a.2 < b.2 || (a.2 == b.2 && ((!a.3
        && b.3) || (a.3 == b.3 && a.4 <= b.4)))))))
}

pub open spec fn cands_sorted(cs: Seq<Candidate>) -> bool {
    forall|i: int, j: int| 0 <= i < j < cs.len() ==> cand_le(#[trigger] cs[i], #[trigger] cs[j])
}

/// Relies on `slice::sort_unstable`: the same items, ascending by `Ord`, which
/// for tuples is lexicographic and for `bool` puts `false` first.
#[verifier::external_body]
fn sort_candidates(v: &mut Vec<Candidate>)
    ensures
        final(v)@.to_multiset() == old(v)@.to_multiset(),
        cands_sorted(final(v)@),
{
    v.sort_unstable();
}

/// The file records chosen by `hits`, each with whether it is a write.
pub open spec fn picked(es: Seq<Record>, hits: Seq<bool>) -> Seq<(FileRecord, bool)>
    decreases es.len(),
{
    if es.len() == 0 {
        Seq::empty()
    } else {
        let rest = picked(es.drop_last(), hits.drop_last());
        if hits.last() {
            match es.last() {
                Record::Write(f) => rest.push((f, true)),
                Record::Link(f) => rest.push((f, false)),
                Record::Delete { .. } => rest,
            }
        } else {
            rest
        }
    }
}

pub open spec fn candidate_of(f: FileRecord, wants: bool, preserve_mtime: bool, loc: int) -> Candidate {
    (if preserve_mtime { f.mtime } else { 0 }, f.size, f.xxh3, wants, loc as usize)
}

/// `hits` marks exactly the file records whose hash the filter reports.
pub open spec fn hits_exact(es: Seq<Record>, hits: Seq<bool>, held: Set<u64>) -> bool {
    &&& hits.len() == es.len()
    &&& forall|k: int|
        0 <= k < es.len() ==> match #[trigger] es[k] {
            Record::Write(f) => hits[k] == held.contains(f.xxh3),
            Record::Link(f) => hits[k] == held.contains(f.xxh3),
            Record::Delete { .. } => !hits[k],
        }
}

pub open spec fn location_views(v: Seq<Location>) -> Seq<(usize, Seq<u8>)> {
    v.map_values(|l: Location| (l.snapshot, l.path@))
}

/// The candidates that a log's records give, where `hits` marks the records
/// that met the filter.
pub open spec fn candidates_from(
    es: Seq<Record>,
    hits: Seq<bool>,
    wants: bool,
    preserve_mtime: bool,
    base: int,
) -> Seq<Candidate> {
    picked(es, hits).map(
        |i: int, x: (FileRecord, bool)| candidate_of(x.0, x.1 && wants, preserve_mtime, base + i),
    )
}

/// The locations of the files that `hits` picks from snapshot `snapshot`.
pub open spec fn places_from(es: Seq<Record>, hits: Seq<bool>, snapshot: usize) -> Seq<(usize, Seq<u8>)> {
    picked(es, hits).map(|i: int, x: (FileRecord, bool)| (snapshot, x.0.path))
}

/// Adds a candidate for each write or link record of snapshot `snapshot`
/// whose hash the filter reports, with its location. A write wants
/// deduplication where `set_wants_dedup` says so; a link never does.
fn push_all_matching_files(
    entries: &Vec<LogEntry>,
    snapshot: usize,
    filter: &CuckooFilter<DefaultHasher>,
    candidates: &mut Vec<Candidate>,
    locations: &mut Vec<Location>,
    preserve_mtime: bool,
    set_wants_dedup: bool,
)
    ensures
        exists|hits: Seq<bool>|
            #[trigger] hits_exact(entry_views(entries@), hits, filter_hashes(*filter))
                && final(candidates)@ == old(candidates)@ + candidates_from(
                entry_views(entries@),
                hits,
                set_wants_dedup,
                preserve_mtime,
                old(locations)@.len() as int,
            ) && location_views(final(locations)@) == location_views(old(locations)@) + places_from(
                entry_views(entries@),
                hits,
                snapshot,
            ),
{
    let ghost es = entry_views(entries@);
    let ghost base: int = locations@.len() as int;
    let ghost mut hits: Seq<bool> = Seq::empty();
    let mut k: usize = 0;
    while k < entries.len()
        invariant
            es == entry_views(entries@),
            base == old(locations)@.len(),
            k <= entries.len(),
            hits.len() == k,
            hits_exact(es.subrange(0, k as int), hits, filter_hashes(*filter)),
            candidates@ == old(candidates)@ + candidates_from(
                es.subrange(0, k as int),
                hits,
                set_wants_dedup,
                preserve_mtime,
                base,
            ),
            location_views(locations@) == location_views(old(locations)@) + places_from(
                es.subrange(0, k as int),
                hits,
                snapshot,
            ),
            locations@.len() == base + picked(es.subrange(0, k as int), hits).len(),
        decreases entries.len() - k,
    {
        let ghost prev_p = picked(es.subrange(0, k as int), hits);
        let ghost old_c = candidates@;
        let ghost old_l = locations@;
        let (file, write) = match &entries[k] {
            LogEntry::Write(f) => (Some(f), true),
            LogEntry::Link(f) => (Some(f), false),
            LogEntry::Delete(_) => (None, false),
        };
        let hit = match file {
            Some(f) => filter_contains(filter, f.xxh3),
            None => false,
        };
        if hit {
            let f = file.unwrap();
            let loc = locations.len();
            candidates.push((if preserve_mtime { f.mtime } else { 0 }, f.size, f.xxh3, write && set_wants_dedup, loc));
            locations.push(Location { snapshot, path: f.path.duplicate() });
        }
        proof {
            let sub = es.subrange(0, k + 1);
            let nh = hits.push(hit);
            assert(sub.drop_last() =~= es.subrange(0, k as int));
            assert(nh.drop_last() =~= hits);
            assert(es[k as int] == entries@[k as int]@);
            let p = picked(sub, nh);
            if hit {
                assert(p == prev_p.push((entries@[k as int]@.file_of(), write))) by {
                    match es[k as int] {
                        Record::Write(f) => {},
                        Record::Link(f) => {},
                        Record::Delete { .. } => {},
                    }
                }
                assert(candidates_from(sub, nh, set_wants_dedup, preserve_mtime, base)
                    =~= candidates_from(es.subrange(0, k as int), hits, set_wants_dedup, preserve_mtime, base).push(
                        candidate_of(p.last().0, write && set_wants_dedup, preserve_mtime, base + prev_p.len() as int)));
                assert(candidates@ =~= old(candidates)@ + candidates_from(sub, nh, set_wants_dedup, preserve_mtime, base));
                assert(location_views(locations@) =~= location_views(old_l).push((snapshot, p.last().0.path)));
                assert(places_from(sub, nh, snapshot) =~= places_from(es.subrange(0, k as int), hits, snapshot).push((snapshot, p.last().0.path)));
                assert(location_views(locations@) =~= location_views(old(locations)@) + places_from(sub, nh, snapshot));
            } else {
                assert(p == prev_p);
                assert(candidates_from(sub, nh, set_wants_dedup, preserve_mtime, base) == candidates_from(es.subrange(0, k as int), hits, set_wants_dedup, preserve_mtime, base));
                assert(places_from(sub, nh, snapshot) == places_from(es.subrange(0, k as int), hits, snapshot));
            }
            assert forall|j: int| 0 <= j < sub.len() implies match #[trigger] sub[j] {
                Record::Write(f) => nh[j] == filter_hashes(*filter).contains(f.xxh3),
                Record::Link(f) => nh[j] == filter_hashes(*filter).contains(f.xxh3),
                Record::Delete { .. } => !nh[j],
            } by {
                if j < k {
                    assert(sub[j] == es.subrange(0, k as int)[j]);
                }
            }
            hits = nh;
        }
        k = k + 1;
    }
    proof {
        assert(es.subrange(0, k as int) =~= es);
    }
}


pub open spec fn has_target(g: Seq<Candidate>) -> bool {
    exists|i: int| 0 <= i < g.len() && (#[trigger] g[i]).3
}

pub open spec fn has_anchor(g: Seq<Candidate>) -> bool {
    exists|i: int| 0 <= i < g.len() && !(#[trigger] g[i]).3
}

/// The locations of the candidates that want deduplication, in order.
pub open spec fn target_locs(s: Seq<Candidate>) -> Seq<usize>
    decreases s.len(),
{
    if s.len() == 0 {
        Seq::empty()
    } else {
        target_locs(s.drop_last()) + if s.last().3 {
            seq![s.last().4]
        } else {
            Seq::empty()
        }
    }
}

/// What becomes of a group of candidates with equal keys.
pub enum GroupOutcome {
    /// Nothing in it wants deduplication.
    Discard,
    /// Only files that want deduplication, and older snapshots are left to look in.
    Keep,
    /// The first candidate is the anchor for the others that want deduplication.
    Link(DedupJob),
}

pub open spec fn outcome_spec(g: Seq<Candidate>, final_run: bool) -> Option<Option<(usize, Seq<usize>)>> {
    if !has_target(g) {
        None
    } else if !has_anchor(g) && !final_run {
        Some(None)
    } else {
        Some(Some((g[0].4, target_locs(g.drop_first()))))
    }
}

/// Decides a group of candidates with equal keys: discard it when nothing in
/// it wants deduplication; keep it for the next older snapshot when all of it
/// does and this is not the last pass; else link the others that want
/// deduplication to the first.
fn dedup_group(group: &Vec<Candidate>, final_run: bool) -> (r: GroupOutcome)
    ensures
        match outcome_spec(group@, final_run) {
            None => r is Discard,
            Some(None) => r is Keep,
            Some(Some(j)) => r matches GroupOutcome::Link(job) && job@ == j,
        },
{
    let mut any_target = false;
    let mut any_anchor = false;
    let mut i: usize = 0;
    while i < group.len()
        invariant
            i <= group@.len(),
            any_target == exists|k: int| 0 <= k < i && (#[trigger] group@[k]).3,
            any_anchor == exists|k: int| 0 <= k < i && !(#[trigger] group@[k]).3,
        decreases group.len() - i,
    {
        if group[i].3 {
            any_target = true;
        } else {
            any_anchor = true;
        }
        i = i + 1;
    }
    if !any_target {
        return GroupOutcome::Discard;
    }
    if !any_anchor && !final_run {
        return GroupOutcome::Keep;
    }
    let ghost rest = group@.drop_first();
    let mut targets: Vec<usize> = Vec::new();
    let mut k: usize = 1;
    while k < group.len()
        invariant
            1 <= k <= group@.len(),
            rest == group@.drop_first(),
            targets@ == target_locs(rest.subrange(0, k - 1)),
        decreases group.len() - k,
    {
        proof {
            assert(rest.subrange(0, k as int).drop_last() =~= rest.subrange(0, k - 1));
            assert(rest[k - 1] == group@[k as int]);
        }
        if group[k].3 {
            targets.push(group[k].4);
        }
        proof {
            assert(targets@ =~= target_locs(rest.subrange(0, k as int)));
        }
        k = k + 1;
    }
    proof {
        assert(rest.subrange(0, rest.len() as int) =~= rest);
    }
    GroupOutcome::Link(DedupJob { anchor: group[0].4, targets })
}

pub open spec fn concat(gs: Seq<Seq<Candidate>>) -> Seq<Candidate>
    decreases gs.len(),
{
    if gs.len() == 0 {
        Seq::empty()
    } else {
        concat(gs.drop_last()) + gs.last()
    }
}

/// `gs` cuts `cs` into its maximal runs of equal keys.
pub open spec fn is_runs(cs: Seq<Candidate>, gs: Seq<Seq<Candidate>>) -> bool {
    &&& concat(gs) == cs
    &&& forall|g: int|
        0 <= g < gs.len() ==> (#[trigger] gs[g]).len() > 0 && forall|i: int|
            0 <= i < gs[g].len() ==> key_of(#[trigger] gs[g][i]) == key_of(gs[g][0])
    &&& forall|g: int| 0 < g < gs.len() ==> key_of((#[trigger] gs[g])[0]) != key_of(gs[g - 1][0])
}

/// The candidates of the groups that are kept for the next pass.
pub open spec fn kept(gs: Seq<Seq<Candidate>>, final_run: bool) -> Seq<Candidate>
    decreases gs.len(),
{
    if gs.len() == 0 {
        Seq::empty()
    } else {
        kept(gs.drop_last(), final_run) + if outcome_spec(gs.last(), final_run) == Some(
            None::<(usize, Seq<usize>)>,
        ) {
            gs.last()
        } else {
            Seq::empty()
        }
    }
}

/// The links that the groups call for.
pub open spec fn jobs_of(gs: Seq<Seq<Candidate>>, final_run: bool) -> Seq<(usize, Seq<usize>)>
    decreases gs.len(),
{
    if gs.len() == 0 {
        Seq::empty()
    } else {
        jobs_of(gs.drop_last(), final_run) + match outcome_spec(gs.last(), final_run) {
            Some(Some(j)) => seq![j],
            _ => Seq::empty(),
        }
    }
}

/// Cuts sorted candidates into runs of equal keys and decides each run: the
/// candidates kept for the next pass, and the links to make.
fn dedup_and_delete(sorted_candidates: &Vec<Candidate>, final_run: bool) -> (r: (Vec<Candidate>, Vec<DedupJob>))
    ensures
        exists|gs: Seq<Seq<Candidate>>|
            #[trigger] is_runs(sorted_candidates@, gs) && r.0@ == kept(gs, final_run) && job_views(r.1@)
                == jobs_of(gs, final_run),
{
    let cs = sorted_candidates;
    let mut group: Vec<Candidate> = Vec::new();
    let mut remaining: Vec<Candidate> = Vec::new();
    let mut jobs: Vec<DedupJob> = Vec::new();
    let ghost mut gs: Seq<Seq<Candidate>> = Seq::empty();
    let mut i: usize = 0;
    while i < cs.len()
        invariant
            i <= cs@.len(),
            concat(gs) + group@ == cs@.subrange(0, i as int),
            i > 0 ==> group@.len() > 0,
            forall|k: int| 0 <= k < group@.len() ==> key_of(#[trigger] group@[k]) == key_of(group@[0]),
            forall|g: int|
                0 <= g < gs.len() ==> (#[trigger] gs[g]).len() > 0 && forall|k: int|
                    0 <= k < gs[g].len() ==> key_of(#[trigger] gs[g][k]) == key_of(gs[g][0]),
            forall|g: int| 0 < g < gs.len() ==> key_of((#[trigger] gs[g])[0]) != key_of(gs[g - 1][0]),
            gs.len() > 0 && group@.len() > 0 ==> key_of(group@[0]) != key_of(gs.last()[0]),
            remaining@ == kept(gs, final_run),
            job_views(jobs@) == jobs_of(gs, final_run),
        decreases cs.len() - i,
    {
        let c = cs[i];
        if group.len() == 0 || (c.0 == group[0].0 && c.1 == group[0].1 && c.2 == group[0].2) {
            let ghost og = group@;
            group.push(c);
            proof {
                assert(concat(gs) + og == cs@.subrange(0, i as int));
                assert(cs@.subrange(0, i + 1) =~= cs@.subrange(0, i as int).push(c));
                assert(concat(gs) + group@ =~= cs@.subrange(0, i + 1));
            }
        } else {
            let ghost closed = group@;
            let out = dedup_group(&group, final_run);
            let ghost old_jobs = jobs@;
            match out {
                GroupOutcome::Keep => {
                    remaining.append(&mut group);
                },
                GroupOutcome::Link(job) => {
                    jobs.push(job);
                },
                GroupOutcome::Discard => {},
            }
            proof {
                let ngs = gs.push(closed);
                assert(ngs.drop_last() =~= gs);
                assert(concat(ngs) == concat(gs) + closed);
                assert(remaining@ =~= kept(ngs, final_run));
                assert(job_views(jobs@) =~= jobs_of(ngs, final_run)) by {
                    assert(job_views(old_jobs) == jobs_of(gs, final_run));
                }
                gs = ngs;
            }
            group = Vec::new();
            group.push(c);
            proof {
                assert(concat(gs) =~= cs@.subrange(0, i as int));
                assert(cs@.subrange(0, i + 1) =~= cs@.subrange(0, i as int).push(c));
                assert(concat(gs) + group@ =~= cs@.subrange(0, i + 1));
            }
        }
        i = i + 1;
    }
    if group.len() > 0 {
        let ghost closed = group@;
        let out = dedup_group(&group, final_run);
        let ghost old_jobs = jobs@;
        match out {
            GroupOutcome::Keep => {
                remaining.append(&mut group);
            },
            GroupOutcome::Link(job) => {
                jobs.push(job);
            },
            GroupOutcome::Discard => {},
        }
        proof {
            let ngs = gs.push(closed);
            assert(ngs.drop_last() =~= gs);
            assert(concat(ngs) == concat(gs) + closed);
            assert(remaining@ =~= kept(ngs, final_run));
            assert(job_views(jobs@) =~= jobs_of(ngs, final_run)) by {
                assert(job_views(old_jobs) == jobs_of(gs, final_run));
            }
            gs = ngs;
        }
    }
    proof {
        assert(cs@.subrange(0, cs@.len() as int) =~= cs@);
        assert(concat(gs) =~= cs@);
        assert(is_runs(cs@, gs));
    }
    (remaining, jobs)
}


/// The range of the mtimes of the candidates that want deduplication; the
/// empty interval `lo = 1, hi = 0` where none does.
fn written_mtimes(candidates: &Vec<Candidate>) -> (r: Interval)
    ensures
        is_written_range(candidates@, r),
{
    let mut interval = Interval { lo: 1, hi: 0 };
    let mut found = false;
    let mut i: usize = 0;
    while i < candidates.len()
        invariant
            i <= candidates@.len(),
            found == exists|k: int| 0 <= k < i && (#[trigger] candidates@[k]).3,
            !found ==> interval == (Interval { lo: 1, hi: 0 }),
            found ==> {
                &&& forall|k: int| 0 <= k < i && (#[trigger] candidates@[k]).3 ==> interval.lo <= candidates@[k].0 <= interval.hi
                &&& exists|k: int| 0 <= k < i && (#[trigger] candidates@[k]).3 && candidates@[k].0 == interval.lo
                &&& exists|k: int| 0 <= k < i && (#[trigger] candidates@[k]).3 && candidates@[k].0 == interval.hi
            },
        decreases candidates.len() - i,
    {
        let c = candidates[i];
        if c.3 {
            if !found {
                interval = Interval { lo: c.0, hi: c.0 };
                found = true;
            } else {
                interval.expand(&c.0);
            }
        }
        i = i + 1;
    }
    interval
}

/// `iv` is the range of the mtimes of the candidates that want
/// deduplication, or the empty interval `lo = 1, hi = 0` where none does.
pub open spec fn is_written_range(cs: Seq<Candidate>, iv: Interval) -> bool {
    &&& !has_target(cs) ==> iv == (Interval { lo: 1, hi: 0 })
    &&& has_target(cs) ==> {
        &&& forall|i: int| 0 <= i < cs.len() && (#[trigger] cs[i]).3 ==> iv.lo <= cs[i].0 <= iv.hi
        &&& exists|i: int| 0 <= i < cs.len() && (#[trigger] cs[i]).3 && cs[i].0 == iv.lo
        &&& exists|i: int| 0 <= i < cs.len() && (#[trigger] cs[i]).3 && cs[i].0 == iv.hi
    }
}

/// An older snapshot still to look in: its index and the range of its mtimes
/// (`None` where its counters could not be read).
#[derive(Debug, Clone, Copy, PartialEq, Eq)]
pub struct SnapshotScope {
    pub index: usize,
    pub mtimes: Option<Interval>,
}

pub open spec fn scope_relevant(s: SnapshotScope, relevant: Interval) -> bool {
    match s.mtimes {
        None => true,
        Some(m) => m.spec_overlaps(&relevant),
    }
}

/// The snapshots whose mtimes may meet `relevant`, in order.
pub open spec fn relevant_scopes(ss: Seq<SnapshotScope>, relevant: Interval) -> Seq<SnapshotScope>
    decreases ss.len(),
{
    if ss.len() == 0 {
        Seq::empty()
    } else {
        relevant_scopes(ss.drop_last(), relevant) + if scope_relevant(ss.last(), relevant) {
            seq![ss.last()]
        } else {
            Seq::empty()
        }
    }
}

/// Keeps the snapshots whose mtime range overlaps `relevant_mtimes`, and
/// those whose range is unknown.
fn reduce_set_of_backups(backups: &Vec<SnapshotScope>, relevant_mtimes: &Interval) -> (r: Vec<SnapshotScope>)
    ensures
        r@ == relevant_scopes(backups@, *relevant_mtimes),
{
    let mut out: Vec<SnapshotScope> = Vec::new();
    let mut i: usize = 0;
    while i < backups.len()
        invariant
            i <= backups@.len(),
            out@ == relevant_scopes(backups@.subrange(0, i as int), *relevant_mtimes),
        decreases backups.len() - i,
    {
        let b = backups[i];
        let keep = match &b.mtimes {
            None => true,
            Some(m) => m.overlaps(relevant_mtimes),
        };
        if keep {
            out.push(b);
        }
        proof {
            assert(backups@.subrange(0, i + 1).drop_last() =~= backups@.subrange(0, i as int));
            assert(out@ =~= relevant_scopes(backups@.subrange(0, i + 1), *relevant_mtimes));
        }
        i = i + 1;
    }
    proof {
        assert(backups@.subrange(0, i as int) =~= backups@);
    }
    out
}

/// The hashes of the write records.
pub open spec fn written_hashes(es: Seq<Record>) -> Set<u64> {
    Set::new(|h: u64| exists|k: int| 0 <= k < es.len() && #[trigger] es[k] == Record::Write(FileRecord { xxh3: h, ..es[k].file_of() }))
}

/// A filter seeded with the hash of every write record, and whether every
/// addition succeeded; where it did, the filter reports every written hash.
fn existance_filter_of_written_files(entries: &Vec<LogEntry>, num_writes: i32) -> (r: (CuckooFilter<DefaultHasher>, bool))
    ensures
        r.1 ==> written_hashes(entry_views(entries@)).subset_of(filter_hashes(r.0)),
{
    let ghost es = entry_views(entries@);
    let capacity: usize = if num_writes < 0 { 0 } else { num_writes as usize };
    let mut filter = new_filter(capacity);
    let mut complete = true;
    assert(written_hashes(es.subrange(0, 0)) =~= Set::<u64>::empty());
    let mut k: usize = 0;
    while k < entries.len()
        invariant
            es == entry_views(entries@),
            k <= entries@.len(),
            complete ==> written_hashes(es.subrange(0, k as int)).subset_of(filter_hashes(filter)),
        decreases entries.len() - k,
    {
        let ghost before = written_hashes(es.subrange(0, k as int));
        let ghost after = written_hashes(es.subrange(0, k + 1));
        proof {
            assert forall|h: u64| before.contains(h) implies after.contains(h) by {
                let j = choose|j: int| 0 <= j < k && #[trigger] es.subrange(0, k as int)[j] == Record::Write(FileRecord { xxh3: h, ..es.subrange(0, k as int)[j].file_of() });
                assert(es.subrange(0, k + 1)[j] == es.subrange(0, k as int)[j]);
            }
        }
        match &entries[k] {
            LogEntry::Write(f) => {
                let ok = filter_add(&mut filter, f.xxh3);
                if !ok {
                    complete = false;
                }
                proof {
                    assert(es[k as int] == Record::Write(f@));
                    assert(es.subrange(0, k + 1)[k as int] == Record::Write(FileRecord { xxh3: f.xxh3, ..es.subrange(0, k + 1)[k as int].file_of() }));
                    assert(after.contains(f.xxh3));
                    assert forall|h: u64| after.contains(h) implies before.insert(f.xxh3).contains(h) by {
                        let j = choose|j: int| 0 <= j < k + 1 && #[trigger] es.subrange(0, k + 1)[j] == Record::Write(FileRecord { xxh3: h, ..es.subrange(0, k + 1)[j].file_of() });
                        if j < k {
                            assert(es.subrange(0, k as int)[j] == es.subrange(0, k + 1)[j]);
                        }
                    }
                    assert(after =~= before.insert(f.xxh3));
                }
            },
            _ => {
                proof {
                    assert forall|h: u64| after.contains(h) implies before.contains(h) by {
                        let j = choose|j: int| 0 <= j < k + 1 && #[trigger] es.subrange(0, k + 1)[j] == Record::Write(FileRecord { xxh3: h, ..es.subrange(0, k + 1)[j].file_of() });
                        if j < k {
                            assert(es.subrange(0, k as int)[j] == es.subrange(0, k + 1)[j]);
                        } else {
                            assert(es[k as int] == entries@[k as int]@);
                        }
                    }
                    assert(after =~= before);
                }
            },
        }
        k = k + 1;
    }
    proof {
        assert(es.subrange(0, k as int) =~= es);
    }
    (filter, complete)
}

/// Deduplication is wanted once the snapshot wrote something and at least
/// the configured number of bytes.
pub open spec fn dedup_wanted_spec(stats: BackupStats, opts: DeduplicationOptions) -> bool {
    stats.num_writes != 0 && stats.bytes_written >= opts.min_bytes_for_dedup
}

pub fn dedup_wanted(stats: &BackupStats, opts: &DeduplicationOptions) -> (r: bool)
    ensures
        r == dedup_wanted_spec(*stats, *opts),
{
    !(stats.num_writes == 0 || stats.bytes_written < opts.min_bytes_for_dedup)
}


/// Plans the deduplication of the newest snapshot against older ones: which
/// files to replace by links to which, pass by pass, from the newest older
/// snapshot back.
pub struct DedupPlanner {
    filter: CuckooFilter<DefaultHasher>,
    candidates: Vec<Candidate>,
    locations: Vec<Location>,
    remaining: Vec<SnapshotScope>,
    preserve_mtime: bool,
    finished: bool,
    seeded_fully: bool,
}

impl DedupPlanner {
    /// Every hash of the newest snapshot's writes went into the filter.
    pub closed spec fn filter_complete(&self) -> bool {
        self.seeded_fully
    }

    /// Whether every hash of the newest snapshot's writes went into the filter
    /// (adding to a full filter can fail, by chance).
    pub fn is_filter_complete(&self) -> (r: bool)
        ensures
            r == self.filter_complete(),
    {
        self.seeded_fully
    }

    /// The candidates that wait for an anchor.
    pub closed spec fn pending(&self) -> Seq<Candidate> {
        self.candidates@
    }

    /// The older snapshots still to look in, oldest first.
    pub closed spec fn scopes(&self) -> Seq<SnapshotScope> {
        self.remaining@
    }

    /// Where each candidate lies, by location index.
    pub closed spec fn places(&self) -> Seq<(usize, Seq<u8>)> {
        location_views(self.locations@)
    }

    /// The hashes the filter reports as present.
    pub closed spec fn held(&self) -> Set<u64> {
        filter_hashes(self.filter)
    }

    pub closed spec fn finished(&self) -> bool {
        self.finished
    }

    pub closed spec fn mtimes_kept(&self) -> bool {
        self.preserve_mtime
    }

    /// Starts planning for the newest snapshot, whose log and counters are
    /// given, against the older snapshots in `older` (oldest first). Returns
    /// `None` where the snapshot wrote nothing or too few bytes. The filter is
    /// seeded with the hashes of the snapshot's writes (and, where every
    /// addition succeeded, reports them all), the candidates are its files
    /// whose hashes the filter reports (its writes want deduplication), and where mtimes are
    /// preserved only older snapshots whose mtimes meet those written are kept.
    pub fn start(
        latest: &BackupLog,
        latest_index: usize,
        latest_stats: &BackupStats,
        older: Vec<SnapshotScope>,
        opts: &DeduplicationOptions,
    ) -> (r: Result<Option<DedupPlanner>, ReadError>)
        ensures
            !dedup_wanted_spec(*latest_stats, *opts) ==> r == Ok::<Option<DedupPlanner>, ReadError>(None),
            dedup_wanted_spec(*latest_stats, *opts) ==> match decode_log(latest@) {
                Err(e) => r == Err::<Option<DedupPlanner>, ReadError>(e),
                Ok(rs) => r matches Ok(Some(p)) && {
                    &&& !p.finished()
                    &&& p.mtimes_kept() == opts.preserve_mtime
                    &&& p.filter_complete() ==> written_hashes(rs).subset_of(p.held())
                    &&& exists|hits: Seq<bool>|
                        #[trigger] hits_exact(rs, hits, p.held()) && p.pending() == candidates_from(
                            rs,
                            hits,
                            true,
                            opts.preserve_mtime,
                            0,
                        ) && p.places() == places_from(rs, hits, latest_index)
                    &&& p.scopes() == if opts.preserve_mtime {
                        relevant_scopes(older@, Interval {
                            lo: latest_stats.min_mtime_written.unwrap_or(1),
                            hi: latest_stats.max_mtime_written.unwrap_or(0),
                        })
                    } else {
                        older@
                    }
                },
            },
    {
        if !dedup_wanted(latest_stats, opts) {
            return Ok(None);
        }
        let entries = decode_all(latest)?;
        let (filter, complete) = existance_filter_of_written_files(&entries, latest_stats.num_writes);
        let mut candidates: Vec<Candidate> = Vec::new();
        let mut locations: Vec<Location> = Vec::new();
        push_all_matching_files(&entries, latest_index, &filter, &mut candidates, &mut locations, opts.preserve_mtime, true);
        let ghost hits = choose|hits: Seq<bool>|
            #[trigger] hits_exact(entry_views(entries@), hits, filter_hashes(filter))
                && candidates@ == Seq::<Candidate>::empty() + candidates_from(
                entry_views(entries@),
                hits,
                true,
                opts.preserve_mtime,
                0,
            ) && location_views(locations@) == location_views(Seq::<Location>::empty()) + places_from(
                entry_views(entries@),
                hits,
                latest_index,
            );
        proof {
            assert(location_views(Seq::<Location>::empty()) =~= Seq::empty());
            assert(candidates@ =~= candidates_from(entry_views(entries@), hits, true, opts.preserve_mtime, 0));
            assert(location_views(locations@) =~= places_from(entry_views(entries@), hits, latest_index));
        }
        let remaining = if opts.preserve_mtime {
            reduce_set_of_backups(&older, &latest_stats.mtimes_written())
        } else {
            older
        };
        let p = DedupPlanner {
            filter,
            candidates,
            locations,
            remaining,
            preserve_mtime: opts.preserve_mtime,
            finished: false,
            seeded_fully: complete,
        };
        assert(hits_exact(entry_views(entries@), hits, p.held()));
        Ok(Some(p))
    }

    /// Planning is over: the last pass is done, or no candidate is left.
    pub fn is_done(&self) -> (r: bool)
        ensures
            r == (self.finished() || self.pending().len() == 0),
    {
        self.finished || self.candidates.len() == 0
    }

    /// Takes the newest older snapshot still to look in.
    pub fn next_snapshot(&mut self) -> (r: Option<usize>)
        ensures
            final(self).pending() == old(self).pending(),
            final(self).places() == old(self).places(),
            final(self).held() == old(self).held(),
            final(self).finished() == old(self).finished(),
            final(self).mtimes_kept() == old(self).mtimes_kept(),
            final(self).filter_complete() == old(self).filter_complete(),
            old(self).scopes().len() == 0 ==> r is None && final(self).scopes() == old(self).scopes(),
            old(self).scopes().len() > 0 ==> r == Some(old(self).scopes().last().index)
                && final(self).scopes() == old(self).scopes().drop_last(),
    {
        match self.remaining.pop() {
            Some(s) => Some(s.index),
            None => None,
        }
    }

    /// Adds as anchors the files of older snapshot `snapshot` that meet the filter.
    pub fn absorb(&mut self, snapshot: usize, log: &BackupLog) -> (r: Result<(), ReadError>)
        ensures
            final(self).held() == old(self).held(),
            final(self).scopes() == old(self).scopes(),
            final(self).finished() == old(self).finished(),
            final(self).mtimes_kept() == old(self).mtimes_kept(),
            final(self).filter_complete() == old(self).filter_complete(),
            match decode_log(log@) {
                Err(e) => r == Err::<(), ReadError>(e) && final(self).pending() == old(self).pending()
                    && final(self).places() == old(self).places(),
                Ok(rs) => r is Ok && exists|hits: Seq<bool>|
                    #[trigger] hits_exact(rs, hits, old(self).held()) && final(self).pending() == old(self).pending()
                        + candidates_from(rs, hits, false, old(self).mtimes_kept(), old(self).places().len() as int)
                        && final(self).places() == old(self).places() + places_from(rs, hits, snapshot),
            },
    {
        let entries = decode_all(log)?;
        let ghost c0 = self.candidates@;
        let ghost l0 = self.locations@;
        push_all_matching_files(&entries, snapshot, &self.filter, &mut self.candidates, &mut self.locations, self.preserve_mtime, false);
        let ghost hits = choose|hits: Seq<bool>|
            #[trigger] hits_exact(entry_views(entries@), hits, filter_hashes(self.filter))
                && self.candidates@ == c0 + candidates_from(
                entry_views(entries@),
                hits,
                false,
                self.preserve_mtime,
                l0.len() as int,
            ) && location_views(self.locations@) == location_views(l0) + places_from(
                entry_views(entries@),
                hits,
                snapshot,
            );
        assert(hits_exact(entry_views(entries@), hits, old(self).held()));
        Ok(())
    }
    /// One pass: sorts the candidates by key (anchors before targets), cuts
    /// them into runs of equal keys, and decides each run; the last pass is the
    /// one with no older snapshot left. Returns the links to make. Where mtimes
    /// are preserved and snapshots are left, only those whose mtimes meet the
    /// waiting targets' stay in scope.
    pub fn plan(&mut self) -> (r: Vec<DedupJob>)
        ensures
            final(self).finished() == (old(self).scopes().len() == 0),
            final(self).places() == old(self).places(),
            final(self).held() == old(self).held(),
            final(self).mtimes_kept() == old(self).mtimes_kept(),
            final(self).filter_complete() == old(self).filter_complete(),
            exists|sorted: Seq<Candidate>, gs: Seq<Seq<Candidate>>|
                #[trigger] is_runs(sorted, gs) && sorted.to_multiset() == old(self).pending().to_multiset()
                    && cands_sorted(sorted) && final(self).pending() == kept(gs, old(self).scopes().len() == 0)
                    && job_views(r@) == jobs_of(gs, old(self).scopes().len() == 0),
            old(self).scopes().len() > 0 && old(self).mtimes_kept() ==> exists|iv: Interval|
                #[trigger] is_written_range(final(self).pending(), iv) && final(self).scopes() == relevant_scopes(
                    old(self).scopes(),
                    iv,
                ),
            !(old(self).scopes().len() > 0 && old(self).mtimes_kept()) ==> final(self).scopes()
                == old(self).scopes(),
    {
        sort_candidates(&mut self.candidates);
        let final_run = self.remaining.len() == 0;
        let ghost sorted = self.candidates@;
        let (rest, jobs) = dedup_and_delete(&self.candidates, final_run);
        self.candidates = rest;
        self.finished = final_run;
        if !final_run && self.preserve_mtime {
            let iv = written_mtimes(&self.candidates);
            self.remaining = reduce_set_of_backups(&self.remaining, &iv);
            assert(is_written_range(self.candidates@, iv));
            assert(self.remaining@ == relevant_scopes(old(self).scopes(), iv));
        }
        jobs
    }

    /// Where the candidate with location index `id` lies.
    pub fn location(&self, id: usize) -> (r: Option<&Location>)
        ensures
            id < self.places().len() ==> (r matches Some(l) && (l.snapshot, l.path@) == self.places()[id as int]),
            id >= self.places().len() ==> r is None,
    {
        if id < self.locations.len() {
            Some(&self.locations[id])
        } else {
            None
        }
    }
}


/// A target stands verified against its anchor where the sizes agree and,
/// with mtimes preserved, the mtimes too.
pub fn is_verified_duplicate(
    anchor_size: u64,
    anchor_mtime: i64,
    target_size: u64,
    target_mtime: i64,
    preserve_mtime: bool,
) -> (r: bool)
    ensures
        r == (anchor_size == target_size && (!preserve_mtime || anchor_mtime == target_mtime)),
{
    anchor_size == target_size && (!preserve_mtime || anchor_mtime == target_mtime)
}

/// The suffix that marks a link while it waits to replace its target.
pub open spec fn link_suffix() -> Seq<u8> {
    seq![46u8, 97, 115, 95, 108, 105, 110, 107]
}

/// The name of the temporary link for a target named `file_name`: the name
/// with `.as_link` appended, and from the second attempt on a counter
/// starting at 0 after it.
pub fn link_tmp_name(file_name: &[u8], attempt: u64) -> (r: Vec<u8>)
    ensures
        r@ == file_name@ + link_suffix() + if attempt == 0 {
            Seq::<u8>::empty()
        } else {
            crate::codec::dec_digits((attempt - 1) as nat)
        },
{
    let mut v: Vec<u8> = Vec::new();
    crate::log::append_slice(&mut v, file_name);
    v.push(46);
    v.push(97);
    v.push(115);
    v.push(95);
    v.push(108);
    v.push(105);
    v.push(110);
    v.push(107);
    let ghost named = v@;
    assert(named =~= file_name@ + link_suffix());
    if attempt > 0 {
        crate::codec::push_dec(&mut v, attempt - 1);
    } else {
        assert(v@ =~= named + Seq::<u8>::empty());
    }
    v
}


proof fn lemma_target_locs(s: Seq<Candidate>, t: usize)
    requires
        target_locs(s).contains(t),
    ensures
        exists|i: int| 0 <= i < s.len() && (#[trigger] s[i]).3 && s[i].4 == t,
    decreases s.len(),
{
    let rest = target_locs(s.drop_last());
    if rest.contains(t) {
        lemma_target_locs(s.drop_last(), t);
        let i = choose|i: int| 0 <= i < s.drop_last().len() && (#[trigger] s.drop_last()[i]).3 && s.drop_last()[i].4 == t;
        assert(s[i] == s.drop_last()[i]);
    } else {
        let k = choose|k: int| 0 <= k < target_locs(s).len() && target_locs(s)[k] == t;
        assert(target_locs(s)[k] == (rest + if s.last().3 { seq![s.last().4] } else { Seq::<usize>::empty() })[k]);
        assert(s[s.len() - 1].3 && s[s.len() - 1].4 == t);
    }
}

/// Each link that a pass plans joins candidates of one run: the anchor is the
/// run's first candidate, and each target is a candidate of the run that
/// wants deduplication, so all share the anchor's mtime for comparison, size
/// and hash.
pub proof fn lemma_jobs_link_equal_keys(cs: Seq<Candidate>, gs: Seq<Seq<Candidate>>, final_run: bool)
    requires
        is_runs(cs, gs),
    ensures
        forall|j: int, t: usize|
            0 <= j < jobs_of(gs, final_run).len() && jobs_of(gs, final_run)[j].1.contains(t) ==> exists|g: int, i: int|
                0 <= g < gs.len() && 0 <= i < gs[g].len() && jobs_of(gs, final_run)[j].0 == gs[g][0].4
                    && #[trigger] gs[g][i].4 == t && gs[g][i].3 && key_of(gs[g][i]) == key_of(gs[g][0]),
    decreases gs.len(),
{
    if gs.len() > 0 {
        let init = gs.drop_last();
        assert(is_runs(concat(init), init)) by {
            assert forall|g: int| 0 < g < init.len() implies key_of((#[trigger] init[g])[0]) != key_of(init[g - 1][0]) by {
                assert(init[g] == gs[g] && init[g - 1] == gs[g - 1]);
            }
            assert forall|g: int| 0 <= g < init.len() implies (#[trigger] init[g]).len() > 0 && forall|i: int|
                0 <= i < init[g].len() ==> key_of(#[trigger] init[g][i]) == key_of(init[g][0]) by {
                assert(init[g] == gs[g]);
            }
        }
        lemma_jobs_link_equal_keys(concat(init), init, final_run);
        let last = gs.last();
        assert forall|j: int, t: usize|
            0 <= j < jobs_of(gs, final_run).len() && jobs_of(gs, final_run)[j].1.contains(t) implies exists|g: int, i: int|
                0 <= g < gs.len() && 0 <= i < gs[g].len() && jobs_of(gs, final_run)[j].0 == gs[g][0].4
                    && #[trigger] gs[g][i].4 == t && gs[g][i].3 && key_of(gs[g][i]) == key_of(gs[g][0]) by {
            let prev = jobs_of(init, final_run);
            if j < prev.len() {
                assert(jobs_of(gs, final_run)[j] == prev[j]);
                let (g, i) = choose|g: int, i: int|
                    0 <= g < init.len() && 0 <= i < init[g].len() && prev[j].0 == init[g][0].4
                        && #[trigger] init[g][i].4 == t && init[g][i].3 && key_of(init[g][i]) == key_of(init[g][0]);
                assert(gs[g] == init[g]);
            } else {
                let g = gs.len() - 1;
                assert(outcome_spec(last, final_run) matches Some(Some(_)));
                let rest = last.drop_first();
                assert(jobs_of(gs, final_run)[j] == (last[0].4, target_locs(rest)));
                lemma_target_locs(rest, t);
                let k = choose|k: int| 0 <= k < rest.len() && (#[trigger] rest[k]).3 && rest[k].4 == t;
                assert(gs[g][k + 1] == rest[k]);
            }
        }
    }
}

} // verus!
