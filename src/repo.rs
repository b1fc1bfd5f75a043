//! Ordering and naming the snapshots of a repository.
use vstd::prelude::*;

use crate::log::{bytes_lt, lemma_bytes_lt_asym, lemma_bytes_lt_trans, BackupLogPath, PathOrder};
use crate::sources::listed;

verus! {

/// A snapshot directory as the repository orders it: its creation time in
/// seconds and its directory name.
pub struct SnapshotEntry {
    pub time: i64,
    pub name: BackupLogPath,
}

/// Snapshot `a` comes before `b`: created earlier, or at the same time with a
/// name that sorts first.
pub open spec fn snapshot_lt(a: (i64, Seq<u8>), b: (i64, Seq<u8>)) -> bool {
    a.0 < b.0 || (a.0 == b.0 && bytes_lt(a.1, b.1))
}

pub open spec fn entry_keys(es: Seq<SnapshotEntry>) -> Seq<(i64, Seq<u8>)> {
    es.map_values(|e: SnapshotEntry| (e.time, e.name@))
}

/// `idx` lists each snapshot once, oldest first.
pub open spec fn is_snapshot_order(keys: Seq<(i64, Seq<u8>)>, idx: Seq<usize>) -> bool {
    &&& idx.len() == keys.len()
    &&& forall|i: int| 0 <= i < idx.len() ==> #[trigger] idx[i] < keys.len()
    &&& forall|i: int, j: int|
        0 <= i < j < idx.len() ==> snapshot_lt(keys[#[trigger] idx[i] as int], keys[#[trigger] idx[j] as int])
    &&& forall|m: int| 0 <= m < keys.len() ==> #[trigger] listed(idx, m)
}

proof fn lemma_snapshot_lt_trans(a: (i64, Seq<u8>), b: (i64, Seq<u8>), c: (i64, Seq<u8>))
    requires
        snapshot_lt(a, b),
        snapshot_lt(b, c),
    ensures
        snapshot_lt(a, c),
{
    if a.0 == b.0 && b.0 == c.0 {
        lemma_bytes_lt_trans(a.1, b.1, c.1);
    }
}

/// The snapshots in repository order (oldest first, ties by name), or `None`
/// where two have the same time and name.
pub fn order_snapshots(entries: &Vec<SnapshotEntry>) -> (r: Option<Vec<usize>>)
    ensures
        r matches Some(idx) ==> is_snapshot_order(entry_keys(entries@), idx@),
        r is None ==> exists|i: int, j: int|
            0 <= i < j < entries@.len() && #[trigger] entry_keys(entries@)[i] == #[trigger] entry_keys(entries@)[j],
{
    let ghost ks = entry_keys(entries@);
    let mut out: Vec<usize> = Vec::new();
    let mut k: usize = 0;
    while k < entries.len()
        invariant
            ks == entry_keys(entries@),
            k <= entries@.len(),
            out@.len() == k,
            forall|i: int| 0 <= i < out@.len() ==> #[trigger] out@[i] < k,
            forall|i: int, j: int|
                0 <= i < j < out@.len() ==> snapshot_lt(ks[#[trigger] out@[i] as int], ks[#[trigger] out@[j] as int]),
            forall|m: int| 0 <= m < k ==> #[trigger] listed(out@, m),
        decreases entries.len() - k,
    {
        let mut p: usize = 0;
        let mut stop = false;
        while p < out.len() && !stop
            invariant
                ks == entry_keys(entries@),
                k < entries@.len(),
                p <= out@.len(),
                forall|i: int| 0 <= i < out@.len() ==> #[trigger] out@[i] < k,
                forall|i: int| 0 <= i < p ==> snapshot_lt(ks[#[trigger] out@[i] as int], ks[k as int]),
                stop ==> p < out@.len() && snapshot_lt(ks[k as int], ks[out@[p as int] as int]),
            decreases out.len() - p + if stop { 0int } else { 1 },
        {
            let a = &entries[out[p]];
            let b = &entries[k];
            proof {
                assert(ks[out@[p as int] as int] == (a.time, a.name@));
                assert(ks[k as int] == (b.time, b.name@));
                lemma_bytes_lt_asym(a.name@, b.name@);
            }
            if a.time < b.time {
                p = p + 1;
            } else if a.time > b.time {
                stop = true;
            } else {
                let o = a.name.compare(&b.name);
                if o == PathOrder::Equal {
                    return None;
                } else if o == PathOrder::Less {
                    p = p + 1;
                } else {
                    stop = true;
                }
            }
        }
        let ghost old_out = out@;
        out.insert(p, k);
        proof {
            assert forall|i: int, j: int| 0 <= i < j < out@.len() implies snapshot_lt(
                ks[#[trigger] out@[i] as int],
                ks[#[trigger] out@[j] as int],
            ) by {
                if j < p {
                    assert(out@[i] == old_out[i] && out@[j] == old_out[j]);
                } else if j == p {
                    assert(out@[i] == old_out[i]);
                } else if i < p {
                    assert(out@[i] == old_out[i] && out@[j] == old_out[j - 1]);
                    if j - 1 > p {
                        lemma_snapshot_lt_trans(ks[k as int], ks[old_out[p as int] as int], ks[old_out[j - 1] as int]);
                    }
                    lemma_snapshot_lt_trans(ks[old_out[i] as int], ks[k as int], ks[old_out[j - 1] as int]);
                } else if i == p {
                    assert(out@[j] == old_out[j - 1]);
                    if j - 1 > p {
                        lemma_snapshot_lt_trans(ks[k as int], ks[old_out[p as int] as int], ks[old_out[j - 1] as int]);
                    }
                } else {
                    assert(out@[i] == old_out[i - 1] && out@[j] == old_out[j - 1]);
                }
            }
            assert forall|m: int| 0 <= m < k + 1 implies #[trigger] listed(out@, m) by {
                if m == k {
                    assert(out@[p as int] == m);
                } else {
                    assert(listed(old_out, m));
                    let i = choose|i: int| 0 <= i < old_out.len() && #[trigger] old_out[i] == m;
                    if i < p {
                        assert(out@[i] == m);
                    } else {
                        assert(out@[i + 1] == m);
                    }
                }
            }
            assert forall|i: int| 0 <= i < out@.len() implies #[trigger] out@[i] < k + 1 by {
                if i < p {
                    assert(out@[i] == old_out[i]);
                } else if i > p {
                    assert(out@[i] == old_out[i - 1]);
                }
            }
        }
        k = k + 1;
    }
    Some(out)
}


/// The name of a new snapshot directory: the creation minute `stamp` as it
/// is, and from the second attempt on `_<attempt>` after it.
pub fn snapshot_dir_name(stamp: &[u8], attempt: u64) -> (r: Vec<u8>)
    ensures
        r@ == stamp@ + if attempt == 0 {
            Seq::<u8>::empty()
        } else {
            seq![95u8] + crate::codec::dec_digits(attempt as nat)
        },
{
    let mut v: Vec<u8> = Vec::new();
    crate::log::append_slice(&mut v, stamp);
    if attempt > 0 {
        v.push(95);
        crate::codec::push_dec(&mut v, attempt);
        assert(v@ =~= stamp@ + (seq![95u8] + crate::codec::dec_digits(attempt as nat)));
    } else {
        assert(v@ =~= stamp@ + Seq::<u8>::empty());
    }
    v
}

} // verus!
