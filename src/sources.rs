//! Naming and ordering the sources and directory entries of a backup.
use vstd::prelude::*;

use crate::log::{append_slice, bytes_lt, lemma_bytes_lt_trans, BackupLogPath, PathOrder};

verus! {

/// The bytes after the last `/` of a path (empty where it ends with `/`).
pub open spec fn last_component(p: Seq<u8>) -> Seq<u8>
    decreases p.len(),
{
    if p.len() == 0 || p.last() == 47 {
        Seq::empty()
    } else {
        last_component(p.drop_last()).push(p.last())
    }
}

/// The name under which a source directory is mirrored: `root` for `/`,
/// else the last component of its canonical path.
pub open spec fn top_level_name(p: Seq<u8>) -> Option<Seq<u8>> {
    if p == seq![47u8] {
        Some(seq![114u8, 111, 111, 116])
    } else if last_component(p).len() > 0 {
        Some(last_component(p))
    } else {
        None
    }
}

/// Why a set of sources cannot be backed up.
#[derive(Debug, Clone, Copy, PartialEq, Eq, Structural)]
pub enum SourceError {
    /// A source path names no directory (it is empty or ends with `/`).
    NoName,
    /// Two sources would be mirrored under the same name.
    DuplicateName,
}

/// The top-level name of the source at canonical path `path`.
pub fn get_top_level_backup_dir(path: &[u8]) -> (r: Result<BackupLogPath, SourceError>)
    ensures
        match top_level_name(path@) {
            Some(n) => r matches Ok(p) && p@ == n,
            None => r == Err::<BackupLogPath, SourceError>(SourceError::NoName),
        },
{
    if path.len() == 1 && path[0] == 47 {
        assert(path@ =~= seq![47u8]);
        let mut v: Vec<u8> = Vec::new();
        v.push(114);
        v.push(111);
        v.push(111);
        v.push(116);
        assert(v@ =~= seq![114u8, 111, 111, 116]);
        return Ok(BackupLogPath::new(v));
    }
    let mut start: usize = path.len();
    assert(path@.subrange(0, start as int) =~= path@);
    assert(path@.subrange(start as int, path@.len() as int) =~= Seq::<u8>::empty());
    assert(last_component(path@) =~= last_component(path@.subrange(0, start as int)) + path@.subrange(
        start as int,
        path@.len() as int,
    ));
    while start > 0 && path[start - 1] != 47
        invariant
            start <= path@.len(),
            last_component(path@) == last_component(path@.subrange(0, start as int)) + path@.subrange(
                start as int,
                path@.len() as int,
            ),
        decreases start,
    {
        let ghost pre = path@.subrange(0, start as int);
        assert(pre.drop_last() =~= path@.subrange(0, start - 1));
        assert(path@.subrange(start - 1, path@.len() as int) =~= seq![path@[start - 1]] + path@.subrange(
            start as int,
            path@.len() as int,
        ));
        assert(last_component(pre) == last_component(pre.drop_last()).push(pre.last()));
        start = start - 1;
        assert(last_component(path@) =~= last_component(path@.subrange(0, start as int)) + path@.subrange(
            start as int,
            path@.len() as int,
        ));
    }
    assert(last_component(path@.subrange(0, start as int)) =~= Seq::<u8>::empty());
    if start == path.len() {
        proof {
            assert(last_component(path@).len() == 0);
            if path@ == seq![47u8] {
                assert(path@.len() == 1);
            }
        }
        return Err(SourceError::NoName);
    }
    let mut v: Vec<u8> = Vec::new();
    append_slice(&mut v, &path[start..path.len()]);
    proof {
        assert(v@ =~= last_component(path@));
        if path@ == seq![47u8] {
            assert(path.len() == 1 && path@[0] == 47);
        }
    }
    Ok(BackupLogPath::new(v))
}

pub open spec fn key_views(keys: Seq<BackupLogPath>) -> Seq<Seq<u8>> {
    keys.map_values(|k: BackupLogPath| k@)
}

/// `m` appears in `idx`.
pub open spec fn listed(idx: Seq<usize>, m: int) -> bool {
    exists|i: int| 0 <= i < idx.len() && #[trigger] idx[i] == m
}

/// `idx` lists each index of `keys` once, in strictly ascending key order.
pub open spec fn is_sorted_order(keys: Seq<Seq<u8>>, idx: Seq<usize>) -> bool {
    &&& idx.len() == keys.len()
    &&& forall|i: int| 0 <= i < idx.len() ==> #[trigger] idx[i] < keys.len()
    &&& forall|i: int, j: int| 0 <= i < j < idx.len() ==> bytes_lt(keys[#[trigger] idx[i] as int], keys[#[trigger] idx[j] as int])
    &&& forall|m: int| 0 <= m < keys.len() ==> #[trigger] listed(idx, m)
}

/// The indices of `keys` in ascending key order, or `None` where two keys are equal.
pub fn sorted_order(keys: &Vec<BackupLogPath>) -> (r: Option<Vec<usize>>)
    ensures
        r matches Some(idx) ==> is_sorted_order(key_views(keys@), idx@),
        r is None ==> exists|i: int, j: int|
            0 <= i < j < keys@.len() && #[trigger] keys@[i]@ == #[trigger] keys@[j]@,
{
    let ghost ks = key_views(keys@);
    let mut out: Vec<usize> = Vec::new();
    let mut k: usize = 0;
    while k < keys.len()
        invariant
            ks == key_views(keys@),
            k <= keys@.len(),
            out@.len() == k,
            forall|i: int| 0 <= i < out@.len() ==> #[trigger] out@[i] < k,
            forall|i: int, j: int| 0 <= i < j < out@.len() ==> bytes_lt(ks[#[trigger] out@[i] as int], ks[#[trigger] out@[j] as int]),
            forall|m: int| 0 <= m < k ==> #[trigger] listed(out@, m),
        decreases keys.len() - k,
    {
        let mut p: usize = 0;
        let mut stop = false;
        while p < out.len() && !stop
            invariant
                ks == key_views(keys@),
                k < keys@.len(),
                p <= out@.len(),
                forall|i: int| 0 <= i < out@.len() ==> #[trigger] out@[i] < k,
                forall|i: int| 0 <= i < p ==> bytes_lt(ks[#[trigger] out@[i] as int], ks[k as int]),
                stop ==> p < out@.len() && bytes_lt(ks[k as int], ks[out@[p as int] as int]),
            decreases out.len() - p + if stop { 0int } else { 1 },
        {
            let o = keys[out[p]].compare(&keys[k]);
            proof {
                assert(ks[out@[p as int] as int] == keys@[out@[p as int] as int]@);
                assert(ks[k as int] == keys@[k as int]@);
            }
            if o == PathOrder::Equal {
                proof {
                    assert(keys@[out@[p as int] as int]@ == keys@[k as int]@);
                }
                return None;
            } else if o == PathOrder::Less {
                p = p + 1;
            } else {
                stop = true;
            }
        }
        let ghost old_out = out@;
        out.insert(p, k);
        proof {
            assert forall|i: int, j: int| 0 <= i < j < out@.len() implies bytes_lt(ks[#[trigger] out@[i] as int], ks[#[trigger] out@[j] as int]) by {
                if j < p {
                    assert(out@[i] == old_out[i] && out@[j] == old_out[j]);
                } else if j == p {
                    assert(out@[i] == old_out[i]);
                } else if i < p {
                    assert(out@[i] == old_out[i] && out@[j] == old_out[j - 1]);
                    assert(bytes_lt(ks[old_out[i] as int], ks[k as int]));
                    assert(stop);
                    if j - 1 > p {
                        lemma_bytes_lt_trans(ks[k as int], ks[old_out[p as int] as int], ks[old_out[j - 1] as int]);
                    }
                    lemma_bytes_lt_trans(ks[old_out[i] as int], ks[k as int], ks[old_out[j - 1] as int]);
                } else if i == p {
                    assert(out@[j] == old_out[j - 1]);
                    assert(stop);
                    if j - 1 > p {
                        lemma_bytes_lt_trans(ks[k as int], ks[old_out[p as int] as int], ks[old_out[j - 1] as int]);
                    }
                } else {
                    assert(out@[i] == old_out[i - 1] && out@[j] == old_out[j - 1]);
                }
            }
            assert forall|m: int| 0 <= m < k + 1 implies #[trigger] listed(out@, m) by {
                if m == k {
                    assert(out@[p as int] == m);
                } else {
                    assert(listed(old_out, m));
                    let i = choose|i: int| 0 <= i < old_out.len() && #[trigger] old_out[i] == m;
                    if i < p {
                        assert(out@[i] == m);
                    } else {
                        assert(out@[i + 1] == m);
                    }
                }
            }
            assert forall|i: int| 0 <= i < out@.len() implies #[trigger] out@[i] < k + 1 by {
                if i < p {
                    assert(out@[i] == old_out[i]);
                } else if i > p {
                    assert(out@[i] == old_out[i - 1]);
                }
            }
        }
        k = k + 1;
    }
    Some(out)
}


/// A source directory and the name it is mirrored under.
#[derive(Debug, Clone, PartialEq, Eq)]
pub struct BackupSource {
    pub path: Vec<u8>,
    pub backup_path: BackupLogPath,
}

pub open spec fn source_names(srcs: Seq<Vec<u8>>) -> Seq<Seq<u8>> {
    srcs.map_values(|p: Vec<u8>| top_level_name(p@).unwrap())
}

/// Orders sources (canonical paths) by the name each is mirrored under. A
/// source without a name is `NoName`; two sources with one name are
/// `DuplicateName`.
pub fn sort_sources(sources: &Vec<Vec<u8>>) -> (r: Result<Vec<BackupSource>, SourceError>)
    ensures
        r is Ok ==> forall|j: int| 0 <= j < sources@.len() ==> top_level_name((#[trigger] sources@[j])@) is Some,
        r matches Ok(v) ==> exists|idx: Seq<usize>|
            #[trigger] is_sorted_order(source_names(sources@), idx) && v@.len() == idx.len() && forall|i: int|
                0 <= i < v@.len() ==> (#[trigger] v@[i]).path@ == sources@[idx[i] as int]@
                    && v@[i].backup_path@ == source_names(sources@)[idx[i] as int],
        r == Err::<Vec<BackupSource>, SourceError>(SourceError::NoName) ==> exists|j: int|
            0 <= j < sources@.len() && top_level_name((#[trigger] sources@[j])@) is None,
        r == Err::<Vec<BackupSource>, SourceError>(SourceError::DuplicateName) ==> exists|i: int, j: int|
            0 <= i < j < sources@.len() && #[trigger] source_names(sources@)[i] == #[trigger] source_names(sources@)[j],
{
    let ghost ns = source_names(sources@);
    let mut names: Vec<BackupLogPath> = Vec::new();
    let mut k: usize = 0;
    while k < sources.len()
        invariant
            ns == source_names(sources@),
            k <= sources@.len(),
            names@.len() == k,
            forall|i: int| 0 <= i < k ==> (#[trigger] names@[i])@ == ns[i],
            forall|i: int| 0 <= i < k ==> top_level_name((#[trigger] sources@[i])@) is Some,
        decreases sources.len() - k,
    {
        let ghost before = names@;
        match get_top_level_backup_dir(sources[k].as_slice()) {
            Ok(n) => {
                names.push(n);
                assert(ns[k as int] == top_level_name(sources@[k as int]@).unwrap());
                assert forall|i: int| 0 <= i < k + 1 implies (#[trigger] names@[i])@ == ns[i] by {
                    if i < k {
                        assert(names@[i] == before[i]);
                    }
                }
            },
            Err(e) => return Err(e),
        }
        k = k + 1;
    }
    assert(key_views(names@) =~= ns);
    let idx = match sorted_order(&names) {
        Some(idx) => idx,
        None => {
            proof {
                let (i, j) = choose|i: int, j: int| 0 <= i < j < names@.len() && #[trigger] names@[i]@ == #[trigger] names@[j]@;
                assert(ns[i] == ns[j]);
            }
            return Err(SourceError::DuplicateName);
        },
    };
    let mut out: Vec<BackupSource> = Vec::new();
    let mut i: usize = 0;
    while i < idx.len()
        invariant
            ns == source_names(sources@),
            names@.len() == sources@.len(),
            forall|m: int| 0 <= m < names@.len() ==> (#[trigger] names@[m])@ == ns[m],
            forall|m: int| 0 <= m < sources@.len() ==> top_level_name((#[trigger] sources@[m])@) is Some,
            is_sorted_order(ns, idx@),
            i <= idx@.len(),
            out@.len() == i,
            forall|m: int|
                0 <= m < i ==> (#[trigger] out@[m]).path@ == sources@[idx@[m] as int]@ && out@[m].backup_path@ == ns[idx@[m] as int],
        decreases idx.len() - i,
    {
        let j = idx[i];
        assert(j < sources@.len());
        let path = crate::parser::copy_range(&sources[j], 0, sources[j].len());
        assert(path@ =~= sources@[j as int]@);
        out.push(BackupSource { path, backup_path: names[j].duplicate() });
        i = i + 1;
    }
    Ok(out)
}

/// The sort key of a directory entry: its name, with `/` after a directory's,
/// so that a walk in key order visits full paths in byte order.
pub open spec fn child_key(name: Seq<u8>, is_dir: bool) -> Seq<u8> {
    if is_dir {
        name.push(47)
    } else {
        name
    }
}

pub open spec fn child_keys(names: Seq<Vec<u8>>, dirs: Seq<bool>) -> Seq<Seq<u8>> {
    Seq::new(names.len(), |i: int| child_key(names[i]@, dirs[i]))
}

/// The order in which a walk visits the entries of one directory, or `None`
/// where two entries have the same key.
pub fn order_children(names: &Vec<Vec<u8>>, is_dir: &Vec<bool>) -> (r: Option<Vec<usize>>)
    requires
        names@.len() == is_dir@.len(),
    ensures
        r matches Some(idx) ==> is_sorted_order(child_keys(names@, is_dir@), idx@),
        r is None ==> exists|i: int, j: int|
            0 <= i < j < names@.len() && #[trigger] child_keys(names@, is_dir@)[i] == #[trigger] child_keys(names@, is_dir@)[j],
{
    let ghost ck = child_keys(names@, is_dir@);
    let mut keys: Vec<BackupLogPath> = Vec::new();
    let mut k: usize = 0;
    while k < names.len()
        invariant
            ck == child_keys(names@, is_dir@),
            names@.len() == is_dir@.len(),
            k <= names@.len(),
            keys@.len() == k,
            forall|i: int| 0 <= i < k ==> (#[trigger] keys@[i])@ == ck[i],
        decreases names.len() - k,
    {
        let mut v = crate::parser::copy_range(&names[k], 0, names[k].len());
        if is_dir[k] {
            v.push(47);
        }
        assert(v@ =~= ck[k as int]);
        keys.push(BackupLogPath::new(v));
        k = k + 1;
    }
    assert(key_views(keys@) =~= ck);
    let r = sorted_order(&keys);
    proof {
        if r is None {
            let (i, j) = choose|i: int, j: int| 0 <= i < j < keys@.len() && #[trigger] keys@[i]@ == #[trigger] keys@[j]@;
            assert(ck[i] == ck[j]);
        }
    }
    r
}

} // verus!
