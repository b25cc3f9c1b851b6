//! Disk usage and age of a directory, from what a walk recorded of it.
use std::collections::HashSet;

use vstd::prelude::*;

use crate::file_path::FilePath;
use crate::scan::{Measurement, MeasurementView, Timestamp};

verus! {

/// 2^64, the number of values that 64 bits hold.
pub const WORD: u128 = 0x1_0000_0000_0000_0000;

/// What a walk records of one entry of the file system.
#[derive(Clone, Copy, Debug, PartialEq, Eq, Structural)]
pub struct EntryRec {
    /// The device that holds the entry.
    pub dev: u64,
    /// The number of the entry's inode on that device.
    pub ino: u64,
    /// Its disk usage in bytes.
    pub size: u64,
    /// When it was last modified, in nanoseconds since the Unix epoch.
    pub mtime_ns: u64,
}

/// Nanoseconds since the epoch in 64 bits; nothing before the epoch.
pub open spec fn since_epoch(modified: Option<Timestamp>) -> u64 {
    match modified {
        Some(t) if t >= 0 => (t as int % WORD as int) as u64,
        _ => 0,
    }
}

/// Records one entry of the file system: its identity, its disk usage as a
/// number of blocks of 512 bytes, and its modification time if that is known.
pub fn record_entry(dev: u64, ino: u64, blocks: u64, modified: Option<Timestamp>) -> (r: EntryRec)
    ensures
        r == (EntryRec {
            dev,
            ino,
            size: (blocks * 512 % WORD as int) as u64,
            mtime_ns: since_epoch(modified),
        }),
{
    let bytes: u128 = blocks as u128 * 512;
    let mtime_ns: u64 = match modified {
        Some(t) => if t >= 0 {
            (t as u128 % WORD) as u64
        } else {
            0
        },
        None => 0,
    };
    EntryRec { dev, ino, size: (bytes % WORD) as u64, mtime_ns }
}

/// Whether two records are of one inode.
pub open spec fn same_inode(a: EntryRec, b: EntryRec) -> bool {
    a.dev == b.dev && a.ino == b.ino
}

/// Whether a record of the same inode is among `recs`.
pub open spec fn recorded(recs: Seq<EntryRec>, r: EntryRec) -> bool {
    exists|i: int| 0 <= i < recs.len() && same_inode(#[trigger] recs[i], r)
}

/// The records that count: the first one of each inode.
pub open spec fn counted(recs: Seq<EntryRec>) -> Seq<EntryRec>
    decreases recs.len(),
{
    if recs.len() == 0 {
        recs
    } else if recorded(recs.drop_last(), recs.last()) {
        counted(recs.drop_last())
    } else {
        counted(recs.drop_last()).push(recs.last())
    }
}

/// The sum of the sizes.
pub open spec fn bytes_of(recs: Seq<EntryRec>) -> nat
    decreases recs.len(),
{
    if recs.len() == 0 {
        0
    } else {
        bytes_of(recs.drop_last()) + recs.last().size as nat
    }
}

/// The newest modification time, or the epoch if there is none.
pub open spec fn newest_of(recs: Seq<EntryRec>) -> u64
    decreases recs.len(),
{
    if recs.len() == 0 {
        0
    } else if newest_of(recs.drop_last()) < recs.last().mtime_ns {
        recs.last().mtime_ns
    } else {
        newest_of(recs.drop_last())
    }
}

/// The disk usage of a directory: each inode counts once. In 64 bits.
pub open spec fn disk_usage(recs: Seq<EntryRec>) -> u64 {
    (bytes_of(counted(recs)) % WORD as nat) as u64
}

/// The number that stands for an inode.
spec fn inode_key(r: EntryRec) -> u128 {
    (r.dev * WORD + r.ino) as u128
}

/// The number stands for one inode only.
proof fn lemma_inode_key(a: EntryRec, b: EntryRec)
    ensures
        inode_key(a) == inode_key(b) <==> same_inode(a, b),
        inode_key(a) == a.dev * WORD + a.ino,
{
}

/// Adds up the disk usage of the records, each inode once, and finds the
/// newest modification time.
pub fn fold_records(recs: &Vec<EntryRec>) -> (r: (u64, Timestamp))
    ensures
        r.0 == disk_usage(recs@),
        r.1 == newest_of(counted(recs@)),
{
    broadcast use vstd::std_specs::hash::group_hash_axioms;

    let mut seen: HashSet<u128> = HashSet::new();
    let mut total: u64 = 0;
    let mut newest: u64 = 0;
    assert(recs@.take(0) =~= Seq::<EntryRec>::empty());
    for i in 0..recs.len()
        invariant
            total == disk_usage(recs@.take(i as int)),
            newest == newest_of(counted(recs@.take(i as int))),
            forall|k: u128|
                seen@.contains(k) <==> exists|j: int|
                    0 <= j < i && inode_key(#[trigger] recs@[j]) == k,
    {
        broadcast use vstd::std_specs::hash::group_hash_axioms;

        let rec = recs[i];
        let ghost done = recs@.take(i as int);
        let ghost now = recs@.take(i + 1);
        assert(now.drop_last() =~= done);
        assert(now.last() == rec);
        proof {
            lemma_inode_key(rec, rec);
        }
        let key: u128 = rec.dev as u128 * WORD + rec.ino as u128;
        let ghost before = seen@;
        let fresh: bool = seen.insert(key);
        assert(fresh == !recorded(done, rec)) by {
            assert forall|j: int| 0 <= j < i implies (inode_key(#[trigger] recs@[j]) == key
                <==> same_inode(recs@[j], rec)) by {
                lemma_inode_key(recs@[j], rec);
            }
            if recorded(done, rec) {
                let j = choose|j: int| 0 <= j < done.len() && same_inode(#[trigger] done[j], rec);
                assert(recs@[j] == done[j]);
                assert(before.contains(key));
            } else {
                assert forall|j: int| 0 <= j < i implies inode_key(#[trigger] recs@[j]) != key by {
                    assert(done[j] == recs@[j]);
                    assert(!same_inode(done[j], rec));
                }
            }
        }
        assert forall|k: u128| seen@.contains(k) <==> exists|j: int|
            0 <= j < i + 1 && inode_key(#[trigger] recs@[j]) == k by {
            if seen@.contains(k) {
                if before.contains(k) {
                    let j = choose|j: int| 0 <= j < i && inode_key(#[trigger] recs@[j]) == k;
                    assert(inode_key(recs@[j]) == k);
                } else {
                    assert(inode_key(recs@[i as int]) == k);
                }
            }
        }
        if fresh {
            let ghost kept = counted(now);
            assert(kept.drop_last() =~= counted(done));
            assert(kept.last() == rec);
            total = total.wrapping_add(rec.size);
            if newest < rec.mtime_ns {
                newest = rec.mtime_ns;
            }
        }
    }
    assert(recs@.take(recs@.len() as int) =~= recs@);
    (total, newest as i128)
}

/// The disk usage and the newest modification time of a directory, from the
/// records of a walk through it. A directory that is not there, or is a link,
/// counts as empty and as old as can be.
pub fn recursive_scan_target(walk: &Option<Vec<EntryRec>>) -> (r: (u64, Timestamp))
    ensures
        match walk {
            Some(recs) => r.0 == disk_usage(recs@) && r.1 == newest_of(counted(recs@)),
            None => r == (0u64, 0i128),
        },
{
    match walk {
        Some(recs) => fold_records(recs),
        None => (0, 0),
    }
}

/// What measuring a directory yields, from the records of a walk through it,
/// or nothing if it is not there or is a link.
pub open spec fn measured(target_dir: Seq<u8>, walk: Option<Seq<EntryRec>>) -> MeasurementView {
    match walk {
        Some(recs) => MeasurementView {
            target_dir,
            size: disk_usage(recs),
            last_modified: Some(newest_of(counted(recs)) as i128),
        },
        None => MeasurementView { target_dir, size: 0, last_modified: None },
    }
}

/// The view of an optional walk.
pub open spec fn walk_view(walk: Option<Vec<EntryRec>>) -> Option<Seq<EntryRec>> {
    match walk {
        Some(recs) => Some(recs@),
        None => None,
    }
}

/// Measures one directory, from the records of a walk through it. One that is
/// not there, or is a link, has no modification time.
pub fn measure_target(target_dir: &FilePath, walk: &Option<Vec<EntryRec>>) -> (r: Measurement)
    ensures
        r@ == measured(target_dir@, walk_view(*walk)),
{
    let (size, newest) = recursive_scan_target(walk);
    Measurement {
        target_dir: target_dir.clone(),
        size,
        last_modified: if walk.is_some() {
            Some(newest)
        } else {
            None
        },
    }
}

/// Law: another record of an inode that was recorded changes nothing: hard
/// links count once.
pub proof fn law_hard_links_count_once(recs: Seq<EntryRec>, link: EntryRec)
    requires
        recorded(recs, link),
    ensures
        counted(recs.push(link)) == counted(recs),
        disk_usage(recs.push(link)) == disk_usage(recs),
{
    assert(recs.push(link).drop_last() =~= recs);
}

/// Law: the records that count are of different inodes, and every inode that
/// was recorded is among them.
pub proof fn law_counted(recs: Seq<EntryRec>)
    ensures
        forall|i: int, j: int|
            0 <= i < j < counted(recs).len() ==> !same_inode(
                #[trigger] counted(recs)[i],
                #[trigger] counted(recs)[j],
            ),
        forall|r: EntryRec| #[trigger] recorded(recs, r) <==> recorded(counted(recs), r),
    decreases recs.len(),
{
    if recs.len() > 0 {
        let d = recs.drop_last();
        let last = recs.last();
        law_counted(d);
        let c = counted(recs);
        let before = counted(d);
        assert forall|r: EntryRec| #[trigger] recorded(recs, r) <==> recorded(c, r) by {
            if recorded(recs, r) {
                let i = choose|i: int| 0 <= i < recs.len() && same_inode(#[trigger] recs[i], r);
                if i < d.len() {
                    assert(d[i] == recs[i]);
                    assert(recorded(d, r));
                } else if recorded(d, last) {
                    let k = choose|k: int| 0 <= k < d.len() && same_inode(#[trigger] d[k], last);
                    assert(same_inode(d[k], r));
                    assert(recorded(d, r));
                }
                if recorded(d, r) {
                    let k = choose|k: int|
                        0 <= k < before.len() && same_inode(#[trigger] before[k], r);
                    assert(c[k] == before[k]);
                } else {
                    assert(same_inode(c[before.len() as int], r));
                }
            }
            if recorded(c, r) {
                let i = choose|i: int| 0 <= i < c.len() && same_inode(#[trigger] c[i], r);
                if i < before.len() {
                    assert(before[i] == c[i]);
                    assert(recorded(before, r));
                    assert(recorded(d, r));
                    let k = choose|k: int| 0 <= k < d.len() && same_inode(#[trigger] d[k], r);
                    assert(recs[k] == d[k]);
                } else {
                    assert(same_inode(recs[recs.len() - 1], r));
                }
            }
        }
        assert forall|i: int, j: int| 0 <= i < j < c.len() implies !same_inode(
            #[trigger] c[i],
            #[trigger] c[j],
        ) by {
            assert(c[i] == before[i]);
            if j < before.len() {
                assert(c[j] == before[j]);
            } else {
                assert(!recorded(d, last));
                assert(!recorded(before, last));
                assert(!same_inode(before[i], last));
            }
        }
    }
}

/// Law: the newest modification time is that of some record that counts, and
/// no record that counts is newer.
pub proof fn law_newest(recs: Seq<EntryRec>)
    ensures
        forall|i: int| 0 <= i < recs.len() ==> (#[trigger] recs[i]).mtime_ns <= newest_of(recs),
        recs.len() > 0 ==> exists|i: int|
            0 <= i < recs.len() && (#[trigger] recs[i]).mtime_ns == newest_of(recs),
    decreases recs.len(),
{
    if recs.len() > 0 {
        let d = recs.drop_last();
        law_newest(d);
        assert forall|i: int| 0 <= i < recs.len() implies (#[trigger] recs[i]).mtime_ns
            <= newest_of(recs) by {
            if i < d.len() {
                assert(d[i] == recs[i]);
            }
        }
        if newest_of(d) < recs.last().mtime_ns || d.len() == 0 {
            assert(recs[recs.len() - 1].mtime_ns == newest_of(recs));
        } else {
            let i = choose|i: int| 0 <= i < d.len() && (#[trigger] d[i]).mtime_ns == newest_of(d);
            assert(recs[i] == d[i]);
        }
    }
}

/// Law: a record of an inode that is new adds its bytes and may be the newest; one of
/// an inode that was recorded, on the same device under the same number, adds nothing.
pub proof fn law_next_record(recs: Seq<EntryRec>, r: EntryRec)
    ensures
        (forall|i: int| 0 <= i < recs.len() ==> (#[trigger] recs[i]).dev != r.dev || recs[i].ino
            != r.ino) ==> {
            &&& disk_usage(recs.push(r)) == (disk_usage(recs) + r.size)
                % 0x1_0000_0000_0000_0000
            &&& newest_of(counted(recs.push(r))) == if newest_of(counted(recs)) < r.mtime_ns {
                r.mtime_ns
            } else {
                newest_of(counted(recs))
            }
        },
        (exists|i: int| 0 <= i < recs.len() && (#[trigger] recs[i]).dev == r.dev && recs[i].ino
            == r.ino) ==> {
            &&& disk_usage(recs.push(r)) == disk_usage(recs)
            &&& newest_of(counted(recs.push(r))) == newest_of(counted(recs))
        },
        disk_usage(Seq::empty()) == 0,
        newest_of(counted(Seq::empty())) == 0,
{
    let next = recs.push(r);
    assert(next.drop_last() =~= recs);
    if exists|i: int| 0 <= i < recs.len() && (#[trigger] recs[i]).dev == r.dev && recs[i].ino
        == r.ino {
        let i = choose|i: int|
            0 <= i < recs.len() && (#[trigger] recs[i]).dev == r.dev && recs[i].ino == r.ino;
        assert(same_inode(recs[i], r));
        assert(recorded(recs, r));
    } else {
        assert(!recorded(recs, r));
        assert(counted(next).drop_last() =~= counted(recs));
    }
}

/// Law: a modification time is kept to the nanosecond while 64 bits hold it; a time
/// before the epoch, or none, counts as the epoch.
pub proof fn law_since_epoch(t: Timestamp)
    ensures
        0 <= t < 0x1_0000_0000_0000_0000 ==> since_epoch(Some(t)) == t,
        t < 0 ==> since_epoch(Some(t)) == 0,
        since_epoch(None) == 0,
{
}

/// Law: what was walked through is measured by its records, also if there are none;
/// what was not is empty and has no modification time.
pub proof fn law_measured(dir: Seq<u8>, recs: Seq<EntryRec>)
    ensures
        measured(dir, None).size == 0,
        measured(dir, None).last_modified is None,
        measured(dir, None).target_dir == dir,
        measured(dir, Some(recs)).target_dir == dir,
        measured(dir, Some(recs)).size == disk_usage(recs),
        measured(dir, Some(recs)).last_modified matches Some(t) && t == newest_of(counted(recs)),
{
}

} // verus!
