//! The messages of a full scan: the quick pass over the process list, and
//! the deep pass that reads footprints batch by batch.
use vstd::prelude::*;
use std::collections::HashMap;
use crate::cli::{compressed_or_zero, footprint_updates};
use crate::events::ScanEvent;
use crate::footprint::FootprintData;
use crate::scanner::ProcessMemory;

verus! {

/// `s` cut into consecutive batches of `size` items, the last one shorter
/// when `size` does not divide the length (as `chunks` cuts a slice).
pub open spec fn batches_of(s: Seq<i32>, size: nat) -> Seq<Seq<i32>>
    decreases s.len(),
{
    if s.len() == 0 || size == 0 {
        Seq::empty()
    } else if s.len() <= size {
        seq![s]
    } else {
        seq![s.take(size as int)] + batches_of(s.skip(size as int), size)
    }
}

/// Batching loses and reorders nothing: the batches, joined, give back
/// the pids; each holds between one and `size` pids, and every batch but
/// the last holds exactly `size`.
pub proof fn law_batches_cover(s: Seq<i32>, size: nat)
    requires
        size > 0,
    ensures
        batches_of(s, size).flatten() == s,
        forall|k: int|
            0 <= k < batches_of(s, size).len() ==> 0 < (#[trigger] batches_of(s, size)[k]).len() <= size,
        forall|k: int|
            0 <= k < batches_of(s, size).len() - 1 ==> (#[trigger] batches_of(s, size)[k]).len() == size,
    decreases s.len(),
{
    if s.len() == 0 {
        assert(batches_of(s, size) =~= Seq::<Seq<i32>>::empty());
        assert(s =~= Seq::<i32>::empty());
    } else if s.len() <= size {
        assert(batches_of(s, size) =~= seq![s]);
        assert(seq![s].flatten() =~= s + Seq::<Seq<i32>>::empty().flatten()) by {
            assert(seq![s].drop_first() =~= Seq::<Seq<i32>>::empty());
        }
        assert(s + Seq::<i32>::empty() =~= s);
    } else {
        let rest = s.skip(size as int);
        law_batches_cover(rest, size);
        let b = batches_of(s, size);
        assert(b =~= seq![s.take(size as int)] + batches_of(rest, size));
        assert(b.drop_first() =~= batches_of(rest, size));
        assert(b.flatten() == b[0] + b.drop_first().flatten());
        assert(s.take(size as int) + rest =~= s);
        assert forall|k: int| 0 <= k < b.len() implies 0 < (#[trigger] b[k]).len() <= size by {
            if k > 0 {
                assert(b[k] == batches_of(rest, size)[k - 1]);
            }
        }
        assert forall|k: int| 0 <= k < b.len() - 1 implies (#[trigger] b[k]).len() == size by {
            if k > 0 {
                assert(b[k] == batches_of(rest, size)[k - 1]);
            }
        }
    }
}

/// The pids cut into batches of `size` (see [`batches_of`]).
pub fn pid_batches(pids: &Vec<i32>, size: usize) -> (r: Vec<Vec<i32>>)
    requires
        size > 0,
    ensures
        r@.map_values(|b: Vec<i32>| b@) == batches_of(pids@, size as nat),
{
    let mut r: Vec<Vec<i32>> = Vec::new();
    let mut start: usize = 0;
    assert(pids@.skip(0) =~= pids@);
    assert(r@.map_values(|b: Vec<i32>| b@) + batches_of(pids@, size as nat) =~= batches_of(pids@, size as nat));
    while start < pids.len()
        invariant
            size > 0,
            start <= pids.len(),
            r@.map_values(|b: Vec<i32>| b@) + batches_of(pids@.skip(start as int), size as nat)
                == batches_of(pids@, size as nat),
        decreases pids.len() - start,
    {
        let rest = pids.len() - start;
        let end = if rest <= size {
            pids.len()
        } else {
            start + size
        };
        let mut batch: Vec<i32> = Vec::new();
        let mut k: usize = start;
        while k < end
            invariant
                start <= k <= end <= pids.len(),
                batch@ =~= pids@.subrange(start as int, k as int),
            decreases end - k,
        {
            batch.push(pids[k]);
            k += 1;
        }
        let ghost tail = pids@.skip(start as int);
        proof {
            if rest <= size {
                assert(batch@ =~= tail);
                assert(pids@.skip(end as int) =~= Seq::<i32>::empty());
            } else {
                assert(batch@ =~= tail.take(size as int));
                assert(tail.skip(size as int) =~= pids@.skip(end as int));
            }
        }
        let ghost before = r@.map_values(|b: Vec<i32>| b@);
        r.push(batch);
        assert(r@.map_values(|b: Vec<i32>| b@) =~= before.push(batch@));
        assert(r@.map_values(|b: Vec<i32>| b@) + batches_of(pids@.skip(end as int), size as nat)
            =~= before + batches_of(tail, size as nat));
        start = end;
    }
    assert(batches_of(pids@.skip(start as int), size as nat) =~= Seq::<Seq<i32>>::empty());
    assert(r@.map_values(|b: Vec<i32>| b@) =~= r@.map_values(|b: Vec<i32>| b@) + Seq::<Seq<i32>>::empty());
    r
}

/// `e` announces the quick scan's progress at `count`, on process `name`.
pub open spec fn is_progress(e: ScanEvent, count: usize, name: Seq<char>) -> bool {
    e matches ScanEvent::Progress(c, n) && c == count && n@ == name
}

/// `e` carries the quick-scan figures of a process: only its resident size
/// `rss`, as physical footprint.
pub open spec fn is_quick_result(e: ScanEvent, pid: i32, name: Seq<char>, rss: u64) -> bool {
    e matches ScanEvent::Result(p) && p.pid == pid && p.name@ == name && p.physical_footprint == rss
        && p.compressed == 0 && p.swapped_total == 0 && p.swap_disk_est == 0 && p.swap_disk == 0
}

/// The messages of the quick pass over `entries` (pid, name, resident
/// size): `Start(n)`; then for each entry, its count from 1 and name, and
/// its figures; then `DeepScanStart(n)`.
pub fn quick_scan_events(entries: Vec<(i32, String, u64)>) -> (r: Vec<ScanEvent>)
    ensures
        r@.len() == 2 * entries@.len() + 2,
        r@[0] matches ScanEvent::Start(t) && t == entries@.len(),
        r@[2 * (entries@.len() as int) + 1] matches ScanEvent::DeepScanStart(t) && t == entries@.len(),
        forall|i: int|
            0 <= i < entries@.len() ==> is_progress(r@[2 * i + 1], (i + 1) as usize, #[trigger] entries@[i].1@)
                && is_quick_result(r@[2 * i + 2], entries@[i].0, entries@[i].1@, entries@[i].2),
{
    let n = entries.len();
    let mut r: Vec<ScanEvent> = Vec::new();
    r.push(ScanEvent::Start(n));
    let mut i: usize = 0;
    while i < n
        invariant
            n == entries.len(),
            i <= n,
            r@.len() == 2 * i + 1,
            r@[0] matches ScanEvent::Start(t) && t == n,
            forall|j: int|
                0 <= j < i ==> is_progress(r@[2 * j + 1], (j + 1) as usize, #[trigger] entries@[j].1@)
                    && is_quick_result(r@[2 * j + 2], entries@[j].0, entries@[j].1@, entries@[j].2),
        decreases n - i,
    {
        let pid = entries[i].0;
        let name = entries[i].1.clone();
        let rss = entries[i].2;
        r.push(ScanEvent::Progress(i + 1, name.clone()));
        r.push(ScanEvent::Result(ProcessMemory::new_simple(pid, name, rss)));
        i += 1;
    }
    r.push(ScanEvent::DeepScanStart(n));
    r
}

/// Some pid of `batch` has footprint figures in `footprints`.
pub open spec fn batch_has_figures(batch: Seq<i32>, footprints: Map<i32, FootprintData>) -> bool {
    exists|k: int| 0 <= k < batch.len() && footprints.contains_key(#[trigger] batch[k])
}

/// `updates` holds, for each pid of `batch` that `footprints` holds, its
/// footprint figures and its compressed size (0 when `compressed` has
/// none), and nothing else.
pub open spec fn batch_updates(
    updates: Map<i32, (FootprintData, u64)>,
    batch: Seq<i32>,
    footprints: Map<i32, FootprintData>,
    compressed: Map<i32, u64>,
) -> bool {
    &&& forall|pid: i32|
        #[trigger] updates.contains_key(pid) <==> batch.contains(pid) && footprints.contains_key(pid)
    &&& forall|pid: i32|
        #[trigger] updates.contains_key(pid) ==> updates[pid] == (
            footprints[pid],
            compressed_or_zero(compressed, pid),
        )
}

/// One batch of the deep pass, after `processed` pids were done: when the
/// footprints of the batch were read and some pid of it has figures, the
/// update for the batch; then the new count. The count is returned too.
pub fn deep_scan_step(
    batch: &Vec<i32>,
    footprints: Option<HashMap<i32, FootprintData>>,
    compressed: &HashMap<i32, u64>,
    processed: usize,
) -> (r: (Vec<ScanEvent>, usize))
    requires
        processed + batch.len() <= usize::MAX,
    ensures
        r.1 == processed + batch.len(),
        match footprints {
            Some(fp) if batch_has_figures(batch@, fp@) => r.0@.len() == 2 && (r.0@[0] matches ScanEvent::BatchUpdate(u)
                && batch_updates(u@, batch@, fp@, compressed@)),
            _ => r.0@.len() == 1,
        },
        r.0@.last() matches ScanEvent::DeepScanProgress(c) && c == r.1,
{
    let count = processed + batch.len();
    let mut r: Vec<ScanEvent> = Vec::new();
    match footprints {
        Some(fp) => {
            let mut any = false;
            let mut k: usize = 0;
            while k < batch.len()
                invariant
                    k <= batch.len(),
                    any <==> exists|j: int| 0 <= j < k && fp@.contains_key(#[trigger] batch@[j]),
                decreases batch.len() - k,
            {
                if fp.contains_key(&batch[k]) {
                    any = true;
                }
                k += 1;
            }
            if any {
                let updates = footprint_updates(batch, &fp, compressed);
                r.push(ScanEvent::BatchUpdate(updates));
            }
        },
        None => {},
    }
    r.push(ScanEvent::DeepScanProgress(count));
    (r, count)
}

} // verus!
