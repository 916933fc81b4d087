//! Scaling per-process disk swap estimates so that they add up to the swap
//! the system reports in use.
//!
//! `WindowServer`'s estimate is kept (capped at the system figure); the
//! other processes share the rest in proportion to their estimates, each
//! share computed in double precision and rounded to the nearest byte; the
//! process with the largest estimate absorbs the rounding difference, and
//! when a rounding excess is larger than its share, the rest is taken from
//! the other processes, the largest first.
use vstd::prelude::*;
use crate::scanner::ProcessMemory;
use crate::float::{double_div, double_of, f64_share, scale_share, share_factor};
use crate::size::clamp_u64;
use crate::text::{contains, contains_exec, to_chars};

verus! {

/// The process is `WindowServer` (its name contains that word).
pub open spec fn is_window_server(p: ProcessMemory) -> bool {
    contains(p.name@, "WindowServer"@)
}

/// The first `WindowServer` at or after index `i`.
pub open spec fn window_server_from(ps: Seq<ProcessMemory>, i: int) -> Option<int>
    decreases ps.len() - i,
{
    if i < 0 || i >= ps.len() {
        None
    } else if is_window_server(ps[i]) {
        Some(i)
    } else {
        window_server_from(ps, i + 1)
    }
}

/// The index of the first `WindowServer`.
pub open spec fn window_server_index(ps: Seq<ProcessMemory>) -> Option<int> {
    window_server_from(ps, 0)
}

/// Swap shown for `WindowServer`: its estimate capped at the system figure
/// (0 when there is none).
pub open spec fn window_server_share(ps: Seq<ProcessMemory>, system: u64) -> u64 {
    match window_server_index(ps) {
        Some(i) => if ps[i].swap_disk_est < system {
            ps[i].swap_disk_est
        } else {
            system
        },
        None => 0,
    }
}

/// Swap left for the other processes.
pub open spec fn remaining_share(ps: Seq<ProcessMemory>, system: u64) -> u64 {
    (system - window_server_share(ps, system)) as u64
}

/// Sum of the estimates of the processes before index `n` other than
/// `WindowServer`.
pub open spec fn others_est_sum(ps: Seq<ProcessMemory>, n: int) -> nat
    decreases n,
{
    if n <= 0 {
        0
    } else if window_server_index(ps) == Some(n - 1) {
        others_est_sum(ps, n - 1)
    } else {
        others_est_sum(ps, n - 1) + ps[n - 1].swap_disk_est as nat
    }
}

/// Sum of the other processes' estimates, saturated to `u64`.
pub open spec fn others_total(ps: Seq<ProcessMemory>) -> u64 {
    clamp_u64(others_est_sum(ps, ps.len() as int))
}

/// A process's share of `remaining`: `est * (remaining / total)` computed
/// in double precision and rounded to the nearest integer, halves away
/// from zero (see [`f64_share`]).
pub open spec fn scaled_share(est: u64, remaining: u64, total: u64) -> u64 {
    f64_share(est, remaining, total)
}

/// The share of process `i` (not `WindowServer`).
pub open spec fn share_of(ps: Seq<ProcessMemory>, system: u64, i: int) -> u64 {
    scaled_share(ps[i].swap_disk_est, remaining_share(ps, system), others_total(ps))
}

/// Sum of the shares of the other processes before index `n`.
pub open spec fn shares_sum(ps: Seq<ProcessMemory>, system: u64, n: int) -> nat
    decreases n,
{
    if n <= 0 {
        0
    } else if window_server_index(ps) == Some(n - 1) {
        shares_sum(ps, system, n - 1)
    } else {
        shares_sum(ps, system, n - 1) + share_of(ps, system, n - 1) as nat
    }
}

/// Among the other processes before index `n`, the first with the largest
/// estimate, when that estimate is positive, with that estimate.
pub open spec fn largest_other_upto(ps: Seq<ProcessMemory>, n: int) -> (Option<int>, u64)
    decreases n,
{
    if n <= 0 {
        (None, 0)
    } else {
        let prev = largest_other_upto(ps, n - 1);
        if window_server_index(ps) != Some(n - 1) && ps[n - 1].swap_disk_est > prev.1 {
            (Some(n - 1), ps[n - 1].swap_disk_est)
        } else {
            prev
        }
    }
}

/// The process that absorbs the rounding difference: the other process
/// with the largest estimate, else `WindowServer`.
pub open spec fn adjusted_index(ps: Seq<ProcessMemory>) -> Option<int> {
    match largest_other_upto(ps, ps.len() as int).0 {
        Some(j) => Some(j),
        None => window_server_index(ps),
    }
}

/// Shown swap after scaling, before the rounding difference is absorbed.
pub open spec fn scaled_sum(ps: Seq<ProcessMemory>, system: u64) -> u64 {
    clamp_u64(window_server_share(ps, system) as nat + shares_sum(ps, system, ps.len() as int))
}

/// `v` moved by the difference between `system` and `current`, saturating.
pub open spec fn absorb(v: u64, current: u64, system: u64) -> u64 {
    if system < current {
        if v >= current - system {
            (v - (current - system)) as u64
        } else {
            0
        }
    } else {
        clamp_u64((v + (system - current)) as nat)
    }
}

/// The shown swap of process `i` after the scaling pass: the shares, with
/// the rounding difference moved onto the process that absorbs it (as far
/// as its share goes when the difference is an excess).
pub open spec fn first_pass_swap(ps: Seq<ProcessMemory>, system: u64, i: int) -> u64 {
    let ws = window_server_index(ps);
    if system == 0 || ps.len() == 0 {
        ps[i].swap_disk
    } else if others_total(ps) == 0 {
        if ws == Some(i) {
            window_server_share(ps, system)
        } else {
            0
        }
    } else {
        let v = if ws == Some(i) {
            window_server_share(ps, system)
        } else {
            share_of(ps, system, i)
        };
        let current = scaled_sum(ps, system);
        if current != system && adjusted_index(ps) == Some(i) {
            absorb(v, current, system)
        } else {
            v
        }
    }
}

/// The shown swap of every process after the scaling pass.
pub open spec fn first_pass(ps: Seq<ProcessMemory>, system: u64) -> Seq<u64> {
    Seq::new(ps.len(), |i: int| first_pass_swap(ps, system, i))
}

/// The part of a rounding excess that the absorbing process's share could
/// not take.
pub open spec fn leftover_excess(ps: Seq<ProcessMemory>, system: u64) -> nat {
    if system == 0 || ps.len() == 0 || others_total(ps) == 0 {
        0
    } else {
        let current = scaled_sum(ps, system);
        match adjusted_index(ps) {
            Some(j) => {
                let v = if window_server_index(ps) == Some(j) {
                    window_server_share(ps, system)
                } else {
                    share_of(ps, system, j)
                };
                if system < current && v < current - system {
                    (current - system - v) as nat
                } else {
                    0
                }
            },
            None => 0,
        }
    }
}

/// Sum of the values before index `n`, leaving out index `skip`.
pub open spec fn sum_except(vals: Seq<u64>, skip: Option<int>, n: int) -> nat
    decreases n,
{
    if n <= 0 {
        0
    } else if skip == Some(n - 1) {
        sum_except(vals, skip, n - 1)
    } else {
        sum_except(vals, skip, n - 1) + vals[n - 1] as nat
    }
}

/// Among the values before index `n` other than `skip`, the first of the
/// largest, when it is positive.
pub open spec fn largest_value_upto(vals: Seq<u64>, skip: Option<int>, n: int) -> Option<int>
    decreases n,
{
    if n <= 0 {
        None
    } else {
        let prev = largest_value_upto(vals, skip, n - 1);
        if skip != Some(n - 1) && vals[n - 1] > 0 && match prev {
            Some(k) => vals[n - 1] > vals[k],
            None => true,
        } {
            Some(n - 1)
        } else {
            prev
        }
    }
}

/// `excess` taken away from the values other than `skip`: from the largest
/// value first (the first of equal ones), then the next largest, until the
/// excess is gone or every such value is 0.
pub open spec fn take_excess(vals: Seq<u64>, skip: Option<int>, excess: nat) -> Seq<u64>
    decreases excess,
{
    if excess == 0 {
        vals
    } else {
        match largest_value_upto(vals, skip, vals.len() as int) {
            Some(j) => {
                let t: nat = if vals[j] < excess {
                    vals[j] as nat
                } else {
                    excess
                };
                if t == 0 {
                    vals
                } else {
                    take_excess(vals.update(j, (vals[j] - t) as u64), skip, (excess - t) as nat)
                }
            },
            None => vals,
        }
    }
}

/// The shown swap of every process after normalisation: the scaling pass,
/// then what is left of a rounding excess taken from the other processes
/// (not `WindowServer`), the largest first (see [`take_excess`]).
pub open spec fn normalized_swaps(ps: Seq<ProcessMemory>, system: u64) -> Seq<u64> {
    take_excess(first_pass(ps, system), window_server_index(ps), leftover_excess(ps, system))
}

/// The processes after normalisation: each one's shown disk swap replaced
/// by [`normalized_swaps`], everything else kept.
pub open spec fn normalized(ps: Seq<ProcessMemory>, system: u64) -> Seq<ProcessMemory> {
    Seq::new(
        ps.len(),
        |i: int| ProcessMemory { swap_disk: normalized_swaps(ps, system)[i], ..ps[i] },
    )
}

/// The shown disk swap of each process.
pub open spec fn swaps_of(ps: Seq<ProcessMemory>) -> Seq<u64> {
    Seq::new(ps.len(), |i: int| ps[i].swap_disk)
}

/// An index as a specification integer.
pub open spec fn index_of(o: Option<usize>) -> Option<int> {
    match o {
        Some(i) => Some(i as int),
        None => None,
    }
}

/// `a` and `b` agree in every field but the shown disk swap.
pub open spec fn same_but_swap(a: ProcessMemory, b: ProcessMemory) -> bool {
    &&& a.pid == b.pid
    &&& a.name == b.name
    &&& a.physical_footprint == b.physical_footprint
    &&& a.compressed == b.compressed
    &&& a.swapped_total == b.swapped_total
    &&& a.swap_disk_est == b.swap_disk_est
}

/// Saturating addition keeps the running sum equal to the saturated total.
proof fn lemma_saturating_step(x: nat, y: u64)
    ensures
        (if clamp_u64(x) + y > u64::MAX {
            u64::MAX
        } else {
            (clamp_u64(x) + y) as u64
        }) == clamp_u64(x + y as nat),
{
}

/// The index of the first `WindowServer`.
fn find_window_server(ps: &[ProcessMemory]) -> (r: Option<usize>)
    ensures
        match r {
            Some(i) => window_server_index(ps@) == Some(i as int) && i < ps@.len(),
            None => window_server_index(ps@) is None,
        },
{
    let lit = to_chars("WindowServer");
    let mut i: usize = 0;
    while i < ps.len()
        invariant
            i <= ps@.len(),
            lit@ == "WindowServer"@,
            window_server_index(ps@) == window_server_from(ps@, i as int),
        decreases ps@.len() - i,
    {
        let name = to_chars(ps[i].name.as_str());
        if contains_exec(&name, &lit) {
            return Some(i);
        }
        i += 1;
    }
    None
}

/// Scales each process's shown disk swap (`swap_disk`) so that the shown
/// swap adds up to `system_swap_bytes` (see [`law_normalized_swap_adds_up`]
/// for when it does), as [`normalized`] states: nothing changes when the
/// system figure is 0 or there is no process; `WindowServer` shows its
/// estimate capped at the system figure; the others share the rest in
/// proportion to their estimates, or show 0 when they have none; the other
/// process with the largest estimate takes the rounding difference, and
/// what its share cannot take of an excess is taken from the other
/// processes, the largest first. Every field but `swap_disk` is kept.
pub fn normalize_process_swaps(processes: &mut [ProcessMemory], system_swap_bytes: u64)
    ensures
        final(processes)@ == normalized(old(processes)@, system_swap_bytes),
{
    let ghost ps0 = processes@;
    let system = system_swap_bytes;
    let n = processes.len();
    if system == 0 || n == 0 {
        assert(processes@ =~= normalized(ps0, system));
        return;
    }
    let ws = find_window_server(processes);
    let ghost wsi: Option<int> = match ws {
        Some(i) => Some(i as int),
        None => None,
    };
    assert(wsi == window_server_index(ps0));
    let ws_display: u64 = match ws {
        Some(i) => {
            let e = processes[i].swap_disk_est;
            let d = if e < system {
                e
            } else {
                system
            };
            processes[i].swap_disk = d;
            d
        },
        None => 0,
    };
    assert(ws_display == window_server_share(ps0, system));
    let ghost ps1 = processes@;
    assert(forall|j: int|
        0 <= j < n ==> same_but_swap(#[trigger] ps1[j], ps0[j]) && ps1[j].swap_disk == (if wsi
            == Some(j) {
            ws_display
        } else {
            ps0[j].swap_disk
        }));
    let remaining = system - ws_display;
    let mut sum_other: u64 = 0;
    let mut i: usize = 0;
    while i < n
        invariant
            i <= n == processes@.len() == ps0.len(),
            processes@ == ps1,
            wsi == window_server_index(ps0),
            match ws {
                Some(w) => wsi == Some(w as int),
                None => wsi is None,
            },
            forall|j: int| 0 <= j < n ==> same_but_swap(#[trigger] ps1[j], ps0[j]),
            sum_other == clamp_u64(others_est_sum(ps0, i as int)),
        decreases n - i,
    {
        let is_ws = match ws {
            Some(w) => w == i,
            None => false,
        };
        if !is_ws {
            proof {
                lemma_saturating_step(
                    others_est_sum(ps0, i as int),
                    ps0[i as int].swap_disk_est,
                );
            }
            sum_other = sum_other.saturating_add(processes[i].swap_disk_est);
        }
        i += 1;
    }
    assert(sum_other == others_total(ps0));
    if sum_other == 0 {
        let mut k: usize = 0;
        while k < n
            invariant
                k <= n == processes@.len() == ps0.len(),
                wsi == window_server_index(ps0),
                match ws {
                    Some(w) => wsi == Some(w as int),
                    None => wsi is None,
                },
                forall|j: int|
                    0 <= j < n ==> same_but_swap(#[trigger] processes@[j], ps0[j])
                        && processes@[j].swap_disk == (if wsi == Some(j) {
                        ws_display
                    } else if j < k {
                        0
                    } else {
                        ps0[j].swap_disk
                    }),
            decreases n - k,
        {
            let is_ws = match ws {
                Some(w) => w == k,
                None => false,
            };
            if !is_ws {
                processes[k].swap_disk = 0;
            }
            k += 1;
        }
        assert(processes@ =~= normalized(ps0, system));
        return;
    }
    let factor = share_factor(remaining, sum_other);
    let mut sum_scaled: u64 = 0;
    let mut best_idx: Option<usize> = None;
    let mut best: u64 = 0;
    let mut k: usize = 0;
    while k < n
        invariant
            k <= n == processes@.len() == ps0.len(),
            wsi == window_server_index(ps0),
            match ws {
                Some(w) => wsi == Some(w as int),
                None => wsi is None,
            },
            sum_other == others_total(ps0),
            sum_other > 0,
            remaining == remaining_share(ps0, system),
            (factor.0 as nat, factor.1 as int) == double_div(
                double_of(remaining as nat),
                double_of(sum_other as nat),
            ),
            factor.0 <= 0x20_0000_0000_0000,
            -200 <= factor.1 <= 200,
            ws_display == window_server_share(ps0, system),
            forall|j: int|
                0 <= j < n ==> same_but_swap(#[trigger] processes@[j], ps0[j])
                    && processes@[j].swap_disk == (if wsi == Some(j) {
                    ws_display
                } else if j < k {
                    share_of(ps0, system, j)
                } else {
                    ps0[j].swap_disk
                }),
            sum_scaled == clamp_u64(shares_sum(ps0, system, k as int)),
            (match best_idx {
                Some(b) => Some(b as int),
                None => None,
            }) == largest_other_upto(ps0, k as int).0,
            best == largest_other_upto(ps0, k as int).1,
            forall|b: usize| best_idx == Some(b) ==> b < n,
        decreases n - k,
    {
        let is_ws = match ws {
            Some(w) => w == k,
            None => false,
        };
        if !is_ws {
            let est = processes[k].swap_disk_est;
            if est > best {
                best = est;
                best_idx = Some(k);
            }
            let s = scale_share(est, factor);
            proof {
                lemma_saturating_step(shares_sum(ps0, system, k as int), s);
            }
            processes[k].swap_disk = s;
            sum_scaled = sum_scaled.saturating_add(s);
        }
        k += 1;
    }
    proof {
        lemma_saturating_step(shares_sum(ps0, system, n as int), ws_display);
    }
    let current = ws_display.saturating_add(sum_scaled);
    assert(current == scaled_sum(ps0, system));
    let target = match best_idx {
        Some(b) => Some(b),
        None => ws,
    };
    assert((match target {
        Some(b) => Some(b as int),
        None => None,
    }) == adjusted_index(ps0));
    let mut left: u64 = 0;
    if current != system {
        match target {
            Some(t) => {
                let v = processes[t].swap_disk;
                let nv = if system < current {
                    if v < current - system {
                        left = current - system - v;
                    }
                    v.saturating_sub(current - system)
                } else {
                    v.saturating_add(system - current)
                };
                processes[t].swap_disk = nv;
            },
            None => {},
        }
    }
    let ghost first = first_pass(ps0, system);
    assert(swaps_of(processes@) =~= first);
    assert(left == leftover_excess(ps0, system));
    assert forall|j: int| 0 <= j < n implies same_but_swap(#[trigger] processes@[j], ps0[j]) by {}
    take_rest(processes, ws, left, Ghost(ps0), Ghost(first));
    assert(processes@ =~= normalized(ps0, system));
}

/// Takes `left` away from the shown swap of the processes other than
/// `ws`, the largest first (see [`take_excess`]).
fn take_rest(
    processes: &mut [ProcessMemory],
    ws: Option<usize>,
    left: u64,
    Ghost(ps0): Ghost<Seq<ProcessMemory>>,
    Ghost(first): Ghost<Seq<u64>>,
)
    requires
        swaps_of(old(processes)@) == first,
        old(processes)@.len() == ps0.len(),
        forall|j: int| 0 <= j < ps0.len() ==> same_but_swap(#[trigger] old(processes)@[j], ps0[j]),
    ensures
        final(processes)@.len() == ps0.len(),
        swaps_of(final(processes)@) == take_excess(first, index_of(ws), left as nat),
        forall|j: int| 0 <= j < ps0.len() ==> same_but_swap(#[trigger] final(processes)@[j], ps0[j]),
{
    let mut left = left;
    let ghost goal = take_excess(first, index_of(ws), left as nat);
    while left > 0
        invariant
            processes@.len() == ps0.len(),
            forall|j: int| 0 <= j < ps0.len() ==> same_but_swap(#[trigger] processes@[j], ps0[j]),
            take_excess(swaps_of(processes@), index_of(ws), left as nat) == goal,
        ensures
            processes@.len() == ps0.len(),
            forall|j: int| 0 <= j < ps0.len() ==> same_but_swap(#[trigger] processes@[j], ps0[j]),
            swaps_of(processes@) == goal,
        decreases left,
    {
        let ghost vals = swaps_of(processes@);
        match largest_shown(processes, ws) {
            Some(j) => {
                proof {
                    lemma_largest_value(vals, index_of(ws), vals.len() as int);
                }
                let v = processes[j].swap_disk;
                let t = if v < left {
                    v
                } else {
                    left
                };
                processes[j].swap_disk = v - t;
                assert(swaps_of(processes@) =~= vals.update(j as int, (v - t) as u64));
                left = left - t;
            },
            None => {
                break;
            },
        }
    }
}

/// Among the processes other than `ws`, the first with the largest shown
/// swap, when that is positive.
fn largest_shown(ps: &[ProcessMemory], ws: Option<usize>) -> (r: Option<usize>)
    ensures
        index_of(r) == largest_value_upto(swaps_of(ps@), index_of(ws), ps@.len() as int),
{
    let ghost vals = swaps_of(ps@);
    let mut best: Option<usize> = None;
    let mut i: usize = 0;
    while i < ps.len()
        invariant
            i <= ps@.len(),
            vals == swaps_of(ps@),
            index_of(best) == largest_value_upto(vals, index_of(ws), i as int),
            forall|b: usize| best == Some(b) ==> b < i,
        decreases ps.len() - i,
    {
        let skip = match ws {
            Some(w) => w == i,
            None => false,
        };
        let v = ps[i].swap_disk;
        let better = match best {
            Some(b) => v > ps[b].swap_disk,
            None => true,
        };
        if !skip && v > 0 && better {
            best = Some(i);
        }
        i += 1;
    }
    best
}

/// The index that [`largest_value_upto`] picks holds a positive value
/// other than `skip`; with none, those values add up to 0.
proof fn lemma_largest_value(vals: Seq<u64>, skip: Option<int>, n: int)
    requires
        n <= vals.len(),
    ensures
        match largest_value_upto(vals, skip, n) {
            Some(j) => 0 <= j < n && skip != Some(j) && vals[j] > 0,
            None => sum_except(vals, skip, n) == 0,
        },
    decreases n,
{
    if n > 0 {
        lemma_largest_value(vals, skip, n - 1);
    }
}

/// Sum of the shown disk swap of the processes before index `n`.
pub open spec fn shown_swap_sum(ps: Seq<ProcessMemory>, n: int) -> nat
    decreases n,
{
    if n <= 0 {
        0
    } else {
        shown_swap_sum(ps, n - 1) + ps[n - 1].swap_disk as nat
    }
}

/// Sequences that agree in every field but the shown disk swap.
pub open spec fn same_but_swaps(a: Seq<ProcessMemory>, b: Seq<ProcessMemory>) -> bool {
    a.len() == b.len() && forall|j: int| 0 <= j < a.len() ==> same_but_swap(#[trigger] a[j], b[j])
}

proof fn lemma_window_server_from_congruent(a: Seq<ProcessMemory>, b: Seq<ProcessMemory>, i: int)
    requires
        same_but_swaps(a, b),
    ensures
        window_server_from(a, i) == window_server_from(b, i),
    decreases a.len() - i,
{
    if 0 <= i < a.len() {
        assert(same_but_swap(a[i], b[i]));
        lemma_window_server_from_congruent(a, b, i + 1);
    }
}

proof fn lemma_sums_congruent(a: Seq<ProcessMemory>, b: Seq<ProcessMemory>, system: u64, n: int)
    requires
        same_but_swaps(a, b),
        n <= a.len(),
        window_server_index(a) == window_server_index(b),
        others_total(a) == others_total(b),
        remaining_share(a, system) == remaining_share(b, system),
    ensures
        others_est_sum(a, n) == others_est_sum(b, n),
        shares_sum(a, system, n) == shares_sum(b, system, n),
        largest_other_upto(a, n) == largest_other_upto(b, n),
    decreases n,
{
    if n > 0 {
        assert(same_but_swap(a[n - 1], b[n - 1]));
        lemma_sums_congruent(a, b, system, n - 1);
    }
}

proof fn lemma_others_est_sum_congruent(a: Seq<ProcessMemory>, b: Seq<ProcessMemory>, n: int)
    requires
        same_but_swaps(a, b),
        n <= a.len(),
        window_server_index(a) == window_server_index(b),
    ensures
        others_est_sum(a, n) == others_est_sum(b, n),
    decreases n,
{
    if n > 0 {
        assert(same_but_swap(a[n - 1], b[n - 1]));
        lemma_others_est_sum_congruent(a, b, n - 1);
    }
}

/// Normalisation reads names and estimates only: two process lists that
/// differ only in shown swap normalise to the same shown swap.
proof fn lemma_normalized_swap_congruent(a: Seq<ProcessMemory>, b: Seq<ProcessMemory>, system: u64)
    requires
        same_but_swaps(a, b),
        system > 0,
        a.len() > 0,
    ensures
        normalized_swaps(a, system) == normalized_swaps(b, system),
{
    lemma_window_server_from_congruent(a, b, 0);
    match window_server_index(a) {
        Some(w) => {
            if 0 <= w < a.len() {
                assert(same_but_swap(a[w], b[w]));
            }
        },
        None => {},
    }
    lemma_window_server_from_in_range(a, 0);
    lemma_others_est_sum_congruent(a, b, a.len() as int);
    lemma_sums_congruent(a, b, system, a.len() as int);
    assert forall|i: int| 0 <= i < a.len() implies first_pass_swap(a, system, i) == first_pass_swap(
        b,
        system,
        i,
    ) by {
        assert(same_but_swap(a[i], b[i]));
    }
    assert(first_pass(a, system) =~= first_pass(b, system));
    lemma_largest_other(a, a.len() as int);
    match adjusted_index(a) {
        Some(j) => {
            if 0 <= j < a.len() {
                assert(same_but_swap(a[j], b[j]));
            }
        },
        None => {},
    }
    assert(leftover_excess(a, system) == leftover_excess(b, system));
}

proof fn lemma_window_server_from_in_range(ps: Seq<ProcessMemory>, i: int)
    ensures
        match window_server_from(ps, i) {
            Some(w) => i <= w < ps.len() && is_window_server(ps[w]),
            None => true,
        },
    decreases ps.len() - i,
{
    if 0 <= i < ps.len() && !is_window_server(ps[i]) {
        lemma_window_server_from_in_range(ps, i + 1);
    }
}

/// Normalisation keeps every field of every process except the shown disk
/// swap, and keeps the number of processes.
pub proof fn law_normalize_keeps_other_fields(ps: Seq<ProcessMemory>, system: u64)
    ensures
        same_but_swaps(normalized(ps, system), ps),
{
}

/// Normalising twice gives the same result as normalising once.
pub proof fn law_normalize_idempotent(ps: Seq<ProcessMemory>, system: u64)
    ensures
        normalized(normalized(ps, system), system) == normalized(ps, system),
{
    let once = normalized(ps, system);
    if system == 0 || ps.len() == 0 {
        assert(once =~= ps);
    } else {
        lemma_normalized_swap_congruent(once, ps, system);
        assert(normalized(once, system) =~= once);
    }
}

proof fn lemma_largest_other(ps: Seq<ProcessMemory>, n: int)
    requires
        n <= ps.len(),
    ensures
        match largest_other_upto(ps, n).0 {
            Some(j) => 0 <= j < n && window_server_index(ps) != Some(j) && ps[j].swap_disk_est
                == largest_other_upto(ps, n).1 && largest_other_upto(ps, n).1 > 0,
            None => others_est_sum(ps, n) == 0 && largest_other_upto(ps, n).1 == 0,
        },
    decreases n,
{
    if n > 0 {
        lemma_largest_other(ps, n - 1);
    }
}

/// `WindowServer`, when there is one, shows its estimate capped at the
/// system figure (for a positive system figure).
pub proof fn law_window_server_share(ps: Seq<ProcessMemory>, system: u64, w: int)
    requires
        system > 0,
        window_server_index(ps) == Some(w),
    ensures
        0 <= w < ps.len(),
        normalized(ps, system)[w].swap_disk == (if ps[w].swap_disk_est < system {
            ps[w].swap_disk_est
        } else {
            system
        }),
{
    lemma_window_server_from_in_range(ps, 0);
    lemma_largest_other(ps, ps.len() as int);
    lemma_take_excess(first_pass(ps, system), window_server_index(ps), leftover_excess(ps, system));
    assert(normalized_swaps(ps, system)[w] == first_pass(ps, system)[w]);
}

/// The excess (or shortfall) that the adjusted process takes.
pub open spec fn adjustment_of(ps: Seq<ProcessMemory>, system: u64, i: int) -> int {
    let current = scaled_sum(ps, system);
    if current != system && adjusted_index(ps) == Some(i) {
        absorb(share_of(ps, system, i), current, system) - share_of(ps, system, i)
    } else {
        0
    }
}

/// The sums of the scaling pass: all processes, and all but `WindowServer`.
proof fn lemma_first_pass_sums(ps: Seq<ProcessMemory>, system: u64, n: int)
    requires
        system > 0,
        others_total(ps) > 0,
        0 <= n <= ps.len(),
    ensures
        sum_except(first_pass(ps, system), None, n) == (match window_server_index(ps) {
            Some(w) => if w < n {
                window_server_share(ps, system) as int
            } else {
                0
            },
            None => 0,
        }) + shares_sum(ps, system, n) + (match adjusted_index(ps) {
            Some(j) => if j < n {
                adjustment_of(ps, system, j)
            } else {
                0
            },
            None => 0,
        }),
        sum_except(first_pass(ps, system), window_server_index(ps), n) == shares_sum(ps, system, n)
            + (match adjusted_index(ps) {
            Some(j) => if j < n {
                adjustment_of(ps, system, j)
            } else {
                0
            },
            None => 0,
        }),
    decreases n,
{
    lemma_window_server_from_in_range(ps, 0);
    lemma_largest_other(ps, ps.len() as int);
    if n > 0 {
        lemma_first_pass_sums(ps, system, n - 1);
    }
}

/// The shown swap of the normalised processes is the sum of
/// [`normalized_swaps`].
proof fn lemma_shown_sum_is_sum(ps: Seq<ProcessMemory>, system: u64, n: int)
    requires
        0 <= n <= ps.len(),
    ensures
        shown_swap_sum(normalized(ps, system), n) == sum_except(normalized_swaps(ps, system), None, n),
    decreases n,
{
    if n > 0 {
        lemma_shown_sum_is_sum(ps, system, n - 1);
    }
}

/// Changing one value changes the sums that count it by the difference.
proof fn lemma_sum_update(vals: Seq<u64>, skip: Option<int>, n: int, j: int, x: u64)
    requires
        0 <= j < vals.len(),
        n <= vals.len(),
    ensures
        sum_except(vals.update(j, x), skip, n) + (if 0 <= j < n && skip != Some(j) {
            vals[j] as nat
        } else {
            0
        }) == sum_except(vals, skip, n) + (if 0 <= j < n && skip != Some(j) {
            x as nat
        } else {
            0
        }),
    decreases n,
{
    if n > 0 {
        lemma_sum_update(vals, skip, n - 1, j, x);
    }
}

/// Taking an excess keeps the length and the value at `skip`, and lowers
/// both sums by the excess, or by all the values but `skip` when those are
/// fewer.
proof fn lemma_take_excess(vals: Seq<u64>, skip: Option<int>, excess: nat)
    ensures
        take_excess(vals, skip, excess).len() == vals.len(),
        forall|k: int|
            skip == Some(k) && 0 <= k < vals.len() ==> #[trigger] take_excess(vals, skip, excess)[k]
                == vals[k],
        sum_except(take_excess(vals, skip, excess), skip, vals.len() as int) == sum_except(
            vals,
            skip,
            vals.len() as int,
        ) - (if excess < sum_except(vals, skip, vals.len() as int) {
            excess
        } else {
            sum_except(vals, skip, vals.len() as int)
        }),
        sum_except(take_excess(vals, skip, excess), None, vals.len() as int) == sum_except(
            vals,
            None,
            vals.len() as int,
        ) - (if excess < sum_except(vals, skip, vals.len() as int) {
            excess
        } else {
            sum_except(vals, skip, vals.len() as int)
        }),
    decreases excess,
{
    let n = vals.len() as int;
    if excess > 0 {
        lemma_largest_value(vals, skip, n);
        match largest_value_upto(vals, skip, n) {
            Some(j) => {
                let t: nat = if vals[j] < excess {
                    vals[j] as nat
                } else {
                    excess
                };
                let w = vals.update(j, (vals[j] - t) as u64);
                lemma_sum_update(vals, skip, n, j, (vals[j] - t) as u64);
                lemma_sum_update(vals, None, n, j, (vals[j] - t) as u64);
                lemma_take_excess(w, skip, (excess - t) as nat);
                assert(sum_except(vals, skip, n) >= vals[j]) by {
                    lemma_sum_at_least(vals, skip, n, j);
                }
            },
            None => {},
        }
    }
}

/// A counted value is at most the sum.
proof fn lemma_sum_at_least(vals: Seq<u64>, skip: Option<int>, n: int, j: int)
    requires
        0 <= j < n <= vals.len(),
        skip != Some(j),
    ensures
        sum_except(vals, skip, n) >= vals[j],
    decreases n,
{
    if j < n - 1 {
        lemma_sum_at_least(vals, skip, n - 1, j);
    }
}

proof fn lemma_share_le_sum(ps: Seq<ProcessMemory>, system: u64, n: int, i: int)
    requires
        0 <= i < n <= ps.len(),
        window_server_index(ps) != Some(i),
    ensures
        share_of(ps, system, i) <= shares_sum(ps, system, n),
    decreases n,
{
    if i < n - 1 {
        lemma_share_le_sum(ps, system, n - 1, i);
    }
}

/// With some positive estimate among the other processes, the shown swap
/// of all processes adds up to the system figure, provided the scaled
/// shares add up within `u64`.
pub proof fn law_normalized_swap_adds_up(ps: Seq<ProcessMemory>, system: u64)
    requires
        system > 0,
        others_total(ps) > 0,
        window_server_share(ps, system) + shares_sum(ps, system, ps.len() as int) <= u64::MAX,
    ensures
        shown_swap_sum(normalized(ps, system), ps.len() as int) == system,
{
    let n = ps.len() as int;
    lemma_first_pass_sums(ps, system, n);
    lemma_window_server_from_in_range(ps, 0);
    lemma_largest_other(ps, n);
    let current = scaled_sum(ps, system);
    let wsh = window_server_share(ps, system);
    let total_shares = shares_sum(ps, system, n);
    assert(current == wsh + total_shares);
    assert(ps.len() > 0) by {
        if ps.len() == 0 {
            assert(others_est_sum(ps, 0) == 0);
        }
    }
    let j = adjusted_index(ps).unwrap();
    assert(largest_other_upto(ps, n).0 == Some(j));
    assert(0 <= j < n);
    let s = share_of(ps, system, j);
    lemma_share_le_sum(ps, system, n, j);
    let wsp: int = match window_server_index(ps) {
        Some(w) => wsh as int,
        None => {
            assert(wsh == 0);
            0
        },
    };
    assert(wsp == wsh);
    assert(wsh <= system);
    let first = first_pass(ps, system);
    let ws = window_server_index(ps);
    let left = leftover_excess(ps, system);
    lemma_take_excess(first, ws, left);
    lemma_shown_sum_is_sum(ps, system, n);
    if current == system {
        assert(adjustment_of(ps, system, j) == 0);
        assert(left == 0);
    } else if current < system {
        assert(adjustment_of(ps, system, j) == system - current);
        assert(left == 0);
    } else if s >= current - system {
        assert(adjustment_of(ps, system, j) == system - current);
        assert(left == 0);
    } else {
        assert(adjustment_of(ps, system, j) == -s);
        assert(left == current - system - s);
        assert(sum_except(first, ws, n) == total_shares - s);
        assert(left <= total_shares - s);
    }
}

proof fn lemma_others_est_sum_positive(ps: Seq<ProcessMemory>, n: int)
    requires
        0 <= n <= ps.len(),
    ensures
        others_est_sum(ps, n) > 0 <==> exists|j: int|
            0 <= j < n && window_server_index(ps) != Some(j) && #[trigger] ps[j].swap_disk_est > 0,
    decreases n,
{
    if n > 0 {
        lemma_others_est_sum_positive(ps, n - 1);
        if others_est_sum(ps, n - 1) > 0 {
            let j = choose|j: int|
                0 <= j < n - 1 && window_server_index(ps) != Some(j) && #[trigger] ps[j].swap_disk_est > 0;
            assert(0 <= j < n && window_server_index(ps) != Some(j) && ps[j].swap_disk_est > 0);
        }
    }
}

/// Whether some process other than `WindowServer` has a positive disk
/// swap estimate.
pub fn has_other_estimate(ps: &[ProcessMemory]) -> (r: bool)
    ensures
        r == (others_total(ps@) > 0),
{
    let ws = find_window_server(ps);
    let mut i: usize = 0;
    proof {
        lemma_others_est_sum_positive(ps@, ps@.len() as int);
    }
    while i < ps.len()
        invariant
            i <= ps@.len(),
            match ws {
                Some(w) => window_server_index(ps@) == Some(w as int),
                None => window_server_index(ps@) is None,
            },
            forall|j: int|
                0 <= j < i ==> !(window_server_index(ps@) != Some(j) && #[trigger] ps@[j].swap_disk_est > 0),
        decreases ps@.len() - i,
    {
        let is_ws = match ws {
            Some(w) => w == i,
            None => false,
        };
        if !is_ws && ps[i].swap_disk_est > 0 {
            assert(window_server_index(ps@) != Some(i as int) && ps@[i as int].swap_disk_est > 0);
            proof {
                lemma_others_est_sum_positive(ps@, ps@.len() as int);
            }
            return true;
        }
        i += 1;
    }
    proof {
        lemma_others_est_sum_positive(ps@, ps@.len() as int);
    }
    false
}

} // verus!
