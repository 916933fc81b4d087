//! Results of the `footprint` tool: per-process physical footprint and
//! swapped total, read from its JSON report.
use vstd::prelude::*;
use std::collections::HashMap;

verus! {

/// Footprint figures of one process.
#[derive(Debug, Clone)]
pub struct FootprintData {
    pub pid: i32,
    pub name: String,
    pub physical_footprint: u64,
    pub swapped_total: u64,
}

/// The JSON report of `footprint -j`: its list of processes.
pub struct FootprintOutput {
    pub processes: Vec<FootprintProcess>,
}

/// One process of the report. `footprint` is 0 when the report omits it.
pub struct FootprintProcess {
    pub pid: i32,
    pub name: String,
    pub footprint: u64,
    pub auxiliary: Option<FootprintAuxiliary>,
    pub summary: Option<FootprintSummary>,
}

/// The auxiliary figures of a process.
pub struct FootprintAuxiliary {
    pub phys_footprint: u64,
}

/// The summary of a process.
pub struct FootprintSummary {
    pub total: Option<FootprintTotal>,
}

/// The summary totals of a process.
pub struct FootprintTotal {
    pub swapped: u64,
}

/// The figures of one reported process: the auxiliary physical footprint
/// when present, else the plain footprint; the summary's swapped total when
/// present, else 0.
pub open spec fn footprint_figures(p: FootprintProcess) -> (u64, u64) {
    let phys = match p.auxiliary {
        Some(a) => a.phys_footprint,
        None => p.footprint,
    };
    let swapped = match p.summary {
        Some(s) => match s.total {
            Some(t) => t.swapped,
            None => 0,
        },
        None => 0,
    };
    (phys, swapped)
}

/// The entry of the first `n` reported processes for `pid` (a later
/// process with the same pid replaces an earlier one).
pub open spec fn footprint_map(ps: Seq<FootprintProcess>, n: int) -> Map<i32, FootprintData>
    decreases n,
{
    if n <= 0 {
        Map::empty()
    } else {
        let p = ps[n - 1];
        let (phys, swapped) = footprint_figures(p);
        footprint_map(ps, n - 1).insert(
            p.pid,
            FootprintData { pid: p.pid, name: p.name, physical_footprint: phys, swapped_total: swapped },
        )
    }
}

/// The figures of each reported process by pid (see [`footprint_map`]).
pub fn footprint_data_by_pid(output: FootprintOutput) -> (r: HashMap<i32, FootprintData>)
    ensures
        r@ == footprint_map(output.processes@, output.processes@.len() as int),
{
    broadcast use vstd::std_specs::hash::group_hash_axioms;

    let ghost all = output.processes@;
    let mut map: HashMap<i32, FootprintData> = HashMap::new();
    let mut rest = output.processes;
    let mut k: usize = 0;
    let n = rest.len();
    assert(rest@ =~= all.subrange(0, n as int));
    while rest.len() > 0
        invariant
            n == all.len(),
            k + rest.len() == n,
            rest@ =~= all.subrange(k as int, n as int),
            map@ == footprint_map(all, k as int),
        decreases rest.len(),
    {
        let p = rest.remove(0);
        assert(p == all[k as int]);
        let phys = match &p.auxiliary {
            Some(a) => a.phys_footprint,
            None => p.footprint,
        };
        let swapped = match &p.summary {
            Some(s) => match &s.total {
                Some(t) => t.swapped,
                None => 0,
            },
            None => 0,
        };
        let pid = p.pid;
        map.insert(pid, FootprintData { pid, name: p.name, physical_footprint: phys, swapped_total: swapped });
        k += 1;
    }
    map
}

} // verus!
