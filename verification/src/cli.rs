//! The one-shot report: merging deep-scan figures, the system swap reading
//! of `sysctl vm.swapusage`, and the text of the report lines.
use vstd::prelude::*;
use vstd::utf8::{decode_utf8, encode_utf8, is_char_boundary};
use std::collections::HashMap;
use crate::app::{merged, stable_sorted, totals_fit, SortColumn, sorted_processes};
use crate::decimal::{decimal_chars, decimal_of};
use crate::footprint::FootprintData;
use crate::normalize::{normalize_process_swaps, normalized, shown_swap_sum};
use crate::scanner::{find_first_occurrence, first_occurrence_from, ProcessMemory};
use crate::size::{format_size, format_size_text, parse_size, size_of_text};
use crate::text::{append_chars, copy_range, first_words, string_from_chars, to_chars, words};

verus! {

/// `s` cut to `max_width` bytes: when its UTF-8 encoding is longer, the
/// first `max_width - 3` bytes followed by `...`; else `s` itself.
pub open spec fn truncated_text(s: Seq<char>, max_width: nat) -> Seq<char> {
    if encode_utf8(s).len() > max_width {
        decode_utf8(encode_utf8(s).take(max_width - 3)) + "..."@
    } else {
        s
    }
}

/// `s` can be cut to `max_width` bytes: it fits, or the cut falls on a
/// character boundary at least three bytes in.
pub open spec fn can_truncate(s: Seq<char>, max_width: nat) -> bool {
    encode_utf8(s).len() > max_width ==> max_width >= 3 && is_char_boundary(
        encode_utf8(s),
        max_width - 3,
    )
}

proof fn lemma_encode_utf8_concat(a: Seq<char>, b: Seq<char>)
    ensures
        encode_utf8(a + b) == encode_utf8(a) + encode_utf8(b),
    decreases a.len(),
{
    if a.len() == 0 {
        assert(a + b =~= b);
        assert(encode_utf8(a) =~= Seq::<u8>::empty());
        assert(encode_utf8(a) + encode_utf8(b) =~= encode_utf8(b));
    } else {
        assert((a + b).drop_first() =~= a.drop_first() + b);
        assert((a + b)[0] == a[0]);
        lemma_encode_utf8_concat(a.drop_first(), b);
        assert(encode_utf8(a + b) =~= encode_utf8(a) + encode_utf8(b));
    }
}

/// A cut name fits its column: it is the name itself when the name takes
/// at most `max_width` bytes; else a prefix of the name followed by
/// `...`, `max_width` bytes in all.
pub proof fn law_truncated_fits(s: Seq<char>, max_width: nat)
    requires
        can_truncate(s, max_width),
    ensures
        encode_utf8(s).len() <= max_width ==> truncated_text(s, max_width) == s,
        encode_utf8(s).len() > max_width ==> encode_utf8(truncated_text(s, max_width)).len()
            == max_width,
        encode_utf8(s).len() > max_width ==> exists|k: int|
            0 <= k <= s.len() && truncated_text(s, max_width) == s.take(k) + "..."@,
{
    if encode_utf8(s).len() > max_width {
        broadcast use vstd::utf8::group_utf8_lib;

        let bytes = encode_utf8(s);
        let cut = (max_width - 3) as int;
        let head = bytes.take(cut);
        assert(head =~= bytes.subrange(0, cut));
        vstd::utf8::encode_utf8_valid_utf8(s);
        vstd::utf8::valid_utf8_split(bytes, cut);
        vstd::utf8::decode_utf8_encode_utf8(head);
        vstd::utf8::decode_utf8_split(bytes, cut);
        vstd::utf8::encode_utf8_decode_utf8(s);
        let d = decode_utf8(head);
        let rest = decode_utf8(bytes.subrange(cut, bytes.len() as int));
        assert(s == d + rest);
        assert(d =~= s.take(d.len() as int));
        reveal_strlit("...");
        lemma_encode_utf8_concat(d, "..."@);
        assert(encode_utf8("..."@).len() == 3) by {
            reveal_with_fuel(encode_utf8, 4);
        }
        assert(truncated_text(s, max_width) == s.take(d.len() as int) + "..."@);
    }
}

/// Cuts a name to `max_width` bytes for a table column (see
/// [`truncated_text`]).
pub fn truncate(s: &str, max_width: usize) -> (r: String)
    requires
        encode_utf8(s@).len() <= usize::MAX,
        can_truncate(s@, max_width as nat),
    ensures
        r@ == truncated_text(s@, max_width as nat),
{
    if s.len() > max_width {
        let (head, _) = s.split_at(max_width - 3);
        let mut r = String::from_str(head);
        r.append("...");
        proof {
            vstd::utf8::encode_utf8_decode_utf8(head@);
        }
        r
    } else {
        s.to_owned()
    }
}

/// The used swap that `sysctl vm.swapusage` reports: the first word after
/// the first `used = `, if any word stands before the next `used = `.
pub open spec fn swap_used_text(s: Seq<char>) -> Option<Seq<char>> {
    let mark = "used = "@;
    match first_occurrence_from(s, mark, 0) {
        Some(i) => {
            let after = s.skip(i + mark.len());
            let segment = match first_occurrence_from(after, mark, 0) {
                Some(j) => after.take(j),
                None => after,
            };
            if words(segment).len() > 0 {
                Some(words(segment)[0])
            } else {
                None
            }
        },
        None => None,
    }
}

/// Reads the used swap from the output of `sysctl vm.swapusage` (see
/// [`swap_used_text`]), e.g. `"1024.00M"`.
pub fn parse_swap_usage(output: &str) -> (r: Option<String>)
    ensures
        match r {
            Some(s) => swap_used_text(output@) == Some(s@),
            None => swap_used_text(output@) is None,
        },
{
    let text = to_chars(output);
    let mark = to_chars("used = ");
    match find_first_occurrence(&text, &mark) {
        Some(i) => {
            let after = copy_range(&text, i + mark.len(), text.len());
            assert(after@ =~= text@.skip(i + mark@.len()));
            let segment = match find_first_occurrence(&after, &mark) {
                Some(j) => {
                    let seg = copy_range(&after, 0, j);
                    assert(seg@ =~= after@.take(j as int));
                    seg
                },
                None => after,
            };
            let w = first_words(&segment, 1);
            if w.len() > 0 {
                Some(string_from_chars(&w[0]))
            } else {
                None
            }
        },
        None => None,
    }
}

impl FootprintData {
    /// An exact copy.
    pub fn duplicate(&self) -> (r: Self)
        ensures
            r == *self,
    {
        FootprintData {
            pid: self.pid,
            name: self.name.clone(),
            physical_footprint: self.physical_footprint,
            swapped_total: self.swapped_total,
        }
    }
}

/// The compressed size recorded for `pid`, 0 when none is.
pub open spec fn compressed_or_zero(m: Map<i32, u64>, pid: i32) -> u64 {
    if m.contains_key(pid) {
        m[pid]
    } else {
        0
    }
}

/// Merges into each process whose pid `footprints` holds its footprint
/// figures and its compressed size from `compressed` (0 when absent).
pub fn apply_footprints(
    processes: &mut Vec<ProcessMemory>,
    footprints: &HashMap<i32, FootprintData>,
    compressed: &HashMap<i32, u64>,
)
    ensures
        final(processes)@ == Seq::new(
            old(processes)@.len(),
            |i: int|
                if footprints@.contains_key(old(processes)@[i].pid) {
                    merged(
                        old(processes)@[i],
                        footprints@[old(processes)@[i].pid],
                        compressed_or_zero(compressed@, old(processes)@[i].pid),
                    )
                } else {
                    old(processes)@[i]
                },
        ),
{
    broadcast use vstd::std_specs::hash::group_hash_axioms;

    let ghost ps0 = processes@;
    let ghost target = Seq::new(
        ps0.len(),
        |i: int|
            if footprints@.contains_key(ps0[i].pid) {
                merged(ps0[i], footprints@[ps0[i].pid], compressed_or_zero(compressed@, ps0[i].pid))
            } else {
                ps0[i]
            },
    );
    let mut i: usize = 0;
    while i < processes.len()
        invariant
            i <= processes.len() == ps0.len() == target.len(),
            target == Seq::new(
                ps0.len(),
                |i: int|
                    if footprints@.contains_key(ps0[i].pid) {
                        merged(ps0[i], footprints@[ps0[i].pid], compressed_or_zero(compressed@, ps0[i].pid))
                    } else {
                        ps0[i]
                    },
            ),
            forall|j: int| 0 <= j < ps0.len() ==> #[trigger] processes@[j] == (if j < i {
                target[j]
            } else {
                ps0[j]
            }),
        decreases processes.len() - i,
    {
        let pid = processes[i].pid;
        match footprints.get(&pid) {
            Some(data) => {
                let c = match compressed.get(&pid) {
                    Some(v) => *v,
                    None => 0,
                };
                processes[i].merge_footprint(data, c);
            },
            None => {},
        }
        i += 1;
    }
    assert(processes@ =~= target);
}

/// The deep-scan updates for a batch of pids: for each pid that
/// `footprints` holds, its footprint figures with its compressed size
/// (0 when `compressed` has none).
pub fn footprint_updates(
    pids: &Vec<i32>,
    footprints: &HashMap<i32, FootprintData>,
    compressed: &HashMap<i32, u64>,
) -> (r: HashMap<i32, (FootprintData, u64)>)
    ensures
        forall|pid: i32|
            #[trigger] r@.contains_key(pid) <==> pids@.contains(pid) && footprints@.contains_key(pid),
        forall|pid: i32|
            #[trigger] r@.contains_key(pid) ==> r@[pid] == (
                footprints@[pid],
                compressed_or_zero(compressed@, pid),
            ),
{
    broadcast use vstd::std_specs::hash::group_hash_axioms;

    let mut r: HashMap<i32, (FootprintData, u64)> = HashMap::new();
    let mut i: usize = 0;
    while i < pids.len()
        invariant
            i <= pids.len(),
            forall|pid: i32|
                #[trigger] r@.contains_key(pid) <==> pids@.take(i as int).contains(pid)
                    && footprints@.contains_key(pid),
            forall|pid: i32|
                #[trigger] r@.contains_key(pid) ==> r@[pid] == (
                    footprints@[pid],
                    compressed_or_zero(compressed@, pid),
                ),
        decreases pids.len() - i,
    {
        let pid = pids[i];
        assert(pids@.take(i + 1) =~= pids@.take(i as int).push(pid));
        match footprints.get(&pid) {
            Some(data) => {
                let c = match compressed.get(&pid) {
                    Some(v) => *v,
                    None => 0,
                };
                r.insert(pid, (data.duplicate(), c));
            },
            None => {},
        }
        i += 1;
        assert forall|q: i32| #[trigger] r@.contains_key(q) <==> pids@.take(i as int).contains(q)
            && footprints@.contains_key(q) by {
            let before = pids@.take(i - 1);
            let now = pids@.take(i as int);
            assert(now =~= before.push(pid));
            if now.contains(q) && q != pid {
                let k = choose|k: int| 0 <= k < now.len() && #[trigger] now[k] == q;
                assert(k < before.len());
                assert(before[k] == q);
            }
            if before.contains(q) {
                let k = choose|k: int| 0 <= k < before.len() && #[trigger] before[k] == q;
                assert(now[k] == q);
            }
            if q == pid {
                assert(now[i - 1] == q);
            }
        }
    }
    assert(pids@.take(pids.len() as int) =~= pids@);
    r
}

/// The processes with a positive total, in their order.
pub fn keep_nonempty(processes: Vec<ProcessMemory>) -> (r: Vec<ProcessMemory>)
    requires
        totals_fit(processes@),
    ensures
        r@ == processes@.filter(|p: ProcessMemory| p.total_spec() > 0),
{
    let ghost ps = processes@;
    let mut rest = processes;
    let mut r: Vec<ProcessMemory> = Vec::new();
    let n = rest.len();
    let mut k: usize = 0;
    assert(rest@ =~= ps.subrange(0, n as int));
    assert(ps.take(0).filter(|p: ProcessMemory| p.total_spec() > 0) =~= Seq::<ProcessMemory>::empty());
    while rest.len() > 0
        invariant
            n == ps.len(),
            totals_fit(ps),
            k + rest.len() == n,
            rest@ =~= ps.subrange(k as int, n as int),
            r@ == ps.take(k as int).filter(|p: ProcessMemory| p.total_spec() > 0),
        decreases rest.len(),
    {
        let p = rest.remove(0);
        assert(p == ps[k as int]);
        assert(ps.take(k + 1).drop_last() =~= ps.take(k as int));
        assert(ps.take(k + 1).last() == p);
        reveal(Seq::filter);
        if p.total() > 0 {
            r.push(p);
        }
        k += 1;
    }
    assert(ps.take(n as int) =~= ps);
    r
}

/// The sum of the shown disk swap, when it fits in `u64`.
pub fn checked_swap_sum(processes: &Vec<ProcessMemory>) -> (r: Option<u64>)
    ensures
        match r {
            Some(s) => s == shown_swap_sum(processes@, processes@.len() as int),
            None => shown_swap_sum(processes@, processes@.len() as int) > u64::MAX,
        },
{
    let mut sum: u64 = 0;
    let mut i: usize = 0;
    while i < processes.len()
        invariant
            i <= processes.len(),
            sum == shown_swap_sum(processes@, i as int),
        decreases processes.len() - i,
    {
        let s = processes[i].swap_disk;
        if s > u64::MAX - sum {
            proof {
                lemma_shown_swap_sum_grows(processes@, i + 1, processes@.len() as int);
            }
            return None;
        }
        sum = sum + s;
        i += 1;
    }
    Some(sum)
}

proof fn lemma_shown_swap_sum_grows(ps: Seq<ProcessMemory>, a: int, b: int)
    requires
        0 <= a <= b <= ps.len(),
    ensures
        shown_swap_sum(ps, a) <= shown_swap_sum(ps, b),
    decreases b - a,
{
    if a < b {
        lemma_shown_swap_sum_grows(ps, a, b - 1);
    }
}

/// The report's order: by physical footprint for `"phys"`, else by disk
/// swap; largest first, equal values in their order.
pub fn sort_for_report(processes: &Vec<ProcessMemory>, sort: &str) -> (r: Vec<ProcessMemory>)
    ensures
        stable_sorted(r@, processes@, report_column(sort@), true),
{
    let key = to_chars(sort);
    let col = if crate::text::chars_eq(&key, &to_chars("phys")) {
        SortColumn::Physical
    } else {
        SortColumn::Swap
    };
    sorted_processes(processes, col, true)
}

/// The column the report is ordered by: physical footprint for `"phys"`,
/// disk swap for anything else.
pub open spec fn report_column(sort: Seq<char>) -> SortColumn {
    if sort == "phys"@ {
        SortColumn::Physical
    } else {
        SortColumn::Swap
    }
}

/// The processes of the report and the system swap in bytes: the
/// processes with a positive total, their disk swap normalized to the
/// system swap read from `system_swap_text` (see [`parse_size`]), ordered
/// largest first by [`report_column`] of `sort`.
pub fn prepare_report(processes: Vec<ProcessMemory>, system_swap_text: &str, sort: &str) -> (r: (
    Vec<ProcessMemory>,
    u64,
))
    requires
        totals_fit(processes@),
    ensures
        r.1 == size_of_text(system_swap_text@),
        stable_sorted(
            r.0@,
            normalized(processes@.filter(|p: ProcessMemory| p.total_spec() > 0), r.1),
            report_column(sort@),
            true,
        ),
{
    let mut kept = keep_nonempty(processes);
    let system = parse_size(system_swap_text);
    normalize_process_swaps(kept.as_mut_slice(), system);
    let sorted = sort_for_report(&kept, sort);
    (sorted, system)
}

/// `n` spaces.
pub open spec fn spaces(n: nat) -> Seq<char> {
    Seq::new(n, |i: int| ' ')
}

/// `s` padded with spaces on the right to `width` characters.
pub open spec fn pad_right(s: Seq<char>, width: nat) -> Seq<char> {
    if s.len() < width {
        s + spaces((width - s.len()) as nat)
    } else {
        s
    }
}

/// The decimal writing of a signed number.
pub open spec fn signed_decimal(v: int) -> Seq<char> {
    if v < 0 {
        seq!['-'] + decimal_chars((-v) as nat)
    } else {
        decimal_chars(v as nat)
    }
}

/// Five columns of widths 8, 30, 15, 15 and 15, separated by one space.
pub open spec fn report_columns(
    a: Seq<char>,
    b: Seq<char>,
    c: Seq<char>,
    d: Seq<char>,
    e: Seq<char>,
) -> Seq<char> {
    pad_right(a, 8) + seq![' '] + pad_right(b, 30) + seq![' '] + pad_right(c, 15) + seq![' ']
        + pad_right(d, 15) + seq![' '] + pad_right(e, 15)
}

/// The report's row for a process: pid, name cut to 30 bytes, physical
/// footprint, disk swap and total.
pub open spec fn report_row_text(p: ProcessMemory) -> Seq<char> {
    report_columns(
        signed_decimal(p.pid as int),
        truncated_text(p.name@, 30),
        format_size_text(p.physical_footprint),
        format_size_text(p.swap_disk),
        format_size_text(p.total_spec() as u64),
    )
}

/// A process is listed when it has disk swap or more than 100 MiB of
/// physical footprint.
pub open spec fn listed_in_report(p: ProcessMemory) -> bool {
    p.swap_disk > 0 || p.physical_footprint > 104857600
}

/// Every process with disk swap shown is listed in the report, and so is
/// every process with more than 100 MiB of physical footprint; a process
/// with neither is left out.
pub proof fn law_report_lists_swapping_processes(p: ProcessMemory)
    ensures
        p.swap_disk > 0 ==> listed_in_report(p),
        p.physical_footprint > 100 * 1024 * 1024 ==> listed_in_report(p),
        p.swap_disk == 0 && p.physical_footprint <= 100 * 1024 * 1024 ==> !listed_in_report(p),
{
}

/// The report row's total column writes the physical footprint plus the
/// shown disk swap, the figures of the two columns before it.
pub proof fn law_report_total_is_physical_plus_swap(p: ProcessMemory)
    ensures
        report_row_text(p) == report_columns(
            signed_decimal(p.pid as int),
            truncated_text(p.name@, 30),
            format_size_text(p.physical_footprint),
            format_size_text(p.swap_disk),
            format_size_text((p.physical_footprint + p.swap_disk) as u64),
        ),
{
}

/// Whether the report lists `p` (see [`listed_in_report`]).
pub fn is_listed(p: &ProcessMemory) -> (r: bool)
    ensures
        r == listed_in_report(*p),
{
    p.swap_disk > 0 || p.physical_footprint > 100 * 1024 * 1024
}

/// `s` padded to `width` characters.
fn pad_right_exec(s: &Vec<char>, width: usize) -> (r: Vec<char>)
    ensures
        r@ == pad_right(s@, width as nat),
{
    let mut r = copy_range(s, 0, s.len());
    assert(r@ =~= s@);
    let mut k = s.len();
    while k < width
        invariant
            s.len() <= k <= width || (k == s.len() && s.len() >= width),
            r@ =~= s@ + spaces((k - s.len()) as nat),
        decreases width - k,
    {
        r.push(' ');
        k += 1;
    }
    r
}

/// The characters of five report columns.
fn report_columns_exec(
    a: &Vec<char>,
    b: &Vec<char>,
    c: &Vec<char>,
    d: &Vec<char>,
    e: &Vec<char>,
) -> (r: Vec<char>)
    ensures
        r@ == report_columns(a@, b@, c@, d@, e@),
{
    let mut r = pad_right_exec(a, 8);
    r.push(' ');
    append_chars(&mut r, &pad_right_exec(b, 30));
    r.push(' ');
    append_chars(&mut r, &pad_right_exec(c, 15));
    r.push(' ');
    append_chars(&mut r, &pad_right_exec(d, 15));
    r.push(' ');
    append_chars(&mut r, &pad_right_exec(e, 15));
    assert(r@ =~= report_columns(a@, b@, c@, d@, e@));
    r
}

/// The decimal writing of a pid.
pub fn signed_decimal_exec(v: i32) -> (r: Vec<char>)
    ensures
        r@ == signed_decimal(v as int),
{
    if v < 0 {
        let mut r: Vec<char> = Vec::new();
        r.push('-');
        let m = (-(v as i64)) as u128;
        append_chars(&mut r, &decimal_of(m));
        assert(r@ =~= seq!['-'] + decimal_chars((-(v as int)) as nat));
        r
    } else {
        decimal_of(v as u128)
    }
}

/// The report's column headings.
pub fn report_header() -> (r: String)
    ensures
        r@ == report_columns("PID"@, "Name"@, "Physical"@, "Swap"@, "Total"@),
{
    let v = report_columns_exec(
        &to_chars("PID"),
        &to_chars("Name"),
        &to_chars("Physical"),
        &to_chars("Swap"),
        &to_chars("Total"),
    );
    string_from_chars(&v)
}

/// The rule under the headings: a hundred dashes.
pub fn report_rule() -> (r: String)
    ensures
        r@ == Seq::new(100, |i: int| '-'),
{
    let mut v: Vec<char> = Vec::new();
    let mut k: usize = 0;
    while k < 100
        invariant
            k <= 100,
            v@ =~= Seq::new(k as nat, |i: int| '-'),
        decreases 100 - k,
    {
        v.push('-');
        k += 1;
    }
    string_from_chars(&v)
}

/// The report's row for `p` when it is listed (see [`listed_in_report`]
/// and [`report_row_text`]).
pub fn report_row(p: &ProcessMemory) -> (r: Option<String>)
    requires
        listed_in_report(*p) ==> p.total_spec() <= u64::MAX && encode_utf8(p.name@).len()
            <= usize::MAX && can_truncate(p.name@, 30),
    ensures
        match r {
            Some(s) => listed_in_report(*p) && s@ == report_row_text(*p),
            None => !listed_in_report(*p),
        },
{
    if !is_listed(p) {
        return None;
    }
    let name = truncate(p.name.as_str(), 30);
    let v = report_columns_exec(
        &signed_decimal_exec(p.pid),
        &to_chars(name.as_str()),
        &to_chars(format_size(p.physical_footprint).as_str()),
        &to_chars(format_size(p.swap_disk).as_str()),
        &to_chars(format_size(p.total()).as_str()),
    );
    Some(string_from_chars(&v))
}

/// The report's closing line: the system's swap as `sysctl` printed it,
/// the sum of the shown swap, and their difference.
pub fn report_summary(system_swap_text: &str, swap_sum: u64, system_swap_bytes: u64) -> (r: String)
    ensures
        r@ == "System Swap Used: "@ + system_swap_text@ + " | Swap Sum: "@ + format_size_text(swap_sum)
            + " | Delta: "@ + format_size_text(
            if swap_sum >= system_swap_bytes {
                (swap_sum - system_swap_bytes) as u64
            } else {
                (system_swap_bytes - swap_sum) as u64
            },
        ),
{
    let delta = if swap_sum >= system_swap_bytes {
        swap_sum - system_swap_bytes
    } else {
        system_swap_bytes - swap_sum
    };
    let mut r = String::from_str("System Swap Used: ");
    r.append(system_swap_text);
    r.append(" | Swap Sum: ");
    r.append(format_size(swap_sum).as_str());
    r.append(" | Delta: ");
    r.append(format_size(delta).as_str());
    r
}

} // verus!
