//! The state of the interactive process table: the process list, its
//! order, the selected row, running totals and scan progress.
use vstd::prelude::*;
use std::collections::HashMap;
use crate::footprint::FootprintData;
use crate::normalize::{
    has_other_estimate,
    law_normalized_swap_adds_up,
    normalize_process_swaps,
    normalized,
    others_total,
    shares_sum,
    shown_swap_sum,
    window_server_share,
};
use crate::scanner::ProcessMemory;
use crate::size::clamp_u64;
use crate::text::to_chars;

verus! {

/// The column the process table is ordered by.
#[derive(Debug, Clone, Copy, PartialEq, Eq, Structural)]
pub enum SortColumn {
    Pid,
    Name,
    Physical,
    Compressed,
    Swap,
    Total,
}

/// The value a process is ordered by.
pub enum SortKey {
    Number(int),
    Text(Seq<char>),
}

/// `a` comes before `b` in lexicographic order of characters (the order of
/// `String`'s comparison: UTF-8 bytes compare as their characters do).
pub open spec fn chars_less(a: Seq<char>, b: Seq<char>) -> bool
    decreases a.len(),
{
    if a.len() == 0 {
        b.len() > 0
    } else if b.len() == 0 {
        false
    } else if a[0] != b[0] {
        a[0] < b[0]
    } else {
        chars_less(a.drop_first(), b.drop_first())
    }
}

/// The ordering value of `p` for `col`.
pub open spec fn sort_key(col: SortColumn, p: ProcessMemory) -> SortKey {
    match col {
        SortColumn::Pid => SortKey::Number(p.pid as int),
        SortColumn::Name => SortKey::Text(p.name@),
        SortColumn::Physical => SortKey::Number(p.physical_footprint as int),
        SortColumn::Compressed => SortKey::Number(p.compressed as int),
        SortColumn::Swap => SortKey::Number(p.swap_disk as int),
        SortColumn::Total => SortKey::Number(p.total_spec()),
    }
}

/// Strict order on ordering values.
pub open spec fn key_less(a: SortKey, b: SortKey) -> bool {
    match (a, b) {
        (SortKey::Number(x), SortKey::Number(y)) => x < y,
        (SortKey::Text(s), SortKey::Text(t)) => chars_less(s, t),
        _ => false,
    }
}

/// `a` is listed strictly before `b`: its value is smaller, or larger when
/// the order is descending.
pub open spec fn goes_before(col: SortColumn, desc: bool, a: ProcessMemory, b: ProcessMemory) -> bool {
    if desc {
        key_less(sort_key(col, b), sort_key(col, a))
    } else {
        key_less(sort_key(col, a), sort_key(col, b))
    }
}

/// Position `p` of `ps` precedes position `q` in the sorted list: by value,
/// and by position in `ps` among equal values.
pub open spec fn index_before(ps: Seq<ProcessMemory>, col: SortColumn, desc: bool, p: int, q: int) -> bool {
    goes_before(col, desc, ps[p], ps[q]) || (sort_key(col, ps[p]) == sort_key(col, ps[q]) && p < q)
}

/// `perm` lists positions of `ps`, each once, in sorted order.
pub open spec fn is_sorting_permutation(
    perm: Seq<int>,
    ps: Seq<ProcessMemory>,
    col: SortColumn,
    desc: bool,
) -> bool {
    &&& perm.len() == ps.len()
    &&& forall|i: int| 0 <= i < perm.len() ==> 0 <= #[trigger] perm[i] < ps.len()
    &&& forall|i: int, j: int| 0 <= i < j < perm.len() ==> index_before(ps, col, desc, #[trigger] perm[i], #[trigger] perm[j])
}

/// `r` is `ps` stably sorted: reordered so that values ascend (descend when
/// `desc`) and equal values keep their relative order.
pub open spec fn stable_sorted(r: Seq<ProcessMemory>, ps: Seq<ProcessMemory>, col: SortColumn, desc: bool) -> bool {
    exists|perm: Seq<int>|
        is_sorting_permutation(perm, ps, col, desc) && r.len() == ps.len() && forall|i: int|
            0 <= i < r.len() ==> #[trigger] r[i] == ps[perm[i]]
}

/// Every process's total fits in `u64`.
pub open spec fn totals_fit(ps: Seq<ProcessMemory>) -> bool {
    forall|i: int| 0 <= i < ps.len() ==> (#[trigger] ps[i]).total_spec() <= u64::MAX
}

proof fn lemma_chars_less_irreflexive(a: Seq<char>)
    ensures
        !chars_less(a, a),
    decreases a.len(),
{
    if a.len() > 0 {
        lemma_chars_less_irreflexive(a.drop_first());
    }
}

proof fn lemma_chars_less_transitive(a: Seq<char>, b: Seq<char>, c: Seq<char>)
    requires
        chars_less(a, b),
        chars_less(b, c),
    ensures
        chars_less(a, c),
    decreases a.len(),
{
    if a.len() > 0 && b.len() > 0 && c.len() > 0 && a[0] == b[0] && b[0] == c[0] {
        lemma_chars_less_transitive(a.drop_first(), b.drop_first(), c.drop_first());
    }
}

proof fn lemma_chars_less_total(a: Seq<char>, b: Seq<char>)
    ensures
        chars_less(a, b) || chars_less(b, a) || a == b,
    decreases a.len(),
{
    if a.len() > 0 && b.len() > 0 {
        if a[0] == b[0] {
            lemma_chars_less_total(a.drop_first(), b.drop_first());
            if a.drop_first() == b.drop_first() {
                assert(a =~= seq![a[0]] + a.drop_first());
                assert(b =~= seq![b[0]] + b.drop_first());
            }
        }
    } else if a.len() == 0 && b.len() == 0 {
        assert(a =~= b);
    }
}

/// `index_before` is a strict total order on the positions of `ps`.
proof fn lemma_index_before_order(ps: Seq<ProcessMemory>, col: SortColumn, desc: bool, p: int, q: int, r: int)
    ensures
        !index_before(ps, col, desc, p, p),
        p != q ==> index_before(ps, col, desc, p, q) || index_before(ps, col, desc, q, p),
        index_before(ps, col, desc, p, q) ==> !index_before(ps, col, desc, q, p),
        index_before(ps, col, desc, p, q) && index_before(ps, col, desc, q, r) ==> index_before(ps, col, desc, p, r),
{
    let kp = sort_key(col, ps[p]);
    let kq = sort_key(col, ps[q]);
    let kr = sort_key(col, ps[r]);
    if col == SortColumn::Name {
        lemma_chars_less_irreflexive(ps[p].name@);
        lemma_chars_less_irreflexive(ps[q].name@);
        lemma_chars_less_total(ps[p].name@, ps[q].name@);
        if chars_less(ps[p].name@, ps[q].name@) && chars_less(ps[q].name@, ps[p].name@) {
            lemma_chars_less_transitive(ps[p].name@, ps[q].name@, ps[p].name@);
        }
        if chars_less(ps[p].name@, ps[q].name@) && chars_less(ps[q].name@, ps[r].name@) {
            lemma_chars_less_transitive(ps[p].name@, ps[q].name@, ps[r].name@);
        }
        if chars_less(ps[r].name@, ps[q].name@) && chars_less(ps[q].name@, ps[p].name@) {
            lemma_chars_less_transitive(ps[r].name@, ps[q].name@, ps[p].name@);
        }
    }
}

/// Lexicographic comparison of character vectors.
fn chars_less_exec(a: &Vec<char>, b: &Vec<char>) -> (r: bool)
    ensures
        r == chars_less(a@, b@),
{
    let mut i: usize = 0;
    assert(a@.skip(0) =~= a@);
    assert(b@.skip(0) =~= b@);
    while i < a.len() && i < b.len()
        invariant
            i <= a.len(),
            i <= b.len(),
            chars_less(a@, b@) == chars_less(a@.skip(i as int), b@.skip(i as int)),
        decreases a.len() - i,
    {
        assert(a@.skip(i as int)[0] == a@[i as int]);
        assert(b@.skip(i as int)[0] == b@[i as int]);
        if a[i] != b[i] {
            return a[i] < b[i];
        }
        assert(a@.skip(i as int).drop_first() =~= a@.skip(i + 1));
        assert(b@.skip(i as int).drop_first() =~= b@.skip(i + 1));
        i += 1;
    }
    i == a.len() && i < b.len()
}

/// Whether `a` is listed strictly before `b` (see [`goes_before`]); the
/// names are passed as characters.
fn goes_before_exec(
    col: SortColumn,
    desc: bool,
    a: &ProcessMemory,
    b: &ProcessMemory,
    an: &Vec<char>,
    bn: &Vec<char>,
) -> (r: bool)
    requires
        an@ == a.name@,
        bn@ == b.name@,
    ensures
        r == goes_before(col, desc, *a, *b),
{
    let (x, y) = if desc {
        (b, a)
    } else {
        (a, b)
    };
    let (xn, yn) = if desc {
        (bn, an)
    } else {
        (an, bn)
    };
    match col {
        SortColumn::Pid => x.pid < y.pid,
        SortColumn::Name => chars_less_exec(xn, yn),
        SortColumn::Physical => x.physical_footprint < y.physical_footprint,
        SortColumn::Compressed => x.compressed < y.compressed,
        SortColumn::Swap => x.swap_disk < y.swap_disk,
        SortColumn::Total => (x.physical_footprint as u128) + (x.swap_disk as u128) < (
        y.physical_footprint as u128) + (y.swap_disk as u128),
    }
}

/// The names of the processes as characters.
fn names_of(ps: &Vec<ProcessMemory>) -> (r: Vec<Vec<char>>)
    ensures
        r.len() == ps.len(),
        forall|i: int| 0 <= i < r.len() ==> #[trigger] r[i]@ == ps[i].name@,
{
    let mut r: Vec<Vec<char>> = Vec::new();
    let mut i: usize = 0;
    while i < ps.len()
        invariant
            i <= ps.len(),
            r.len() == i,
            forall|k: int| 0 <= k < r.len() ==> #[trigger] r[k]@ == ps[k].name@,
        decreases ps.len() - i,
    {
        r.push(to_chars(ps[i].name.as_str()));
        i += 1;
    }
    r
}

/// The positions of `ps` in stably sorted order.
fn sorting_order(ps: &Vec<ProcessMemory>, col: SortColumn, desc: bool) -> (idx: Vec<usize>)
    ensures
        is_sorting_permutation(idx@.map_values(|k: usize| k as int), ps@, col, desc),
{
    let n = ps.len();
    let names = names_of(ps);
    let mut idx: Vec<usize> = Vec::new();
    let mut i: usize = 0;
    while i < n
        invariant
            i <= n == ps.len() == names.len(),
            forall|k: int| 0 <= k < names.len() ==> #[trigger] names[k]@ == ps[k].name@,
            idx.len() == i,
            forall|a: int| 0 <= a < idx.len() ==> #[trigger] idx[a] < i,
            forall|a: int, b: int|
                0 <= a < b < idx.len() ==> index_before(ps@, col, desc, #[trigger] idx[a] as int, #[trigger] idx[b] as int),
        decreases n - i,
    {
        let mut j = idx.len();
        while j > 0 && goes_before_exec(col, desc, &ps[i], &ps[idx[j - 1]], &names[i], &names[idx[j - 1]])
            invariant
                i < n == ps.len() == names.len(),
                forall|k: int| 0 <= k < names.len() ==> #[trigger] names[k]@ == ps[k].name@,
                j <= idx.len() == i,
                forall|a: int| 0 <= a < idx.len() ==> #[trigger] idx[a] < i,
                forall|a: int| j <= a < idx.len() ==> index_before(ps@, col, desc, i as int, #[trigger] idx[a] as int),
            decreases j,
        {
            j -= 1;
        }
        proof {
            if j > 0 {
                let q = idx[j - 1] as int;
                lemma_index_before_order(ps@, col, desc, i as int, q, i as int);
                assert(index_before(ps@, col, desc, q, i as int));
                assert forall|a: int| 0 <= a < j implies index_before(ps@, col, desc, #[trigger] idx[a] as int, i as int) by {
                    if a < j - 1 {
                        lemma_index_before_order(ps@, col, desc, idx[a] as int, q, i as int);
                    }
                }
            }
        }
        let ghost before = idx@;
        idx.insert(j, i);
        assert(idx@ =~= before.take(j as int).push(i).add(before.skip(j as int)));
        assert forall|a: int, b: int|
            0 <= a < b < idx.len() implies index_before(ps@, col, desc, #[trigger] idx[a] as int, #[trigger] idx[b] as int) by {
            if b < j {
                assert(idx[a] == before[a] && idx[b] == before[b]);
            } else if b == j {
                assert(idx[a] == before[a]);
            } else if a == j {
                assert(idx[b] == before[b - 1]);
            } else if a < j {
                assert(idx[a] == before[a] && idx[b] == before[b - 1]);
            } else {
                assert(idx[a] == before[a - 1] && idx[b] == before[b - 1]);
            }
        }
        i += 1;
    }
    idx
}

/// `ps` stably sorted by `col`, descending when `desc`.
pub fn sorted_processes(ps: &Vec<ProcessMemory>, col: SortColumn, desc: bool) -> (r: Vec<ProcessMemory>)
    ensures
        stable_sorted(r@, ps@, col, desc),
{
    let idx = sorting_order(ps, col, desc);
    let ghost perm = idx@.map_values(|k: usize| k as int);
    let mut r: Vec<ProcessMemory> = Vec::new();
    let mut k: usize = 0;
    while k < idx.len()
        invariant
            idx.len() == ps.len(),
            perm == idx@.map_values(|k: usize| k as int),
            is_sorting_permutation(perm, ps@, col, desc),
            k <= idx.len(),
            r.len() == k,
            forall|i: int| 0 <= i < k ==> #[trigger] r[i] == ps@[perm[i]],
        decreases idx.len() - k,
    {
        assert(perm[k as int] == idx[k as int] as int);
        r.push(ps[idx[k]].duplicate());
        k += 1;
    }
    r
}

/// A sorting permutation lists every position once.
proof fn lemma_sorting_permutation_covers(perm: Seq<int>, ps: Seq<ProcessMemory>, col: SortColumn, desc: bool)
    requires
        is_sorting_permutation(perm, ps, col, desc),
    ensures
        perm.no_duplicates(),
        forall|x: int| 0 <= x < ps.len() ==> perm.contains(x),
{
    assert forall|i: int, j: int| 0 <= i < perm.len() && 0 <= j < perm.len() && i != j implies perm[i]
        != perm[j] by {
        if i < j {
            lemma_index_before_order(ps, col, desc, perm[i], perm[j], perm[j]);
        } else {
            lemma_index_before_order(ps, col, desc, perm[j], perm[i], perm[i]);
        }
    }
    let n = ps.len() as int;
    perm.unique_seq_to_set();
    vstd::set_lib::lemma_int_range(0, n);
    let range = vstd::set_lib::set_int_range(0, n);
    assert(perm.to_set().subset_of(range)) by {
        assert forall|x: int| perm.to_set().contains(x) implies range.contains(x) by {
            let i = choose|i: int| 0 <= i < perm.len() && perm[i] == x;
            assert(0 <= perm[i] < ps.len());
        }
    }
    vstd::set_lib::lemma_len_subset(perm.to_set(), range);
    vstd::set_lib::lemma_subset_equality(perm.to_set(), range);
    assert forall|x: int| 0 <= x < ps.len() implies perm.contains(x) by {
        assert(range.contains(x));
        assert(perm.to_set().contains(x));
    }
}

/// In a sorting permutation, the positions listed before the `i`-th are
/// exactly those that sort before it.
proof fn lemma_sorted_prefix(perm: Seq<int>, ps: Seq<ProcessMemory>, col: SortColumn, desc: bool, i: int)
    requires
        is_sorting_permutation(perm, ps, col, desc),
        0 <= i < perm.len(),
    ensures
        perm.take(i).to_set() == Set::new(
            |y: int| 0 <= y < ps.len() && index_before(ps, col, desc, y, perm[i]),
        ),
        perm.take(i).to_set().len() == i,
{
    lemma_sorting_permutation_covers(perm, ps, col, desc);
    let x = perm[i];
    let before = Set::new(|y: int| 0 <= y < ps.len() && index_before(ps, col, desc, y, x));
    assert forall|y: int| perm.take(i).to_set().contains(y) implies before.contains(y) by {
        let k = choose|k: int| 0 <= k < perm.take(i).len() && perm.take(i)[k] == y;
        assert(perm[k] == y);
        assert(index_before(ps, col, desc, perm[k], perm[i]));
    }
    assert forall|y: int| before.contains(y) implies perm.take(i).to_set().contains(y) by {
        assert(perm.contains(y));
        let k = choose|k: int| 0 <= k < perm.len() && perm[k] == y;
        lemma_index_before_order(ps, col, desc, y, x, x);
        if k > i {
            assert(index_before(ps, col, desc, perm[i], perm[k]));
        }
        assert(k < i);
        assert(perm.take(i)[k] == y);
    }
    assert(perm.take(i).to_set() =~= before);
    assert(perm.take(i).no_duplicates()) by {
        assert forall|a: int, b: int| 0 <= a < perm.take(i).len() && 0 <= b < perm.take(i).len() && a != b
            implies perm.take(i)[a] != perm.take(i)[b] by {
            assert(perm.take(i)[a] == perm[a]);
            assert(perm.take(i)[b] == perm[b]);
        }
    }
    perm.take(i).unique_seq_to_set();
}

/// Sorting is determined: the processes sorted stably by a column, in a
/// direction, can be listed in only one order.
pub proof fn law_sort_is_determined(
    r1: Seq<ProcessMemory>,
    r2: Seq<ProcessMemory>,
    ps: Seq<ProcessMemory>,
    col: SortColumn,
    desc: bool,
)
    requires
        stable_sorted(r1, ps, col, desc),
        stable_sorted(r2, ps, col, desc),
    ensures
        r1 == r2,
{
    let perm1 = choose|perm: Seq<int>|
        is_sorting_permutation(perm, ps, col, desc) && r1.len() == ps.len() && forall|i: int|
            0 <= i < r1.len() ==> #[trigger] r1[i] == ps[perm[i]];
    let perm2 = choose|perm: Seq<int>|
        is_sorting_permutation(perm, ps, col, desc) && r2.len() == ps.len() && forall|i: int|
            0 <= i < r2.len() ==> #[trigger] r2[i] == ps[perm[i]];
    lemma_sorting_permutation_covers(perm2, ps, col, desc);
    assert forall|i: int| 0 <= i < r1.len() implies r1[i] == r2[i] by {
        let x = perm1[i];
        assert(perm2.contains(x));
        let j = choose|j: int| 0 <= j < perm2.len() && perm2[j] == x;
        lemma_sorted_prefix(perm1, ps, col, desc, i);
        lemma_sorted_prefix(perm2, ps, col, desc, j);
        assert(i == j);
    }
    assert(r1 =~= r2);
}

/// A table sorted by a column lists its processes in that column's order,
/// read from the fields themselves: pid, physical footprint, compressed
/// size, shown disk swap, or physical footprint plus shown disk swap for
/// the total, each from largest to smallest when descending and from
/// smallest to largest when ascending; names in character order. The
/// sorted table holds as many processes as the table it came from, each
/// one of them.
pub proof fn law_sorted_by_column_fields(
    r: Seq<ProcessMemory>,
    ps: Seq<ProcessMemory>,
    col: SortColumn,
    desc: bool,
)
    requires
        stable_sorted(r, ps, col, desc),
    ensures
        r.len() == ps.len(),
        forall|i: int| 0 <= i < r.len() ==> ps.contains(#[trigger] r[i]),
        forall|i: int, j: int|
            #![trigger r[i], r[j]]
            0 <= i < j < r.len() ==> match col {
                SortColumn::Pid => if desc {
                    r[i].pid >= r[j].pid
                } else {
                    r[i].pid <= r[j].pid
                },
                SortColumn::Name => if desc {
                    !chars_less(r[i].name@, r[j].name@)
                } else {
                    !chars_less(r[j].name@, r[i].name@)
                },
                SortColumn::Physical => if desc {
                    r[i].physical_footprint >= r[j].physical_footprint
                } else {
                    r[i].physical_footprint <= r[j].physical_footprint
                },
                SortColumn::Compressed => if desc {
                    r[i].compressed >= r[j].compressed
                } else {
                    r[i].compressed <= r[j].compressed
                },
                SortColumn::Swap => if desc {
                    r[i].swap_disk >= r[j].swap_disk
                } else {
                    r[i].swap_disk <= r[j].swap_disk
                },
                SortColumn::Total => if desc {
                    r[i].physical_footprint + r[i].swap_disk >= r[j].physical_footprint
                        + r[j].swap_disk
                } else {
                    r[i].physical_footprint + r[i].swap_disk <= r[j].physical_footprint
                        + r[j].swap_disk
                },
            },
{
    let perm = choose|perm: Seq<int>|
        is_sorting_permutation(perm, ps, col, desc) && r.len() == ps.len() && forall|i: int|
            0 <= i < r.len() ==> #[trigger] r[i] == ps[perm[i]];
    assert forall|i: int| 0 <= i < r.len() implies ps.contains(#[trigger] r[i]) by {
        assert(0 <= perm[i] < ps.len());
        assert(r[i] == ps[perm[i]]);
    }
    assert forall|i: int, j: int| 0 <= i < j < r.len() implies #[trigger] r[i] == r[i] && #[trigger] r[j] == r[j] && match col {
        SortColumn::Pid => if desc {
            r[i].pid >= r[j].pid
        } else {
            r[i].pid <= r[j].pid
        },
        SortColumn::Name => if desc {
            !chars_less(r[i].name@, r[j].name@)
        } else {
            !chars_less(r[j].name@, r[i].name@)
        },
        SortColumn::Physical => if desc {
            r[i].physical_footprint >= r[j].physical_footprint
        } else {
            r[i].physical_footprint <= r[j].physical_footprint
        },
        SortColumn::Compressed => if desc {
            r[i].compressed >= r[j].compressed
        } else {
            r[i].compressed <= r[j].compressed
        },
        SortColumn::Swap => if desc {
            r[i].swap_disk >= r[j].swap_disk
        } else {
            r[i].swap_disk <= r[j].swap_disk
        },
        SortColumn::Total => if desc {
            r[i].physical_footprint + r[i].swap_disk >= r[j].physical_footprint + r[j].swap_disk
        } else {
            r[i].physical_footprint + r[i].swap_disk <= r[j].physical_footprint + r[j].swap_disk
        },
    } by {
        assert(index_before(ps, col, desc, perm[i], perm[j]));
        assert(r[i] == ps[perm[i]]);
        assert(r[j] == ps[perm[j]]);
        if col == SortColumn::Name {
            let a = r[i].name@;
            let b = r[j].name@;
            if sort_key(col, r[i]) == sort_key(col, r[j]) {
                assert(a == b);
                lemma_chars_less_irreflexive(a);
            } else if desc {
                assert(chars_less(b, a));
                if chars_less(a, b) {
                    lemma_chars_less_transitive(a, b, a);
                    lemma_chars_less_irreflexive(a);
                }
            } else {
                assert(chars_less(a, b));
                if chars_less(b, a) {
                    lemma_chars_less_transitive(a, b, a);
                    lemma_chars_less_irreflexive(a);
                }
            }
        }
    }
}

/// Sorting a sorted table again by the same column and direction leaves
/// it as it is.
pub proof fn law_sorting_twice_is_sorting_once(
    r: Seq<ProcessMemory>,
    r2: Seq<ProcessMemory>,
    ps: Seq<ProcessMemory>,
    col: SortColumn,
    desc: bool,
)
    requires
        stable_sorted(r, ps, col, desc),
        stable_sorted(r2, r, col, desc),
    ensures
        r2 == r,
{
    let perm = choose|perm: Seq<int>|
        is_sorting_permutation(perm, ps, col, desc) && r.len() == ps.len() && forall|i: int|
            0 <= i < r.len() ==> #[trigger] r[i] == ps[perm[i]];
    let id = Seq::new(r.len(), |i: int| i);
    assert forall|i: int, j: int| 0 <= i < j < id.len() implies index_before(
        r,
        col,
        desc,
        #[trigger] id[i],
        #[trigger] id[j],
    ) by {
        assert(index_before(ps, col, desc, perm[i], perm[j]));
        assert(r[i] == ps[perm[i]]);
        assert(r[j] == ps[perm[j]]);
    }
    assert(is_sorting_permutation(id, r, col, desc));
    assert(forall|i: int| 0 <= i < r.len() ==> #[trigger] r[i] == r[id[i]]);
    assert(stable_sorted(r, r, col, desc));
    law_sort_is_determined(r2, r, r, col, desc);
}

/// Which row of the process table is selected, if any.
pub struct TableSelection {
    pub selected: Option<usize>,
}

impl TableSelection {
    /// No row selected.
    pub fn new() -> (r: Self)
        ensures
            r.selected is None,
    {
        TableSelection { selected: None }
    }

    /// The selected row.
    pub fn selected(&self) -> (r: Option<usize>)
        ensures
            r == self.selected,
    {
        self.selected
    }

    /// Selects `index` (or nothing).
    pub fn select(&mut self, index: Option<usize>)
        ensures
            final(self).selected == index,
    {
        self.selected = index;
    }
}

/// Sum of the physical footprints of the processes before index `n`.
pub open spec fn phys_sum(ps: Seq<ProcessMemory>, n: int) -> nat
    decreases n,
{
    if n <= 0 {
        0
    } else {
        phys_sum(ps, n - 1) + ps[n - 1].physical_footprint as nat
    }
}

/// `p` with the figures of `fd` and the compressed size `compressed`, as
/// [`ProcessMemory::merge_footprint`] sets them.
pub open spec fn merged(p: ProcessMemory, fd: FootprintData, compressed: u64) -> ProcessMemory {
    let est: u64 = if fd.swapped_total >= compressed {
        (fd.swapped_total - compressed) as u64
    } else {
        0
    };
    ProcessMemory {
        physical_footprint: fd.physical_footprint,
        swapped_total: fd.swapped_total,
        compressed,
        swap_disk_est: est,
        swap_disk: est,
        ..p
    }
}

/// Each process whose pid `m` holds merged with its entry.
pub open spec fn apply_updates(ps: Seq<ProcessMemory>, m: Map<i32, (FootprintData, u64)>) -> Seq<ProcessMemory> {
    Seq::new(
        ps.len(),
        |i: int|
            if m.contains_key(ps[i].pid) {
                merged(ps[i], m[ps[i].pid].0, m[ps[i].pid].1)
            } else {
                ps[i]
            },
    )
}

/// Some process's pid is in `m`.
pub open spec fn any_updated(ps: Seq<ProcessMemory>, m: Map<i32, (FootprintData, u64)>) -> bool {
    exists|i: int| 0 <= i < ps.len() && m.contains_key(#[trigger] ps[i].pid)
}

/// The swap and physical totals after [`App::normalize_swap_to_system`],
/// from the processes and totals before it: unchanged when the system
/// figure is 0 or there are no processes; the system figure for swap when
/// no process but WindowServer has an estimate; else the saturated sums
/// over the normalized processes.
pub open spec fn totals_after_normalizing(ps: Seq<ProcessMemory>, system: u64, swap: u64, phys: u64) -> (u64, u64) {
    if system == 0 || ps.len() == 0 {
        (swap, phys)
    } else if others_total(ps) == 0 {
        (system, phys)
    } else {
        let n = normalized(ps, system);
        (clamp_u64(shown_swap_sum(n, n.len() as int)), clamp_u64(phys_sum(n, n.len() as int)))
    }
}

/// The row selected after moving down from `selected` in a table of
/// `len` rows: the following row, or the first after the last row or when
/// none is selected.
pub open spec fn next_index(selected: Option<usize>, len: nat) -> usize {
    match selected {
        Some(i) => if i + 1 >= len {
            0
        } else {
            (i + 1) as usize
        },
        None => 0,
    }
}

/// The row selected after moving up from `selected` in a table of `len`
/// rows: the preceding row, or the last from the first row; the first when
/// none is selected.
pub open spec fn previous_index(selected: Option<usize>, len: nat) -> usize {
    match selected {
        Some(i) => if i == 0 {
            if len > 0 {
                (len - 1) as usize
            } else {
                0
            }
        } else {
            (i - 1) as usize
        },
        None => 0,
    }
}

/// In a non-empty table, moving down or up from any selection lands on an
/// existing row.
pub proof fn law_moves_stay_in_table(selected: Option<usize>, len: nat)
    requires
        0 < len <= usize::MAX,
        selected matches Some(i) ==> i < len,
    ensures
        next_index(selected, len) < len,
        previous_index(selected, len) < len,
{
}

/// Moving up undoes moving down, and moving down undoes moving up, from
/// any existing row.
pub proof fn law_moves_undo_each_other(i: usize, len: nat)
    requires
        i < len <= usize::MAX,
    ensures
        previous_index(Some(next_index(Some(i), len)), len) == i,
        next_index(Some(previous_index(Some(i), len)), len) == i,
{
}

/// After normalising, the table's swap total is the system's swap in use
/// (for a positive system figure and a non-empty table), when no process
/// but `WindowServer` has an estimate, or when the scaled shares add up
/// within `u64`.
pub proof fn law_swap_total_is_system(ps: Seq<ProcessMemory>, system: u64, swap: u64, phys: u64)
    requires
        system > 0,
        ps.len() > 0,
        others_total(ps) > 0 ==> window_server_share(ps, system) + shares_sum(ps, system, ps.len() as int)
            <= u64::MAX,
    ensures
        totals_after_normalizing(ps, system, swap, phys).0 == system,
{
    if others_total(ps) > 0 {
        law_normalized_swap_adds_up(ps, system);
        assert(normalized(ps, system).len() == ps.len());
    }
}

/// The interactive table's state.
pub struct App {
    pub should_quit: bool,
    pub processes: Vec<ProcessMemory>,
    pub state: TableSelection,
    pub sort_column: SortColumn,
    pub sort_desc: bool,
    pub is_loading: bool,
    /// (current, total) of the quick scan.
    pub scan_progress: Option<(usize, usize)>,
    /// (current, total) of the deep scan.
    pub deep_scan_progress: Option<(usize, usize)>,
    pub status_message: Option<String>,
    pub current_scanning: Option<String>,
    pub spinner_idx: usize,
    pub total_swap: u64,
    pub total_phys: u64,
    pub system_swap: String,
    pub system_swap_bytes: u64,
    pub detail_view_open: bool,
    /// Pid and name of the process whose details are shown.
    pub detail_subject: Option<(i32, String)>,
}

impl App {
    /// An empty table ordered by disk swap, descending; system swap
    /// `"Unknown"`.
    pub fn new() -> (r: Self)
        ensures
            !r.should_quit,
            r.processes@.len() == 0,
            r.state.selected is None,
            r.sort_column == SortColumn::Swap,
            r.sort_desc,
            !r.is_loading,
            r.scan_progress is None,
            r.deep_scan_progress is None,
            r.status_message is None,
            r.current_scanning is None,
            r.spinner_idx == 0,
            r.total_swap == 0,
            r.total_phys == 0,
            r.system_swap@ == "Unknown"@,
            r.system_swap_bytes == 0,
            !r.detail_view_open,
            r.detail_subject is None,
    {
        App {
            should_quit: false,
            processes: Vec::new(),
            state: TableSelection::new(),
            sort_column: SortColumn::Swap,
            sort_desc: true,
            is_loading: false,
            scan_progress: None,
            deep_scan_progress: None,
            status_message: None,
            current_scanning: None,
            spinner_idx: 0,
            total_swap: 0,
            total_phys: 0,
            system_swap: String::from_str("Unknown"),
            system_swap_bytes: 0,
            detail_view_open: false,
            detail_subject: None,
        }
    }

    /// Advances the spinner (four frames) while a scan runs.
    pub fn on_tick(&mut self)
        requires
            old(self).is_loading || old(self).deep_scan_progress is Some ==> old(self).spinner_idx
                < usize::MAX,
        ensures
            *final(self) == (App {
                spinner_idx: if old(self).is_loading || old(self).deep_scan_progress is Some {
                    ((old(self).spinner_idx + 1) % 4) as usize
                } else {
                    old(self).spinner_idx
                },
                ..*old(self)
            }),
    {
        if self.is_loading || self.deep_scan_progress.is_some() {
            self.spinner_idx = (self.spinner_idx + 1) % 4;
        }
    }

    /// Asks the main loop to stop.
    pub fn quit(&mut self)
        ensures
            *final(self) == (App { should_quit: true, ..*old(self) }),
    {
        self.should_quit = true;
    }

    /// Selects the next row, wrapping from the last row to the first; with
    /// no row selected, selects the first (see [`next_index`]).
    pub fn next(&mut self)
        ensures
            *final(self) == (App {
                state: TableSelection {
                    selected: Some(next_index(old(self).state.selected, old(self).processes@.len())),
                },
                ..*old(self)
            }),
    {
        let i = match self.state.selected() {
            Some(i) => {
                let last = if self.processes.len() > 0 {
                    self.processes.len() - 1
                } else {
                    0
                };
                if i >= last {
                    0
                } else {
                    i + 1
                }
            },
            None => 0,
        };
        self.state.select(Some(i));
    }

    /// Selects the previous row, wrapping from the first row to the last;
    /// with no row selected, selects the first (see [`previous_index`]).
    pub fn previous(&mut self)
        ensures
            *final(self) == (App {
                state: TableSelection {
                    selected: Some(previous_index(old(self).state.selected, old(self).processes@.len())),
                },
                ..*old(self)
            }),
    {
        let i = match self.state.selected() {
            Some(i) => {
                if i == 0 {
                    if self.processes.len() > 0 {
                        self.processes.len() - 1
                    } else {
                        0
                    }
                } else {
                    i - 1
                }
            },
            None => 0,
        };
        self.state.select(Some(i));
    }

    /// Orders the processes by the sort column (descending when
    /// `sort_desc`), keeping the order of processes with equal values.
    pub fn sort(&mut self)
        ensures
            stable_sorted(final(self).processes@, old(self).processes@, old(self).sort_column, old(self).sort_desc),
            *final(self) == (App { processes: final(self).processes, ..*old(self) }),
    {
        let sorted = sorted_processes(&self.processes, self.sort_column, self.sort_desc);
        self.processes = sorted;
    }

    /// Adds a process, adds its disk swap and physical footprint to the
    /// totals, and re-sorts.
    pub fn add_process(&mut self, process: ProcessMemory)
        requires
            old(self).total_swap + process.swap_disk <= u64::MAX,
            old(self).total_phys + process.physical_footprint <= u64::MAX,
        ensures
            final(self).total_swap == old(self).total_swap + process.swap_disk,
            final(self).total_phys == old(self).total_phys + process.physical_footprint,
            stable_sorted(final(self).processes@, old(self).processes@.push(process), old(self).sort_column, old(self).sort_desc),
            *final(self) == (App {
                processes: final(self).processes,
                total_swap: final(self).total_swap,
                total_phys: final(self).total_phys,
                ..*old(self)
            }),
    {
        self.total_swap = self.total_swap + process.swap_disk;
        self.total_phys = self.total_phys + process.physical_footprint;
        self.processes.push(process);
        self.sort();
    }

    /// Sets the totals to the saturated sums of the processes' disk swap and
    /// physical footprint.
    pub fn recalculate_totals(&mut self)
        ensures
            final(self).total_swap == clamp_u64(shown_swap_sum(old(self).processes@, old(self).processes@.len() as int)),
            final(self).total_phys == clamp_u64(phys_sum(old(self).processes@, old(self).processes@.len() as int)),
            *final(self) == (App {
                total_swap: final(self).total_swap,
                total_phys: final(self).total_phys,
                ..*old(self)
            }),
    {
        let mut swap: u64 = 0;
        let mut phys: u64 = 0;
        let mut i: usize = 0;
        while i < self.processes.len()
            invariant
                i <= self.processes.len(),
                swap == clamp_u64(shown_swap_sum(self.processes@, i as int)),
                phys == clamp_u64(phys_sum(self.processes@, i as int)),
            decreases self.processes.len() - i,
        {
            swap = swap.saturating_add(self.processes[i].swap_disk);
            phys = phys.saturating_add(self.processes[i].physical_footprint);
            i += 1;
        }
        self.total_swap = swap;
        self.total_phys = phys;
    }

    /// Merges the footprint figures and compressed sizes of `updates` into
    /// the processes with those pids; when any process was updated,
    /// recalculates the totals and re-sorts.
    pub fn update_processes(&mut self, updates: HashMap<i32, (FootprintData, u64)>)
        ensures
            any_updated(old(self).processes@, updates@) ==> {
                let applied = apply_updates(old(self).processes@, updates@);
                &&& stable_sorted(final(self).processes@, applied, old(self).sort_column, old(self).sort_desc)
                &&& final(self).total_swap == clamp_u64(shown_swap_sum(applied, applied.len() as int))
                &&& final(self).total_phys == clamp_u64(phys_sum(applied, applied.len() as int))
                &&& *final(self) == (App {
                    processes: final(self).processes,
                    total_swap: final(self).total_swap,
                    total_phys: final(self).total_phys,
                    ..*old(self)
                })
            },
            !any_updated(old(self).processes@, updates@) ==> final(self).processes@ == old(self).processes@
                && *final(self) == (App { processes: final(self).processes, ..*old(self) }),
    {
        broadcast use vstd::std_specs::hash::group_hash_axioms;

        let ghost ps0 = self.processes@;
        let mut updated = false;
        let mut i: usize = 0;
        while i < self.processes.len()
            invariant
                i <= self.processes.len() == ps0.len(),
                forall|j: int| 0 <= j < ps0.len() ==> #[trigger] self.processes@[j] == (if j < i {
                    apply_updates(ps0, updates@)[j]
                } else {
                    ps0[j]
                }),
                updated <==> exists|j: int| 0 <= j < i && updates@.contains_key(#[trigger] ps0[j].pid),
                *self == (App { processes: self.processes, ..*old(self) }),
            decreases self.processes.len() - i,
        {
            let pid = self.processes[i].pid;
            match updates.get(&pid) {
                Some(entry) => {
                    let (fp, compressed) = entry;
                    self.processes[i].merge_footprint(fp, *compressed);
                    updated = true;
                },
                None => {},
            }
            i += 1;
        }
        if updated {
            assert(self.processes@ =~= apply_updates(ps0, updates@));
            self.recalculate_totals();
            self.sort();
        } else {
            assert(self.processes@ =~= ps0);
        }
    }

    /// Scales the processes' shown disk swap to the system figure (see
    /// [`normalize_process_swaps`]); when the system figure is positive and
    /// there are processes, the swap total becomes the system figure if no
    /// other process has an estimate, else the saturated sum of the shown
    /// swap, and the physical total is recalculated too.
    pub fn normalize_swap_to_system(&mut self)
        ensures
            final(self).processes@ == normalized(old(self).processes@, old(self).system_swap_bytes),
            (final(self).total_swap, final(self).total_phys) == totals_after_normalizing(
                old(self).processes@,
                old(self).system_swap_bytes,
                old(self).total_swap,
                old(self).total_phys,
            ),
            *final(self) == (App {
                processes: final(self).processes,
                total_swap: final(self).total_swap,
                total_phys: final(self).total_phys,
                ..*old(self)
            }),
    {
        let system = self.system_swap_bytes;
        if system == 0 || self.processes.len() == 0 {
            assert(self.processes@ =~= normalized(self.processes@, system));
            return;
        }
        let any_other = has_other_estimate(self.processes.as_slice());
        normalize_process_swaps(self.processes.as_mut_slice(), system);
        if !any_other {
            self.total_swap = system;
            return;
        }
        self.recalculate_totals();
    }

    /// The pid of the selected process, if a row is selected and exists.
    pub fn selected_pid(&self) -> (r: Option<i32>)
        ensures
            r == (match self.state.selected {
                Some(i) => if i < self.processes@.len() {
                    Some(self.processes@[i as int].pid)
                } else {
                    None
                },
                None => None,
            }),
    {
        match self.state.selected() {
            Some(i) => if i < self.processes.len() {
                Some(self.processes[i].pid)
            } else {
                None
            },
            None => None,
        }
    }
}

} // verus!
