//! Per-process memory figures and the reading of `vmmap -summary` reports.
use vstd::prelude::*;
use crate::footprint::FootprintData;
use crate::size::{parse_size, size_of_text};
use crate::text::{
    contains,
    contains_exec,
    copy_range,
    first_words,
    is_white_space,
    is_white_space_char,
    lines,
    occurs_at,
    occurs_at_exec,
    split_lines,
    starts_with,
    starts_with_exec,
    string_from_chars,
    to_chars,
    trim,
    trim_chars,
    words,
    ws_prefix_len,
};

verus! {

/// Memory figures of one process, in bytes.
#[derive(Debug, Clone)]
pub struct ProcessMemory {
    pub pid: i32,
    pub name: String,
    pub physical_footprint: u64,
    pub compressed: u64,
    pub swapped_total: u64,
    pub swap_disk_est: u64,
    pub swap_disk: u64,
}

impl ProcessMemory {
    /// Physical footprint plus disk swap.
    pub open spec fn total_spec(&self) -> int {
        self.physical_footprint + self.swap_disk
    }

    /// An exact copy of the figures and the name.
    pub fn duplicate(&self) -> (r: Self)
        ensures
            r == *self,
    {
        ProcessMemory {
            pid: self.pid,
            name: self.name.clone(),
            physical_footprint: self.physical_footprint,
            compressed: self.compressed,
            swapped_total: self.swapped_total,
            swap_disk_est: self.swap_disk_est,
            swap_disk: self.swap_disk,
        }
    }

    /// Physical footprint plus disk swap; the sum must fit in `u64`.
    pub fn total(&self) -> (r: u64)
        requires
            self.total_spec() <= u64::MAX,
        ensures
            r == self.total_spec(),
    {
        self.physical_footprint + self.swap_disk
    }

    /// A process known only by its resident size, which stands in for the
    /// physical footprint until precise figures arrive; every other figure
    /// is zero.
    pub fn new_simple(pid: i32, name: String, rss: u64) -> (r: Self)
        ensures
            r.pid == pid,
            r.name == name,
            r.physical_footprint == rss,
            r.compressed == 0,
            r.swapped_total == 0,
            r.swap_disk_est == 0,
            r.swap_disk == 0,
    {
        ProcessMemory {
            pid,
            name,
            physical_footprint: rss,
            compressed: 0,
            swapped_total: 0,
            swap_disk_est: 0,
            swap_disk: 0,
        }
    }

    /// Takes the physical footprint and swapped total from `footprint_data`
    /// and the compressed size given; the disk swap estimate becomes the
    /// swapped total less the compressed size (0 when compressed is larger),
    /// and the displayed disk swap starts equal to the estimate.
    pub fn merge_footprint(&mut self, footprint_data: &FootprintData, compressed: u64)
        ensures
            final(self).pid == old(self).pid,
            final(self).name == old(self).name,
            final(self).physical_footprint == footprint_data.physical_footprint,
            final(self).swapped_total == footprint_data.swapped_total,
            final(self).compressed == compressed,
            final(self).swap_disk_est == (if footprint_data.swapped_total >= compressed {
                footprint_data.swapped_total - compressed
            } else {
                0
            }),
            final(self).swap_disk == final(self).swap_disk_est,
    {
        self.physical_footprint = footprint_data.physical_footprint;
        self.swapped_total = footprint_data.swapped_total;
        self.compressed = compressed;
        self.swap_disk_est = self.swapped_total.saturating_sub(self.compressed);
        self.swap_disk = self.swap_disk_est;
    }
}

/// A Unicode decimal digit (general category `Nd`, Unicode 16), the class
/// that `\d` denotes in the report patterns.
pub open spec fn is_decimal_digit(c: char) -> bool {
    let u = c as u32;
    ||| 0x30 <= u <= 0x39
    ||| 0x660 <= u <= 0x669
    ||| 0x6f0 <= u <= 0x6f9
    ||| 0x7c0 <= u <= 0x7c9
    ||| 0x966 <= u <= 0x96f
    ||| 0x9e6 <= u <= 0x9ef
    ||| 0xa66 <= u <= 0xa6f
    ||| 0xae6 <= u <= 0xaef
    ||| 0xb66 <= u <= 0xb6f
    ||| 0xbe6 <= u <= 0xbef
    ||| 0xc66 <= u <= 0xc6f
    ||| 0xce6 <= u <= 0xcef
    ||| 0xd66 <= u <= 0xd6f
    ||| 0xde6 <= u <= 0xdef
    ||| 0xe50 <= u <= 0xe59
    ||| 0xed0 <= u <= 0xed9
    ||| 0xf20 <= u <= 0xf29
    ||| 0x1040 <= u <= 0x1049
    ||| 0x1090 <= u <= 0x1099
    ||| 0x17e0 <= u <= 0x17e9
    ||| 0x1810 <= u <= 0x1819
    ||| 0x1946 <= u <= 0x194f
    ||| 0x19d0 <= u <= 0x19d9
    ||| 0x1a80 <= u <= 0x1a89
    ||| 0x1a90 <= u <= 0x1a99
    ||| 0x1b50 <= u <= 0x1b59
    ||| 0x1bb0 <= u <= 0x1bb9
    ||| 0x1c40 <= u <= 0x1c49
    ||| 0x1c50 <= u <= 0x1c59
    ||| 0xa620 <= u <= 0xa629
    ||| 0xa8d0 <= u <= 0xa8d9
    ||| 0xa900 <= u <= 0xa909
    ||| 0xa9d0 <= u <= 0xa9d9
    ||| 0xa9f0 <= u <= 0xa9f9
    ||| 0xaa50 <= u <= 0xaa59
    ||| 0xabf0 <= u <= 0xabf9
    ||| 0xff10 <= u <= 0xff19
    ||| 0x104a0 <= u <= 0x104a9
    ||| 0x10d30 <= u <= 0x10d39
    ||| 0x10d40 <= u <= 0x10d49
    ||| 0x11066 <= u <= 0x1106f
    ||| 0x110f0 <= u <= 0x110f9
    ||| 0x11136 <= u <= 0x1113f
    ||| 0x111d0 <= u <= 0x111d9
    ||| 0x112f0 <= u <= 0x112f9
    ||| 0x11450 <= u <= 0x11459
    ||| 0x114d0 <= u <= 0x114d9
    ||| 0x11650 <= u <= 0x11659
    ||| 0x116c0 <= u <= 0x116c9
    ||| 0x116d0 <= u <= 0x116e3
    ||| 0x11730 <= u <= 0x11739
    ||| 0x118e0 <= u <= 0x118e9
    ||| 0x11950 <= u <= 0x11959
    ||| 0x11bf0 <= u <= 0x11bf9
    ||| 0x11c50 <= u <= 0x11c59
    ||| 0x11d50 <= u <= 0x11d59
    ||| 0x11da0 <= u <= 0x11da9
    ||| 0x11f50 <= u <= 0x11f59
    ||| 0x16130 <= u <= 0x16139
    ||| 0x16a60 <= u <= 0x16a69
    ||| 0x16ac0 <= u <= 0x16ac9
    ||| 0x16b50 <= u <= 0x16b59
    ||| 0x16d70 <= u <= 0x16d79
    ||| 0x1ccf0 <= u <= 0x1ccf9
    ||| 0x1d7ce <= u <= 0x1d7ff
    ||| 0x1e140 <= u <= 0x1e149
    ||| 0x1e2f0 <= u <= 0x1e2f9
    ||| 0x1e4f0 <= u <= 0x1e4f9
    ||| 0x1e5f1 <= u <= 0x1e5fa
    ||| 0x1e950 <= u <= 0x1e959
    ||| 0x1fbf0 <= u <= 0x1fbf9
}

/// Executable test for [`is_decimal_digit`].
pub fn is_decimal_digit_char(c: char) -> (r: bool)
    ensures
        r == is_decimal_digit(c),
{
    let u = c as u32;
    (0x30 <= u && u <= 0x39) || (0x660 <= u && u <= 0x669) || (0x6f0 <= u && u <= 0x6f9) ||
        (0x7c0 <= u && u <= 0x7c9) || (0x966 <= u && u <= 0x96f) ||
        (0x9e6 <= u && u <= 0x9ef) || (0xa66 <= u && u <= 0xa6f) ||
        (0xae6 <= u && u <= 0xaef) || (0xb66 <= u && u <= 0xb6f) ||
        (0xbe6 <= u && u <= 0xbef) || (0xc66 <= u && u <= 0xc6f) ||
        (0xce6 <= u && u <= 0xcef) || (0xd66 <= u && u <= 0xd6f) ||
        (0xde6 <= u && u <= 0xdef) || (0xe50 <= u && u <= 0xe59) ||
        (0xed0 <= u && u <= 0xed9) || (0xf20 <= u && u <= 0xf29) ||
        (0x1040 <= u && u <= 0x1049) || (0x1090 <= u && u <= 0x1099) ||
        (0x17e0 <= u && u <= 0x17e9) || (0x1810 <= u && u <= 0x1819) ||
        (0x1946 <= u && u <= 0x194f) || (0x19d0 <= u && u <= 0x19d9) ||
        (0x1a80 <= u && u <= 0x1a89) || (0x1a90 <= u && u <= 0x1a99) ||
        (0x1b50 <= u && u <= 0x1b59) || (0x1bb0 <= u && u <= 0x1bb9) ||
        (0x1c40 <= u && u <= 0x1c49) || (0x1c50 <= u && u <= 0x1c59) ||
        (0xa620 <= u && u <= 0xa629) || (0xa8d0 <= u && u <= 0xa8d9) ||
        (0xa900 <= u && u <= 0xa909) || (0xa9d0 <= u && u <= 0xa9d9) ||
        (0xa9f0 <= u && u <= 0xa9f9) || (0xaa50 <= u && u <= 0xaa59) ||
        (0xabf0 <= u && u <= 0xabf9) || (0xff10 <= u && u <= 0xff19) ||
        (0x104a0 <= u && u <= 0x104a9) || (0x10d30 <= u && u <= 0x10d39) ||
        (0x10d40 <= u && u <= 0x10d49) || (0x11066 <= u && u <= 0x1106f) ||
        (0x110f0 <= u && u <= 0x110f9) || (0x11136 <= u && u <= 0x1113f) ||
        (0x111d0 <= u && u <= 0x111d9) || (0x112f0 <= u && u <= 0x112f9) ||
        (0x11450 <= u && u <= 0x11459) || (0x114d0 <= u && u <= 0x114d9) ||
        (0x11650 <= u && u <= 0x11659) || (0x116c0 <= u && u <= 0x116c9) ||
        (0x116d0 <= u && u <= 0x116e3) || (0x11730 <= u && u <= 0x11739) ||
        (0x118e0 <= u && u <= 0x118e9) || (0x11950 <= u && u <= 0x11959) ||
        (0x11bf0 <= u && u <= 0x11bf9) || (0x11c50 <= u && u <= 0x11c59) ||
        (0x11d50 <= u && u <= 0x11d59) || (0x11da0 <= u && u <= 0x11da9) ||
        (0x11f50 <= u && u <= 0x11f59) || (0x16130 <= u && u <= 0x16139) ||
        (0x16a60 <= u && u <= 0x16a69) || (0x16ac0 <= u && u <= 0x16ac9) ||
        (0x16b50 <= u && u <= 0x16b59) || (0x16d70 <= u && u <= 0x16d79) ||
        (0x1ccf0 <= u && u <= 0x1ccf9) || (0x1d7ce <= u && u <= 0x1d7ff) ||
        (0x1e140 <= u && u <= 0x1e149) || (0x1e2f0 <= u && u <= 0x1e2f9) ||
        (0x1e4f0 <= u && u <= 0x1e4f9) || (0x1e5f1 <= u && u <= 0x1e5fa) ||
        (0x1e950 <= u && u <= 0x1e959) || (0x1fbf0 <= u && u <= 0x1fbf9)
}

/// A character of a size number in a report: a decimal digit or a point.
pub open spec fn is_number_char(c: char) -> bool {
    is_decimal_digit(c) || c == '.'
}

/// A unit letter after a size number.
pub open spec fn is_unit_letter(c: char) -> bool {
    c == 'K' || c == 'M' || c == 'G'
}

/// Number of number characters at the start of `s`.
pub open spec fn number_run_len(s: Seq<char>) -> nat
    decreases s.len(),
{
    if s.len() > 0 && is_number_char(s[0]) {
        1 + number_run_len(s.drop_first())
    } else {
        0
    }
}

/// The size text that starts at `j`: the run of number characters and the
/// unit letter right after it, if there is one.
pub open spec fn size_text_at(line: Seq<char>, j: int) -> Seq<char> {
    let e = j + number_run_len(line.skip(j));
    if e < line.len() && is_unit_letter(line[e]) {
        line.subrange(j, e + 1)
    } else {
        line.subrange(j, e)
    }
}

/// Position of the number after `lit` at `i`, past the whitespace.
pub open spec fn number_start(line: Seq<char>, i: int, lit: Seq<char>) -> int {
    i + lit.len() + ws_prefix_len(line.skip(i + lit.len()))
}

/// At `i` stands `lit`, then whitespace, then a number character.
pub open spec fn labelled_at(line: Seq<char>, i: int, lit: Seq<char>) -> bool {
    &&& occurs_at(line, i, lit)
    &&& ws_prefix_len(line.skip(i + lit.len())) > 0
    &&& number_start(line, i, lit) < line.len()
    &&& is_number_char(line[number_start(line, i, lit)])
}

/// The first position at or after `i` where [`labelled_at`] holds.
pub open spec fn first_labelled_from(line: Seq<char>, lit: Seq<char>, i: int) -> Option<int>
    decreases line.len() + 1 - i,
{
    if i < 0 || i > line.len() {
        None
    } else if labelled_at(line, i, lit) {
        Some(i)
    } else {
        first_labelled_from(line, lit, i + 1)
    }
}

/// The size after the first `lit` that whitespace and a number follow
/// (the pattern `lit\s+([\d\.]+)([KMG]?)`, leftmost match).
pub open spec fn labelled_size(line: Seq<char>, lit: Seq<char>) -> Option<Seq<char>> {
    match first_labelled_from(line, lit, 0) {
        Some(i) => Some(size_text_at(line, number_start(line, i, lit))),
        None => None,
    }
}

/// The first occurrence of `lit` at or after `i`.
pub open spec fn first_occurrence_from(line: Seq<char>, lit: Seq<char>, i: int) -> Option<int>
    decreases line.len() + 1 - i,
{
    if i < 0 || i > line.len() {
        None
    } else if occurs_at(line, i, lit) {
        Some(i)
    } else {
        first_occurrence_from(line, lit, i + 1)
    }
}

/// At `j` stands `lit` followed by a number character.
pub open spec fn marked_at(line: Seq<char>, j: int, lit: Seq<char>) -> bool {
    occurs_at(line, j, lit) && j + lit.len() < line.len() && is_number_char(line[j + lit.len()])
}

/// The last position in `lo..=j` where [`marked_at`] holds.
pub open spec fn last_marked(line: Seq<char>, lit: Seq<char>, lo: int, j: int) -> Option<int>
    decreases j - lo + 1,
{
    if j < lo {
        None
    } else if marked_at(line, j, lit) {
        Some(j)
    } else {
        last_marked(line, lit, lo, j - 1)
    }
}

/// The size in a line `Writable regions: ... swapped_out=<size>` (the
/// pattern `Writable regions:.*swapped_out=([\d\.]+)([KMG]?)`): after the
/// first `Writable regions:`, the last `swapped_out=` that a number
/// follows.
pub open spec fn writable_swapped_out(line: Seq<char>) -> Option<Seq<char>> {
    let head = "Writable regions:"@;
    let mark = "swapped_out="@;
    match first_occurrence_from(line, head, 0) {
        Some(i) => match last_marked(line, mark, i + head.len(), line.len() as int) {
            Some(j) => Some(size_text_at(line, j + mark.len())),
            None => None,
        },
        None => None,
    }
}

/// The second and fourth columns of a `TOTAL` row (the pattern
/// `^TOTAL\s+(\S+)\s+(\S+)\s+(\S+)\s+(\S+)`).
pub open spec fn total_row(line: Seq<char>) -> Option<(Seq<char>, Seq<char>)> {
    let rest = line.skip(5);
    if starts_with(line, "TOTAL"@) && rest.len() > 0 && is_white_space(rest[0]) && words(rest).len()
        >= 4 {
        Some((words(rest)[1], words(rest)[3]))
    } else {
        None
    }
}

/// The second and fourth columns of a `TOTAL, minus reserved VM space` row
/// (the pattern
/// `^TOTAL,\s+minus\s+reserved\s+VM\s+space\s+(\S+)\s+(\S+)\s+(\S+)\s+(\S+)`).
pub open spec fn total_minus_reserved_row(line: Seq<char>) -> Option<(Seq<char>, Seq<char>)> {
    let rest = line.skip(6);
    let w = words(rest);
    if starts_with(line, "TOTAL,"@) && rest.len() > 0 && is_white_space(rest[0]) && w.len() >= 8
        && w[0] == "minus"@ && w[1] == "reserved"@ && w[2] == "VM"@ && w[3] == "space"@ {
        Some((w[5], w[7]))
    } else {
        None
    }
}

/// Index just past the run of number characters that starts at `start`.
fn number_run_end(s: &Vec<char>, start: usize) -> (end: usize)
    requires
        start <= s.len(),
    ensures
        start <= end <= s.len(),
        end - start == number_run_len(s@.skip(start as int)),
{
    let mut e = start;
    while e < s.len() && (is_decimal_digit_char(s[e]) || s[e] == '.')
        invariant
            start <= e <= s.len(),
            number_run_len(s@.skip(start as int)) == (e - start) + number_run_len(s@.skip(e as int)),
        decreases s.len() - e,
    {
        assert(s@.skip(e as int).drop_first() =~= s@.skip(e + 1));
        e += 1;
    }
    assert(number_run_len(s@.skip(e as int)) == 0) by {
        if e < s.len() {
            assert(s@.skip(e as int)[0] == s@[e as int]);
        }
    }
    e
}

/// Index just past the run of whitespace that starts at `start`.
fn ws_run_end(s: &Vec<char>, start: usize) -> (end: usize)
    requires
        start <= s.len(),
    ensures
        start <= end <= s.len(),
        end - start == ws_prefix_len(s@.skip(start as int)),
{
    let mut e = start;
    while e < s.len() && is_white_space_char(s[e])
        invariant
            start <= e <= s.len(),
            ws_prefix_len(s@.skip(start as int)) == (e - start) + ws_prefix_len(s@.skip(e as int)),
        decreases s.len() - e,
    {
        assert(s@.skip(e as int).drop_first() =~= s@.skip(e + 1));
        e += 1;
    }
    assert(ws_prefix_len(s@.skip(e as int)) == 0) by {
        if e < s.len() {
            assert(s@.skip(e as int)[0] == s@[e as int]);
        }
    }
    e
}

/// The size text that starts at `j` (see [`size_text_at`]).
fn size_text_exec(line: &Vec<char>, j: usize) -> (r: Vec<char>)
    requires
        j <= line.len(),
    ensures
        r@ == size_text_at(line@, j as int),
{
    let e = number_run_end(line, j);
    if e < line.len() && (line[e] == 'K' || line[e] == 'M' || line[e] == 'G') {
        copy_range(line, j, e + 1)
    } else {
        copy_range(line, j, e)
    }
}

/// Whether [`labelled_at`] holds at `i`.
fn labelled_at_exec(line: &Vec<char>, i: usize, lit: &Vec<char>) -> (r: bool)
    requires
        i <= line.len(),
    ensures
        r == labelled_at(line@, i as int, lit@),
{
    if !occurs_at_exec(line, i, lit) {
        return false;
    }
    let j = i + lit.len();
    let w = ws_run_end(line, j);
    w > j && w < line.len() && (is_decimal_digit_char(line[w]) || line[w] == '.')
}

/// The size after the first `lit` that whitespace and a number follow.
fn find_labelled_size(line: &Vec<char>, lit: &Vec<char>) -> (r: Option<Vec<char>>)
    ensures
        match r {
            Some(v) => labelled_size(line@, lit@) == Some(v@),
            None => labelled_size(line@, lit@) is None,
        },
{
    let mut i: usize = 0;
    while i <= line.len()
        invariant
            i <= line.len(),
            first_labelled_from(line@, lit@, 0) == first_labelled_from(line@, lit@, i as int),
        decreases line.len() - i,
    {
        if labelled_at_exec(line, i, lit) {
            let j = i + lit.len();
            let w = ws_run_end(line, j);
            return Some(size_text_exec(line, w));
        }
        if i == line.len() {
            assert(first_labelled_from(line@, lit@, i + 1) is None);
            return None;
        }
        i += 1;
    }
    None
}

/// The first occurrence of `lit`.
pub fn find_first_occurrence(line: &Vec<char>, lit: &Vec<char>) -> (r: Option<usize>)
    ensures
        match r {
            Some(i) => first_occurrence_from(line@, lit@, 0) == Some(i as int) && i + lit.len()
                <= line.len(),
            None => first_occurrence_from(line@, lit@, 0) is None,
        },
{
    let mut i: usize = 0;
    while i <= line.len()
        invariant
            i <= line.len(),
            first_occurrence_from(line@, lit@, 0) == first_occurrence_from(line@, lit@, i as int),
        decreases line.len() - i,
    {
        if occurs_at_exec(line, i, lit) {
            return Some(i);
        }
        if i == line.len() {
            assert(first_occurrence_from(line@, lit@, i + 1) is None);
            return None;
        }
        i += 1;
    }
    None
}

/// The last position at or after `lo` where `lit` and a number character
/// stand.
fn find_last_marked(line: &Vec<char>, lit: &Vec<char>, lo: usize) -> (r: Option<usize>)
    requires
        lo <= line.len(),
    ensures
        match r {
            Some(j) => last_marked(line@, lit@, lo as int, line.len() as int) == Some(j as int)
                && j + lit.len() < line.len(),
            None => last_marked(line@, lit@, lo as int, line.len() as int) is None,
        },
{
    let mut j: usize = line.len();
    loop
        invariant
            lo <= j <= line.len(),
            last_marked(line@, lit@, lo as int, line.len() as int) == last_marked(
                line@,
                lit@,
                lo as int,
                j as int,
            ),
        decreases j,
    {
        if occurs_at_exec(line, j, lit) && j + lit.len() < line.len() && (is_decimal_digit_char(
            line[j + lit.len()],
        ) || line[j + lit.len()] == '.') {
            return Some(j);
        }
        if j == lo {
            assert(last_marked(line@, lit@, lo as int, j - 1) is None);
            return None;
        }
        j -= 1;
    }
}

/// The size in a `Writable regions:` line (see [`writable_swapped_out`]).
fn find_writable_swapped_out(line: &Vec<char>) -> (r: Option<Vec<char>>)
    ensures
        match r {
            Some(v) => writable_swapped_out(line@) == Some(v@),
            None => writable_swapped_out(line@) is None,
        },
{
    let head = to_chars("Writable regions:");
    let mark = to_chars("swapped_out=");
    match find_first_occurrence(line, &head) {
        Some(i) => match find_last_marked(line, &mark, i + head.len()) {
            Some(j) => Some(size_text_exec(line, j + mark.len())),
            None => None,
        },
        None => None,
    }
}

/// The second and fourth columns of a `TOTAL` row.
fn find_total_row(line: &Vec<char>) -> (r: Option<(Vec<char>, Vec<char>)>)
    ensures
        match r {
            Some((a, b)) => total_row(line@) == Some((a@, b@)),
            None => total_row(line@) is None,
        },
{
    if !starts_with_exec(line, &to_chars("TOTAL")) || line.len() <= 5 || !is_white_space_char(
        line[5],
    ) {
        proof {
            if starts_with(line@, "TOTAL"@) {
                assert("TOTAL"@.len() == 5) by {
                    reveal_strlit("TOTAL");
                }
                if line.len() > 5 {
                    assert(line@.skip(5)[0] == line@[5]);
                }
            }
        }
        return None;
    }
    proof {
        reveal_strlit("TOTAL");
    }
    let rest = copy_range(line, 5, line.len());
    assert(rest@ =~= line@.skip(5));
    let w = first_words(&rest, 4);
    if w.len() < 4 {
        return None;
    }
    Some((copy_range(&w[1], 0, w[1].len()), copy_range(&w[3], 0, w[3].len())))
}

/// The second and fourth columns of a `TOTAL, minus reserved VM space` row.
fn find_total_minus_reserved_row(line: &Vec<char>) -> (r: Option<(Vec<char>, Vec<char>)>)
    ensures
        match r {
            Some((a, b)) => total_minus_reserved_row(line@) == Some((a@, b@)),
            None => total_minus_reserved_row(line@) is None,
        },
{
    if !starts_with_exec(line, &to_chars("TOTAL,")) || line.len() <= 6 || !is_white_space_char(
        line[6],
    ) {
        proof {
            if starts_with(line@, "TOTAL,"@) {
                assert("TOTAL,"@.len() == 6) by {
                    reveal_strlit("TOTAL,");
                }
                if line.len() > 6 {
                    assert(line@.skip(6)[0] == line@[6]);
                }
            }
        }
        return None;
    }
    proof {
        reveal_strlit("TOTAL,");
    }
    let rest = copy_range(line, 6, line.len());
    assert(rest@ =~= line@.skip(6));
    let w = first_words(&rest, 8);
    if w.len() < 8 {
        return None;
    }
    if !crate::text::chars_eq(&w[0], &to_chars("minus")) || !crate::text::chars_eq(
        &w[1],
        &to_chars("reserved"),
    ) || !crate::text::chars_eq(&w[2], &to_chars("VM")) || !crate::text::chars_eq(
        &w[3],
        &to_chars("space"),
    ) {
        return None;
    }
    Some((copy_range(&w[5], 0, w[5].len()), copy_range(&w[7], 0, w[7].len())))
}

/// Figures gathered while reading a `vmmap` report line by line.
pub struct VmmapTally {
    pub phys: u64,
    pub compressed: u64,
    pub swap_used: u64,
    pub writable_swapped_out: u64,
    pub resident_from_table: u64,
    pub swap_from_table: u64,
    pub found_total_table: bool,
    pub in_region_type_table: bool,
}

/// The tally before any line.
pub open spec fn empty_tally() -> VmmapTally {
    VmmapTally {
        phys: 0,
        compressed: 0,
        swap_used: 0,
        writable_swapped_out: 0,
        resident_from_table: 0,
        swap_from_table: 0,
        found_total_table: false,
        in_region_type_table: false,
    }
}

/// The byte count of a captured size, or `prev` when nothing was captured.
pub open spec fn size_or(c: Option<Seq<char>>, prev: u64) -> u64 {
    match c {
        Some(text) => size_of_text(text),
        None => prev,
    }
}

/// A line that opens the region table: it starts with `REGION TYPE`, or it
/// names the `VIRTUAL`, `RESIDENT` and `SWAPPED` columns and not `MALLOC`.
pub open spec fn opens_region_table(line: Seq<char>) -> bool {
    ||| starts_with(line, "REGION TYPE"@)
    ||| contains(line, "VIRTUAL"@) && contains(line, "RESIDENT"@) && contains(line, "SWAPPED"@)
        && !contains(line, "MALLOC"@)
}

/// The tally after one (trimmed) line: the summary sizes are taken from
/// the lines that carry them (the last such line wins); inside the region
/// table, a `TOTAL, minus reserved VM space` row always sets the resident
/// and swapped columns, a plain `TOTAL` row only when no total row was
/// found before.
pub open spec fn tally_line(t: VmmapTally, line: Seq<char>) -> VmmapTally {
    let in_table = t.in_region_type_table || opens_region_table(line);
    let base = VmmapTally {
        phys: size_or(labelled_size(line, "Physical footprint:"@), t.phys),
        compressed: size_or(labelled_size(line, "Compressed:"@), t.compressed),
        swap_used: size_or(labelled_size(line, "Swap used:"@), t.swap_used),
        writable_swapped_out: size_or(writable_swapped_out(line), t.writable_swapped_out),
        in_region_type_table: in_table,
        ..t
    };
    if !in_table {
        base
    } else {
        match total_minus_reserved_row(line) {
            Some((res, swp)) => VmmapTally {
                resident_from_table: size_of_text(res),
                swap_from_table: size_of_text(swp),
                found_total_table: true,
                ..base
            },
            None => if t.found_total_table {
                base
            } else {
                match total_row(line) {
                    Some((res, swp)) => VmmapTally {
                        resident_from_table: size_of_text(res),
                        swap_from_table: size_of_text(swp),
                        found_total_table: true,
                        ..base
                    },
                    None => base,
                }
            },
        }
    }
}

/// The tally after the given lines, each trimmed.
pub open spec fn tally_lines(ls: Seq<Seq<char>>) -> VmmapTally
    decreases ls.len(),
{
    if ls.len() == 0 {
        empty_tally()
    } else {
        tally_line(tally_lines(ls.drop_last()), trim(ls.last()))
    }
}

/// Swapped total of a report: the table's swapped column when non-zero,
/// else the writable regions' swapped-out size when non-zero, else the
/// physical footprint less the table's resident column when both are
/// non-zero (0 when resident is larger), else 0.
pub open spec fn swapped_total_of(t: VmmapTally) -> u64 {
    if t.swap_from_table > 0 {
        t.swap_from_table
    } else if t.writable_swapped_out > 0 {
        t.writable_swapped_out
    } else if t.phys > 0 && t.resident_from_table > 0 {
        if t.phys >= t.resident_from_table {
            (t.phys - t.resident_from_table) as u64
        } else {
            0
        }
    } else {
        0
    }
}

/// Disk swap estimate of a report: the swapped total less the compressed
/// size (0 when compressed is larger), capped by the swap used when that is
/// known; with no swapped total, the swap used.
pub open spec fn swap_disk_est_of(t: VmmapTally) -> u64 {
    let swapped = swapped_total_of(t);
    let disk = if swapped >= t.compressed {
        (swapped - t.compressed) as u64
    } else {
        0
    };
    if swapped > 0 {
        if t.swap_used > 0 && t.swap_used < disk {
            t.swap_used
        } else {
            disk
        }
    } else {
        t.swap_used
    }
}

/// Without a swapped size in the region table or for the writable
/// regions, the swapped total is only the part of the physical footprint
/// that the table does not show resident: it never exceeds the footprint,
/// it is 0 when the resident size reaches the footprint (or either is
/// unknown), and otherwise resident plus swapped is the footprint.
pub proof fn law_swapped_total_without_table_swap(t: VmmapTally)
    requires
        t.swap_from_table == 0,
        t.writable_swapped_out == 0,
    ensures
        swapped_total_of(t) <= t.phys,
        t.resident_from_table >= t.phys ==> swapped_total_of(t) == 0,
        t.resident_from_table == 0 ==> swapped_total_of(t) == 0,
        0 < t.resident_from_table < t.phys ==> swapped_total_of(t) + t.resident_from_table == t.phys,
{
}

/// A swapped size that the report states is taken as it stands: the
/// table's swapped column first, else the writable regions' swapped-out
/// size.
pub proof fn law_swapped_total_stated(t: VmmapTally)
    ensures
        t.swap_from_table > 0 ==> swapped_total_of(t) == t.swap_from_table,
        t.swap_from_table == 0 && t.writable_swapped_out > 0 ==> swapped_total_of(t)
            == t.writable_swapped_out,
{
}

/// The disk swap estimate never exceeds the swapped total less the
/// compressed size, nor a known swap used; with no swapped total it is the
/// swap used.
pub proof fn law_disk_estimate_bounds(t: VmmapTally)
    ensures
        swapped_total_of(t) > 0 ==> swap_disk_est_of(t) + t.compressed <= swapped_total_of(t)
            || swap_disk_est_of(t) == 0,
        swapped_total_of(t) > 0 ==> swap_disk_est_of(t) <= swapped_total_of(t),
        swapped_total_of(t) > 0 && t.swap_used > 0 ==> swap_disk_est_of(t) <= t.swap_used,
        swapped_total_of(t) == 0 ==> swap_disk_est_of(t) == t.swap_used,
{
}

/// A process's total is its physical footprint plus its shown disk swap
/// (not its raw estimate).
pub proof fn law_total_is_footprint_plus_shown_swap(p: ProcessMemory)
    ensures
        p.total_spec() == p.physical_footprint + p.swap_disk,
{
}

/// The byte count of a size text held as characters.
fn size_of_chars(v: &Vec<char>) -> (r: u64)
    ensures
        r == size_of_text(v@),
{
    let s = string_from_chars(v);
    parse_size(s.as_str())
}

/// The byte count of a captured size, or `prev`.
fn size_or_exec(c: Option<Vec<char>>, prev: u64) -> (r: u64)
    ensures
        r == size_or(
            match c {
                Some(v) => Some(v@),
                None => None,
            },
            prev,
        ),
{
    match c {
        Some(v) => size_of_chars(&v),
        None => prev,
    }
}

/// Whether a line opens the region table.
fn opens_region_table_exec(line: &Vec<char>) -> (r: bool)
    ensures
        r == opens_region_table(line@),
{
    starts_with_exec(line, &to_chars("REGION TYPE")) || (contains_exec(line, &to_chars("VIRTUAL"))
        && contains_exec(line, &to_chars("RESIDENT")) && contains_exec(line, &to_chars("SWAPPED"))
        && !contains_exec(line, &to_chars("MALLOC")))
}

/// The tally after one trimmed line (see [`tally_line`]).
fn tally_line_exec(t: VmmapTally, line: &Vec<char>) -> (r: VmmapTally)
    ensures
        r == tally_line(t, line@),
{
    let in_table = t.in_region_type_table || opens_region_table_exec(line);
    let base = VmmapTally {
        phys: size_or_exec(find_labelled_size(line, &to_chars("Physical footprint:")), t.phys),
        compressed: size_or_exec(find_labelled_size(line, &to_chars("Compressed:")), t.compressed),
        swap_used: size_or_exec(find_labelled_size(line, &to_chars("Swap used:")), t.swap_used),
        writable_swapped_out: size_or_exec(find_writable_swapped_out(line), t.writable_swapped_out),
        resident_from_table: t.resident_from_table,
        swap_from_table: t.swap_from_table,
        found_total_table: t.found_total_table,
        in_region_type_table: in_table,
    };
    if !in_table {
        return base;
    }
    match find_total_minus_reserved_row(line) {
        Some((res, swp)) => {
            return VmmapTally {
                resident_from_table: size_of_chars(&res),
                swap_from_table: size_of_chars(&swp),
                found_total_table: true,
                ..base
            };
        },
        None => {},
    }
    if t.found_total_table {
        return base;
    }
    match find_total_row(line) {
        Some((res, swp)) => VmmapTally {
            resident_from_table: size_of_chars(&res),
            swap_from_table: size_of_chars(&swp),
            found_total_table: true,
            ..base
        },
        None => base,
    }
}

/// Reads the memory figures of process `pid` (named `name`) from the text
/// of `vmmap -summary`: the physical footprint and compressed size from the
/// summary lines, the swapped total and disk swap estimate as
/// [`swapped_total_of`] and [`swap_disk_est_of`] state; the displayed disk
/// swap starts equal to the estimate.
pub fn parse_vmmap_output(pid: i32, name: &str, output: &str) -> (r: ProcessMemory)
    ensures
        r.pid == pid,
        r.name@ == name@,
        r.physical_footprint == tally_lines(lines(output@)).phys,
        r.compressed == tally_lines(lines(output@)).compressed,
        r.swapped_total == swapped_total_of(tally_lines(lines(output@))),
        r.swap_disk_est == swap_disk_est_of(tally_lines(lines(output@))),
        r.swap_disk == r.swap_disk_est,
{
    let text = to_chars(output);
    let ls = split_lines(&text);
    let mut t = VmmapTally {
        phys: 0,
        compressed: 0,
        swap_used: 0,
        writable_swapped_out: 0,
        resident_from_table: 0,
        swap_from_table: 0,
        found_total_table: false,
        in_region_type_table: false,
    };
    let mut k: usize = 0;
    let ghost all = lines(output@);
    assert(all.take(0) =~= Seq::<Seq<char>>::empty());
    while k < ls.len()
        invariant
            k <= ls.len() == all.len(),
            all == lines(text@),
            forall|i: int| 0 <= i < ls.len() ==> #[trigger] ls[i]@ == all[i],
            t == tally_lines(all.take(k as int)),
        decreases ls.len() - k,
    {
        let line = trim_chars(&ls[k]);
        assert(all.take(k + 1).drop_last() =~= all.take(k as int));
        assert(all.take(k + 1).last() == all[k as int]);
        t = tally_line_exec(t, &line);
        k += 1;
    }
    assert(all.take(ls.len() as int) =~= all);
    let swapped_total = if t.swap_from_table > 0 {
        t.swap_from_table
    } else if t.writable_swapped_out > 0 {
        t.writable_swapped_out
    } else if t.phys > 0 && t.resident_from_table > 0 {
        t.phys.saturating_sub(t.resident_from_table)
    } else {
        0
    };
    let disk_from_swapped = swapped_total.saturating_sub(t.compressed);
    let swap_disk_est = if swapped_total > 0 {
        if t.swap_used > 0 {
            if disk_from_swapped < t.swap_used {
                disk_from_swapped
            } else {
                t.swap_used
            }
        } else {
            disk_from_swapped
        }
    } else if t.swap_used > 0 {
        t.swap_used
    } else {
        0
    };
    ProcessMemory {
        pid,
        name: name.to_owned(),
        physical_footprint: t.phys,
        compressed: t.compressed,
        swapped_total,
        swap_disk_est,
        swap_disk: swap_disk_est,
    }
}

} // verus!
