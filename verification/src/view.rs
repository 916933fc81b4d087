//! The texts that the interactive table shows: spinner frames, progress
//! labels and the cells of a process row.
use vstd::prelude::*;
use crate::app::App;
use crate::cli::{signed_decimal, signed_decimal_exec};
use crate::decimal::{decimal_chars, decimal_of};
use crate::float::{double_div, double_floor, double_mul, double_of, percent_floor};
use crate::scanner::ProcessMemory;
use crate::size::{format_size, format_size_text};
use crate::text::{append_chars, string_from_chars, to_chars};

verus! {

/// The spinner's ten frames (braille dots).
pub open spec fn spinner_frames() -> Seq<char> {
    seq![
        '\u{280B}',
        '\u{2819}',
        '\u{2839}',
        '\u{2838}',
        '\u{283C}',
        '\u{2834}',
        '\u{2826}',
        '\u{2827}',
        '\u{2807}',
        '\u{280F}',
    ]
}

/// The spinner frame for tick `idx`, taken round the ten frames.
pub fn spinner_frame(idx: usize) -> (r: char)
    ensures
        r == spinner_frames()[(idx % 10) as int],
{
    let k = idx % 10;
    if k == 0 {
        '\u{280B}'
    } else if k == 1 {
        '\u{2819}'
    } else if k == 2 {
        '\u{2839}'
    } else if k == 3 {
        '\u{2838}'
    } else if k == 4 {
        '\u{283C}'
    } else if k == 5 {
        '\u{2834}'
    } else if k == 6 {
        '\u{2826}'
    } else if k == 7 {
        '\u{2827}'
    } else if k == 8 {
        '\u{2807}'
    } else {
        '\u{280F}'
    }
}

/// The spinner frame for tick `idx`, a space, then `text`.
pub fn spinner_line(idx: usize, text: &str) -> (r: String)
    ensures
        r@ == seq![spinner_frames()[(idx % 10) as int], ' '] + text@,
{
    let mut v: Vec<char> = Vec::new();
    v.push(spinner_frame(idx));
    v.push(' ');
    append_chars(&mut v, &to_chars(text));
    string_from_chars(&v)
}

/// The label of the deep-analysis gauge: spinner frame, then
/// ` Deep Analysis: `, the percentage and `%`.
pub fn deep_analysis_label(idx: usize, percent: u16) -> (r: String)
    ensures
        r@ == seq![spinner_frames()[(idx % 10) as int]] + " Deep Analysis: "@ + decimal_chars(
            percent as nat,
        ) + "%"@,
{
    let mut v: Vec<char> = Vec::new();
    v.push(spinner_frame(idx));
    append_chars(&mut v, &to_chars(" Deep Analysis: "));
    append_chars(&mut v, &decimal_of(percent as u128));
    append_chars(&mut v, &to_chars("%"));
    string_from_chars(&v)
}

/// What a progress gauge shows for `current` out of `total`:
/// `(current as f64 / total as f64) * 100.0`, truncated to `u16` (0 when
/// `total` is 0).
pub open spec fn percent_of(current: usize, total: usize) -> u16 {
    if total == 0 {
        0
    } else {
        let v = double_floor(
            double_mul(
                double_div(double_of(current as nat), double_of(total as nat)),
                double_of(100),
            ),
        );
        if v > u16::MAX {
            u16::MAX
        } else {
            v as u16
        }
    }
}

/// The percentage a progress gauge shows (see [`percent_of`]).
pub fn gauge_percent(current: usize, total: usize) -> (r: u16)
    ensures
        r == percent_of(current, total),
{
    if total == 0 {
        return 0;
    }
    let v = percent_floor(current as u64, total as u64);
    if v > 0xffff {
        0xffff
    } else {
        v as u16
    }
}

/// The text of a process row: pid, name, physical footprint, compressed,
/// disk swap and total.
pub open spec fn row_texts(p: ProcessMemory) -> Seq<Seq<char>> {
    seq![
        signed_decimal(p.pid as int),
        p.name@,
        format_size_text(p.physical_footprint),
        format_size_text(p.compressed),
        format_size_text(p.swap_disk),
        format_size_text(p.total_spec() as u64),
    ]
}

/// The row's Total cell writes the physical footprint plus the shown disk
/// swap, the two figures in the Physical and Swap cells beside it.
pub proof fn law_row_total_is_physical_plus_swap(p: ProcessMemory)
    ensures
        row_texts(p)[2] == format_size_text(p.physical_footprint),
        row_texts(p)[4] == format_size_text(p.swap_disk),
        row_texts(p)[5] == format_size_text((p.physical_footprint + p.swap_disk) as u64),
{
}

/// The cells of `p`'s row in the process table (see [`row_texts`]).
pub fn table_row_cells(p: &ProcessMemory) -> (r: Vec<String>)
    requires
        p.total_spec() <= u64::MAX,
    ensures
        r@.map_values(|c: String| c@) == row_texts(*p),
{
    let mut r: Vec<String> = Vec::new();
    r.push(string_from_chars(&signed_decimal_exec(p.pid)));
    r.push(p.name.clone());
    r.push(format_size(p.physical_footprint));
    r.push(format_size(p.compressed));
    r.push(format_size(p.swap_disk));
    r.push(format_size(p.total()));
    assert(r@.map_values(|c: String| c@) =~= row_texts(*p));
    r
}

impl App {
    /// The label of the quick-scan gauge while a quick scan is shown: the
    /// status message, or `Scanning c/t` when there is none; `None` when no
    /// quick scan is shown.
    pub fn quick_scan_label(&self) -> (r: Option<String>)
        ensures
            match self.scan_progress {
                Some(progress) => r matches Some(label) && label@ == match self.status_message {
                    Some(m) => m@,
                    None => "Scanning "@ + decimal_chars(progress.0 as nat) + "/"@ + decimal_chars(
                        progress.1 as nat,
                    ),
                },
                None => r is None,
            },
    {
        match self.scan_progress {
            Some(progress) => match &self.status_message {
                Some(m) => Some(m.clone()),
                None => {
                    let mut v = to_chars("Scanning ");
                    append_chars(&mut v, &decimal_of(progress.0 as u128));
                    append_chars(&mut v, &to_chars("/"));
                    append_chars(&mut v, &decimal_of(progress.1 as u128));
                    Some(string_from_chars(&v))
                },
            },
            None => None,
        }
    }
}

} // verus!
