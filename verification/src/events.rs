//! How the interactive table reacts: a key press changes the table's state
//! and may ask for outside work; a message of the scanner changes the
//! table's state.
use vstd::prelude::*;
use std::collections::HashMap;
use crate::app::{
    any_updated,
    apply_updates,
    next_index,
    phys_sum,
    previous_index,
    stable_sorted,
    totals_after_normalizing,
    App,
    SortColumn,
    TableSelection,
};
use crate::decimal::{decimal_chars, decimal_of};
use crate::footprint::FootprintData;
use crate::normalize::{normalized, shown_swap_sum};
use crate::scanner::ProcessMemory;
use crate::size::{clamp_u64, parse_size, size_of_text};
use crate::text::{append_chars, string_from_chars, to_chars};

verus! {

/// A key press, as the terminal reports it.
#[derive(Debug, Clone, Copy, PartialEq, Eq, Structural)]
pub enum KeyInput {
    Char(char),
    Esc,
    Enter,
    Up,
    Down,
    Other,
}

/// What a key asks of the table.
#[derive(Debug, Clone, Copy, PartialEq, Eq, Structural)]
pub enum Command {
    /// Close the details, or quit.
    Quit,
    /// Close the details.
    Close,
    /// Fetch the shown details again, or scan everything again.
    Refresh,
    /// Read the selected process again.
    RefreshSelected,
    /// Show the selected process's details.
    OpenDetails,
    /// Select the next row.
    Next,
    /// Select the previous row.
    Previous,
    /// Order by a column, descending when the flag is set.
    SortBy(SortColumn, bool),
    /// Kill the selected process.
    Kill,
    /// Nothing.
    Ignore,
}

/// The key bindings: `q` quit, `Esc` close, `r` refresh, `R` refresh the
/// selected process, `Enter` details, `Down`/`j` and `Up`/`k` move, `s`
/// `p` `c` `t` order by swap, physical, compressed and total (largest
/// first), `n` `i` by name and pid (smallest first), `x` kill.
pub open spec fn command_of(key: KeyInput) -> Command {
    match key {
        KeyInput::Char(c) => if c == 'q' {
            Command::Quit
        } else if c == 'r' {
            Command::Refresh
        } else if c == 'R' {
            Command::RefreshSelected
        } else if c == 'j' {
            Command::Next
        } else if c == 'k' {
            Command::Previous
        } else if c == 's' {
            Command::SortBy(SortColumn::Swap, true)
        } else if c == 'p' {
            Command::SortBy(SortColumn::Physical, true)
        } else if c == 'c' {
            Command::SortBy(SortColumn::Compressed, true)
        } else if c == 't' {
            Command::SortBy(SortColumn::Total, true)
        } else if c == 'n' {
            Command::SortBy(SortColumn::Name, false)
        } else if c == 'i' {
            Command::SortBy(SortColumn::Pid, false)
        } else if c == 'x' {
            Command::Kill
        } else {
            Command::Ignore
        },
        KeyInput::Esc => Command::Close,
        KeyInput::Enter => Command::OpenDetails,
        KeyInput::Down => Command::Next,
        KeyInput::Up => Command::Previous,
        KeyInput::Other => Command::Ignore,
    }
}

/// The command bound to `key` (see [`command_of`]).
pub fn command_for(key: KeyInput) -> (r: Command)
    ensures
        r == command_of(key),
{
    match key {
        KeyInput::Char(c) => if c == 'q' {
            Command::Quit
        } else if c == 'r' {
            Command::Refresh
        } else if c == 'R' {
            Command::RefreshSelected
        } else if c == 'j' {
            Command::Next
        } else if c == 'k' {
            Command::Previous
        } else if c == 's' {
            Command::SortBy(SortColumn::Swap, true)
        } else if c == 'p' {
            Command::SortBy(SortColumn::Physical, true)
        } else if c == 'c' {
            Command::SortBy(SortColumn::Compressed, true)
        } else if c == 't' {
            Command::SortBy(SortColumn::Total, true)
        } else if c == 'n' {
            Command::SortBy(SortColumn::Name, false)
        } else if c == 'i' {
            Command::SortBy(SortColumn::Pid, false)
        } else if c == 'x' {
            Command::Kill
        } else {
            Command::Ignore
        },
        KeyInput::Esc => Command::Close,
        KeyInput::Enter => Command::OpenDetails,
        KeyInput::Down => Command::Next,
        KeyInput::Up => Command::Previous,
        KeyInput::Other => Command::Ignore,
    }
}

/// Outside work that a key press asks for.
pub enum KeyAction {
    /// None.
    Nothing,
    /// Fetch the details of this process (pid, name).
    FetchDetails(i32, String),
    /// Read the system swap again and scan all processes.
    Rescan,
    /// Read this process's memory again (pid, name).
    RefreshProcess(i32, String),
    /// Send `kill -9` to this pid.
    Kill(i32),
}

/// The selected row, when one is selected and exists.
pub open spec fn selected_row(app: App) -> Option<int> {
    match app.state.selected {
        Some(i) => if i < app.processes@.len() {
            Some(i as int)
        } else {
            None
        },
        None => None,
    }
}

/// `r` asks for `f` to be done for the process at row `i` of `app`.
pub open spec fn asks_for_row(r: KeyAction, app: App, i: int, details: bool) -> bool {
    if details {
        r matches KeyAction::FetchDetails(pid, name) && pid == app.processes@[i].pid && name@
            == app.processes@[i].name@
    } else {
        r matches KeyAction::RefreshProcess(pid, name) && pid == app.processes@[i].pid && name@
            == app.processes@[i].name@
    }
}

/// The text shown while the deep scan runs: `Deep scanning c/t...`.
pub open spec fn deep_scanning_text(current: usize, total: usize) -> Seq<char> {
    "Deep scanning "@ + decimal_chars(current as nat) + "/"@ + decimal_chars(total as nat) + "..."@
}

/// The index of the first process with pid `pid`, searching from `i`.
pub open spec fn position_from(ps: Seq<ProcessMemory>, pid: i32, i: int) -> Option<int>
    decreases ps.len() - i,
{
    if i < 0 || i >= ps.len() {
        None
    } else if ps[i].pid == pid {
        Some(i)
    } else {
        position_from(ps, pid, i + 1)
    }
}

proof fn lemma_position_from_bound(ps: Seq<ProcessMemory>, pid: i32, i: int)
    ensures
        position_from(ps, pid, i) matches Some(k) ==> i <= k < ps.len() && ps[k].pid == pid,
    decreases ps.len() - i,
{
    if 0 <= i < ps.len() && ps[i].pid != pid {
        lemma_position_from_bound(ps, pid, i + 1);
    }
}

/// A message of the scanner.
pub enum ScanEvent {
    /// The quick scan starts over this many processes.
    Start(usize),
    /// The quick scan reached this count, at this process name.
    Progress(usize, String),
    /// A process found by the quick scan.
    Result(ProcessMemory),
    /// Deep-scan figures (footprint figures and compressed size) by pid.
    BatchUpdate(HashMap<i32, (FootprintData, u64)>),
    /// The deep scan starts over this many processes.
    DeepScanStart(usize),
    /// The deep scan has done this many processes.
    DeepScanProgress(usize),
    /// Both scans are done.
    Complete,
    /// One process read again.
    SingleResult(ProcessMemory),
    /// The details of this process (pid, name) have arrived.
    DetailResult(i32, String),
}

/// The deep-scan status text for `current` of `total`.
fn deep_scanning_message(current: usize, total: usize) -> (r: String)
    ensures
        r@ == deep_scanning_text(current, total),
{
    let mut v = to_chars("Deep scanning ");
    append_chars(&mut v, &decimal_of(current as u128));
    append_chars(&mut v, &to_chars("/"));
    append_chars(&mut v, &decimal_of(total as u128));
    append_chars(&mut v, &to_chars("..."));
    string_from_chars(&v)
}

impl App {
    /// The pid of the selected process, to which `kill -9` is sent; `None`
    /// when no existing row is selected.
    pub fn kill_selected(&self) -> (r: Option<i32>)
        ensures
            r == (match selected_row(*self) {
                Some(i) => Some(self.processes@[i].pid),
                None => None,
            }),
    {
        self.selected_pid()
    }

    /// Records the system swap as `sysctl` printed it, and its byte count
    /// (read by [`parse_size`]).
    pub fn set_system_swap(&mut self, text: String)
        ensures
            final(self).system_swap@ == text@,
            final(self).system_swap_bytes == size_of_text(text@),
            *final(self) == (App {
                system_swap: final(self).system_swap,
                system_swap_bytes: final(self).system_swap_bytes,
                ..*old(self)
            }),
    {
        let bytes = parse_size(text.as_str());
        self.system_swap = text;
        self.system_swap_bytes = bytes;
    }

    /// Reacts to a key press (see [`command_of`] for the bindings): changes
    /// the state, and says what outside work is to be done.
    pub fn handle_key(&mut self, key: KeyInput) -> (r: KeyAction)
        ensures
            match command_of(key) {
                Command::Quit => r is Nothing && *final(self) == if old(self).detail_view_open {
                    App { detail_view_open: false, ..*old(self) }
                } else {
                    App { should_quit: true, ..*old(self) }
                },
                Command::Close => r is Nothing && *final(self) == (App {
                    detail_view_open: false,
                    ..*old(self)
                }),
                Command::Refresh => if old(self).detail_view_open {
                    match old(self).detail_subject {
                        Some(subject) => (r matches KeyAction::FetchDetails(pid, name) && pid
                            == subject.0 && name@ == subject.1@) && *final(self) == (App {
                            is_loading: true,
                            ..*old(self)
                        }),
                        None => r is Nothing && *final(self) == *old(self),
                    }
                } else if !old(self).is_loading && old(self).deep_scan_progress is None {
                    r is Rescan && final(self).processes@.len() == 0 && *final(self) == (App {
                        is_loading: true,
                        processes: final(self).processes,
                        total_swap: 0,
                        total_phys: 0,
                        ..*old(self)
                    })
                } else {
                    r is Nothing && *final(self) == *old(self)
                },
                Command::RefreshSelected => *final(self) == *old(self) && match selected_row(
                    *old(self),
                ) {
                    Some(i) => asks_for_row(r, *old(self), i, false),
                    None => r is Nothing,
                },
                Command::OpenDetails => if !old(self).detail_view_open && selected_row(
                    *old(self),
                ) is Some {
                    asks_for_row(r, *old(self), selected_row(*old(self))->0, true) && *final(self)
                        == (App { detail_view_open: true, detail_subject: None, ..*old(self) })
                } else {
                    r is Nothing && *final(self) == *old(self)
                },
                Command::Next => r is Nothing && *final(self) == if old(self).detail_view_open {
                    *old(self)
                } else {
                    App {
                        state: TableSelection {
                            selected: Some(
                                next_index(old(self).state.selected, old(self).processes@.len()),
                            ),
                        },
                        ..*old(self)
                    }
                },
                Command::Previous => r is Nothing && *final(self) == if old(self).detail_view_open {
                    *old(self)
                } else {
                    App {
                        state: TableSelection {
                            selected: Some(
                                previous_index(old(self).state.selected, old(self).processes@.len()),
                            ),
                        },
                        ..*old(self)
                    }
                },
                Command::SortBy(col, desc) => r is Nothing && stable_sorted(
                    final(self).processes@,
                    old(self).processes@,
                    col,
                    desc,
                ) && *final(self) == (App {
                    processes: final(self).processes,
                    sort_column: col,
                    sort_desc: desc,
                    ..*old(self)
                }),
                Command::Kill => *final(self) == *old(self) && r == match selected_row(*old(self)) {
                    Some(i) => KeyAction::Kill(old(self).processes@[i].pid),
                    None => KeyAction::Nothing,
                },
                Command::Ignore => r is Nothing && *final(self) == *old(self),
            },
    {
        match command_for(key) {
            Command::Quit => {
                if self.detail_view_open {
                    self.detail_view_open = false;
                } else {
                    self.quit();
                }
                KeyAction::Nothing
            },
            Command::Close => {
                self.detail_view_open = false;
                KeyAction::Nothing
            },
            Command::Refresh => {
                if self.detail_view_open {
                    let subject = match &self.detail_subject {
                        Some(s) => Some((s.0, s.1.clone())),
                        None => None,
                    };
                    match subject {
                        Some(s) => {
                            self.is_loading = true;
                            KeyAction::FetchDetails(s.0, s.1)
                        },
                        None => KeyAction::Nothing,
                    }
                } else if !self.is_loading && self.deep_scan_progress.is_none() {
                    self.is_loading = true;
                    self.processes = Vec::new();
                    self.total_swap = 0;
                    self.total_phys = 0;
                    KeyAction::Rescan
                } else {
                    KeyAction::Nothing
                }
            },
            Command::RefreshSelected => {
                match self.state.selected() {
                    Some(i) => if i < self.processes.len() {
                        KeyAction::RefreshProcess(self.processes[i].pid, self.processes[i].name.clone())
                    } else {
                        KeyAction::Nothing
                    },
                    None => KeyAction::Nothing,
                }
            },
            Command::OpenDetails => {
                if self.detail_view_open {
                    return KeyAction::Nothing;
                }
                match self.state.selected() {
                    Some(i) => if i < self.processes.len() {
                        let pid = self.processes[i].pid;
                        let name = self.processes[i].name.clone();
                        self.detail_view_open = true;
                        self.detail_subject = None;
                        KeyAction::FetchDetails(pid, name)
                    } else {
                        KeyAction::Nothing
                    },
                    None => KeyAction::Nothing,
                }
            },
            Command::Next => {
                if !self.detail_view_open {
                    self.next();
                }
                KeyAction::Nothing
            },
            Command::Previous => {
                if !self.detail_view_open {
                    self.previous();
                }
                KeyAction::Nothing
            },
            Command::SortBy(col, desc) => {
                self.sort_column = col;
                self.sort_desc = desc;
                self.sort();
                KeyAction::Nothing
            },
            Command::Kill => match self.kill_selected() {
                Some(pid) => KeyAction::Kill(pid),
                None => KeyAction::Nothing,
            },
            Command::Ignore => KeyAction::Nothing,
        }
    }

    /// Reacts to a message of the scanner.
    /// - `Start(t)`: quick-scan progress `(0, t)`, status `Quick scanning...`.
    /// - `Progress(c, name)`: the quick-scan count becomes `c` (when a quick
    ///   scan is shown), the process being scanned `name`.
    /// - `Result(p)`: [`App::add_process`].
    /// - `BatchUpdate(u)`: [`App::update_processes`].
    /// - `DeepScanStart(t)`: loading ends, the quick-scan progress is
    ///   cleared, deep-scan progress `(0, t)`, status `Deep scanning 0/t...`.
    /// - `DeepScanProgress(c)`: when a deep scan is shown, its count and
    ///   status become `c`.
    /// - `Complete`: loading, progress and the scanned name are cleared,
    ///   status `Scan complete`, the swap is normalized to the system figure,
    ///   the table re-sorted, and the first row selected if none was and
    ///   there are rows.
    /// - `SingleResult(p)`: the first process with `p`'s pid is replaced by
    ///   `p`, the totals recalculated and the swap normalized; nothing when
    ///   no process has that pid.
    /// - `DetailResult(pid, name)`: loading ends, the details of that
    ///   process are shown.
    pub fn apply_event(&mut self, event: ScanEvent)
        requires
            event matches ScanEvent::Result(p) ==> old(self).total_swap + p.swap_disk <= u64::MAX
                && old(self).total_phys + p.physical_footprint <= u64::MAX,
        ensures
            match event {
                ScanEvent::Start(total) => final(self).status_message matches Some(m) && m@
                    == "Quick scanning..."@ && *final(self) == (App {
                    scan_progress: Some((0, total)),
                    status_message: final(self).status_message,
                    ..*old(self)
                }),
                ScanEvent::Progress(current, name) => final(self).current_scanning matches Some(n)
                    && n@ == name@ && *final(self) == (App {
                    scan_progress: match old(self).scan_progress {
                        Some(progress) => Some((current, progress.1)),
                        None => None,
                    },
                    current_scanning: final(self).current_scanning,
                    ..*old(self)
                }),
                ScanEvent::Result(p) => final(self).total_swap == old(self).total_swap + p.swap_disk
                    && final(self).total_phys == old(self).total_phys + p.physical_footprint
                    && stable_sorted(
                    final(self).processes@,
                    old(self).processes@.push(p),
                    old(self).sort_column,
                    old(self).sort_desc,
                ) && *final(self) == (App {
                    processes: final(self).processes,
                    total_swap: final(self).total_swap,
                    total_phys: final(self).total_phys,
                    ..*old(self)
                }),
                ScanEvent::BatchUpdate(updates) => if any_updated(old(self).processes@, updates@) {
                    let applied = apply_updates(old(self).processes@, updates@);
                    &&& stable_sorted(
                        final(self).processes@,
                        applied,
                        old(self).sort_column,
                        old(self).sort_desc,
                    )
                    &&& final(self).total_swap == clamp_u64(shown_swap_sum(applied, applied.len() as int))
                    &&& final(self).total_phys == clamp_u64(phys_sum(applied, applied.len() as int))
                    &&& *final(self) == (App {
                        processes: final(self).processes,
                        total_swap: final(self).total_swap,
                        total_phys: final(self).total_phys,
                        ..*old(self)
                    })
                } else {
                    final(self).processes@ == old(self).processes@ && *final(self) == (App {
                        processes: final(self).processes,
                        ..*old(self)
                    })
                },
                ScanEvent::DeepScanStart(total) => final(self).status_message matches Some(m) && m@
                    == deep_scanning_text(0, total) && *final(self) == (App {
                    is_loading: false,
                    scan_progress: None,
                    deep_scan_progress: Some((0, total)),
                    status_message: final(self).status_message,
                    ..*old(self)
                }),
                ScanEvent::DeepScanProgress(current) => match old(self).deep_scan_progress {
                    Some(progress) => final(self).status_message matches Some(m) && m@
                        == deep_scanning_text(current, progress.1) && *final(self) == (App {
                        deep_scan_progress: Some((current, progress.1)),
                        status_message: final(self).status_message,
                        ..*old(self)
                    }),
                    None => *final(self) == *old(self),
                },
                ScanEvent::Complete => {
                    let n = normalized(old(self).processes@, old(self).system_swap_bytes);
                    let totals = totals_after_normalizing(
                        old(self).processes@,
                        old(self).system_swap_bytes,
                        old(self).total_swap,
                        old(self).total_phys,
                    );
                    &&& stable_sorted(final(self).processes@, n, old(self).sort_column, old(self).sort_desc)
                    &&& final(self).status_message matches Some(m) && m@ == "Scan complete"@
                    &&& *final(self) == (App {
                        is_loading: false,
                        scan_progress: None,
                        deep_scan_progress: None,
                        current_scanning: None,
                        status_message: final(self).status_message,
                        processes: final(self).processes,
                        total_swap: totals.0,
                        total_phys: totals.1,
                        state: TableSelection {
                            selected: if old(self).state.selected is None && n.len() > 0 {
                                Some(0)
                            } else {
                                old(self).state.selected
                            },
                        },
                        ..*old(self)
                    })
                },
                ScanEvent::SingleResult(p) => match position_from(old(self).processes@, p.pid, 0) {
                    Some(k) => {
                        let replaced = old(self).processes@.update(k, p);
                        let totals = totals_after_normalizing(
                            replaced,
                            old(self).system_swap_bytes,
                            clamp_u64(shown_swap_sum(replaced, replaced.len() as int)),
                            clamp_u64(phys_sum(replaced, replaced.len() as int)),
                        );
                        &&& final(self).processes@ == normalized(replaced, old(self).system_swap_bytes)
                        &&& *final(self) == (App {
                            processes: final(self).processes,
                            total_swap: totals.0,
                            total_phys: totals.1,
                            ..*old(self)
                        })
                    },
                    None => *final(self) == *old(self),
                },
                ScanEvent::DetailResult(pid, name) => final(self).detail_subject matches Some(s)
                    && s.0 == pid && s.1@ == name@ && *final(self) == (App {
                    is_loading: false,
                    detail_subject: final(self).detail_subject,
                    ..*old(self)
                }),
            },
    {
        match event {
            ScanEvent::Start(total) => {
                self.scan_progress = Some((0, total));
                self.status_message = Some(String::from_str("Quick scanning..."));
            },
            ScanEvent::Progress(current, name) => {
                match self.scan_progress {
                    Some(progress) => {
                        self.scan_progress = Some((current, progress.1));
                    },
                    None => {},
                }
                self.current_scanning = Some(name);
            },
            ScanEvent::Result(p) => {
                self.add_process(p);
            },
            ScanEvent::BatchUpdate(updates) => {
                self.update_processes(updates);
            },
            ScanEvent::DeepScanStart(total) => {
                self.is_loading = false;
                self.scan_progress = None;
                self.deep_scan_progress = Some((0, total));
                self.status_message = Some(deep_scanning_message(0, total));
            },
            ScanEvent::DeepScanProgress(current) => {
                match self.deep_scan_progress {
                    Some(progress) => {
                        self.deep_scan_progress = Some((current, progress.1));
                        self.status_message = Some(deep_scanning_message(current, progress.1));
                    },
                    None => {},
                }
            },
            ScanEvent::Complete => {
                self.is_loading = false;
                self.scan_progress = None;
                self.deep_scan_progress = None;
                self.current_scanning = None;
                self.status_message = Some(String::from_str("Scan complete"));
                self.normalize_swap_to_system();
                self.sort();
                if self.state.selected().is_none() && self.processes.len() > 0 {
                    self.state.select(Some(0));
                }
            },
            ScanEvent::SingleResult(p) => {
                match self.position_of_pid(p.pid) {
                    Some(k) => {
                        self.processes.set(k, p);
                        self.recalculate_totals();
                        self.normalize_swap_to_system();
                    },
                    None => {},
                }
            },
            ScanEvent::DetailResult(pid, name) => {
                self.is_loading = false;
                self.detail_subject = Some((pid, name));
            },
        }
    }

    /// The index of the first process with pid `pid`.
    fn position_of_pid(&self, pid: i32) -> (r: Option<usize>)
        ensures
            match r {
                Some(k) => position_from(self.processes@, pid, 0) == Some(k as int) && k
                    < self.processes@.len(),
                None => position_from(self.processes@, pid, 0) is None,
            },
    {
        let mut i: usize = 0;
        while i < self.processes.len()
            invariant
                i <= self.processes.len(),
                position_from(self.processes@, pid, 0) == position_from(self.processes@, pid, i as int),
            decreases self.processes.len() - i,
        {
            if self.processes[i].pid == pid {
                proof {
                    lemma_position_from_bound(self.processes@, pid, 0);
                }
                return Some(i);
            }
            i += 1;
        }
        None
    }
}

} // verus!
