use std::collections::HashMap;

use macmemana::app::{sorted_processes, App, SortColumn};
use macmemana::events::{command_for, Command, KeyAction, KeyInput, ScanEvent};
use macmemana::footprint::FootprintData;
use macmemana::scanner::ProcessMemory;

fn proc_with(pid: i32, name: &str, phys: u64, swap: u64) -> ProcessMemory {
    let mut p = ProcessMemory::new_simple(pid, String::from(name), phys);
    p.swap_disk = swap;
    p.swap_disk_est = swap;
    p
}

fn pids(app: &App) -> Vec<i32> {
    app.processes.iter().map(|p| p.pid).collect()
}

#[test]
fn new_app_is_empty_and_sorted_by_swap() {
    let app = App::new();
    assert!(!app.should_quit);
    assert!(app.processes.is_empty());
    assert_eq!(app.state.selected(), None);
    assert_eq!(app.sort_column, SortColumn::Swap);
    assert!(app.sort_desc);
    assert!(!app.is_loading);
    assert_eq!(app.system_swap, "Unknown");
    assert_eq!(app.system_swap_bytes, 0);
    assert_eq!(app.total_swap, 0);
    assert_eq!(app.total_phys, 0);
}

#[test]
fn add_process_keeps_totals_and_order() {
    let mut app = App::new();
    app.add_process(proc_with(1, "a", 10, 5));
    app.add_process(proc_with(2, "b", 20, 50));
    app.add_process(proc_with(3, "c", 30, 7));
    assert_eq!(pids(&app), vec![2, 3, 1]);
    assert_eq!(app.total_swap, 62);
    assert_eq!(app.total_phys, 60);
}

#[test]
fn sort_is_stable_and_follows_column() {
    let ps = vec![
        proc_with(3, "beta", 10, 5),
        proc_with(1, "alpha", 30, 5),
        proc_with(2, "Gamma", 20, 9),
    ];
    let by_swap: Vec<i32> = sorted_processes(&ps, SortColumn::Swap, true).iter().map(|p| p.pid).collect();
    assert_eq!(by_swap, vec![2, 3, 1]);
    let by_pid: Vec<i32> = sorted_processes(&ps, SortColumn::Pid, false).iter().map(|p| p.pid).collect();
    assert_eq!(by_pid, vec![1, 2, 3]);
    let by_name: Vec<i32> = sorted_processes(&ps, SortColumn::Name, false).iter().map(|p| p.pid).collect();
    assert_eq!(by_name, vec![2, 1, 3]);
    let by_total: Vec<i32> = sorted_processes(&ps, SortColumn::Total, true).iter().map(|p| p.pid).collect();
    assert_eq!(by_total, vec![1, 2, 3]);
    let by_phys_up: Vec<i32> =
        sorted_processes(&ps, SortColumn::Physical, false).iter().map(|p| p.pid).collect();
    assert_eq!(by_phys_up, vec![3, 2, 1]);
}

#[test]
fn moving_wraps_around() {
    let mut app = App::new();
    for i in 0..3 {
        app.add_process(proc_with(i, "p", 1, 1));
    }
    app.next();
    assert_eq!(app.state.selected(), Some(0));
    app.next();
    app.next();
    assert_eq!(app.state.selected(), Some(2));
    app.next();
    assert_eq!(app.state.selected(), Some(0));
    app.previous();
    assert_eq!(app.state.selected(), Some(2));
    app.previous();
    assert_eq!(app.state.selected(), Some(1));
}

#[test]
fn moving_in_an_empty_table_selects_row_zero() {
    let mut app = App::new();
    app.previous();
    assert_eq!(app.state.selected(), Some(0));
    app.next();
    assert_eq!(app.state.selected(), Some(0));
}

#[test]
fn next_then_previous_comes_back() {
    let mut app = App::new();
    for i in 0..5 {
        app.add_process(proc_with(i, "p", 1, 1));
    }
    for start in 0..5usize {
        app.state.select(Some(start));
        app.next();
        app.previous();
        assert_eq!(app.state.selected(), Some(start));
        app.previous();
        app.next();
        assert_eq!(app.state.selected(), Some(start));
    }
}

#[test]
fn spinner_turns_only_while_scanning() {
    let mut app = App::new();
    app.on_tick();
    assert_eq!(app.spinner_idx, 0);
    app.is_loading = true;
    for _ in 0..5 {
        app.on_tick();
    }
    assert_eq!(app.spinner_idx, 1);
}

#[test]
fn recalculate_totals_saturates() {
    let mut app = App::new();
    app.processes.push(proc_with(1, "a", u64::MAX, u64::MAX));
    app.processes.push(proc_with(2, "b", 5, 5));
    app.recalculate_totals();
    assert_eq!(app.total_swap, u64::MAX);
    assert_eq!(app.total_phys, u64::MAX);
}

#[test]
fn update_processes_merges_and_resorts() {
    let mut app = App::new();
    app.add_process(proc_with(1, "a", 10, 0));
    app.add_process(proc_with(2, "b", 20, 0));
    let mut updates = HashMap::new();
    updates.insert(
        1,
        (
            FootprintData { pid: 1, name: String::from("a"), physical_footprint: 100, swapped_total: 70 },
            20u64,
        ),
    );
    app.update_processes(updates);
    assert_eq!(pids(&app), vec![1, 2]);
    assert_eq!(app.processes[0].swap_disk, 50);
    assert_eq!(app.processes[0].compressed, 20);
    assert_eq!(app.total_swap, 50);
    assert_eq!(app.total_phys, 120);
}

#[test]
fn update_with_unknown_pids_changes_nothing() {
    let mut app = App::new();
    app.add_process(proc_with(1, "a", 10, 3));
    app.total_swap = 999;
    let mut updates = HashMap::new();
    updates.insert(
        42,
        (FootprintData { pid: 42, name: String::from("z"), physical_footprint: 1, swapped_total: 1 }, 0u64),
    );
    app.update_processes(updates);
    assert_eq!(app.total_swap, 999);
    assert_eq!(app.processes[0].swap_disk, 3);
}

#[test]
fn normalize_to_system_sets_totals() {
    let mut app = App::new();
    app.add_process(proc_with(1, "WindowServer", 10, 300));
    app.add_process(proc_with(2, "A", 20, 100));
    app.add_process(proc_with(3, "B", 30, 300));
    app.set_system_swap(String::from("1000B"));
    assert_eq!(app.system_swap_bytes, 1000);
    app.normalize_swap_to_system();
    let mut by_pid: Vec<(i32, u64)> = app.processes.iter().map(|p| (p.pid, p.swap_disk)).collect();
    by_pid.sort();
    assert_eq!(by_pid, vec![(1, 300), (2, 175), (3, 525)]);
    assert_eq!(app.total_swap, 1000);
    assert_eq!(app.total_phys, 60);
}

#[test]
fn normalize_without_other_estimates_takes_system_total() {
    let mut app = App::new();
    app.add_process(proc_with(1, "WindowServer", 10, 30));
    app.add_process(proc_with(2, "A", 20, 0));
    app.set_system_swap(String::from("1K"));
    app.normalize_swap_to_system();
    assert_eq!(app.total_swap, 1024);
    assert_eq!(app.total_phys, 30);
}

#[test]
fn normalize_small_estimates_total_is_system() {
    let mut app = App::new();
    for pid in 1..=4 {
        app.add_process(proc_with(pid, "P", 10, 1));
    }
    app.set_system_swap(String::from("2B"));
    assert_eq!(app.system_swap_bytes, 2);
    app.normalize_swap_to_system();
    assert_eq!(app.total_swap, 2);
    assert_eq!(app.processes.iter().map(|p| p.swap_disk).sum::<u64>(), 2);
    assert_eq!(app.total_phys, 40);
}

#[test]
fn key_bindings() {
    assert_eq!(command_for(KeyInput::Char('q')), Command::Quit);
    assert_eq!(command_for(KeyInput::Esc), Command::Close);
    assert_eq!(command_for(KeyInput::Char('r')), Command::Refresh);
    assert_eq!(command_for(KeyInput::Char('R')), Command::RefreshSelected);
    assert_eq!(command_for(KeyInput::Enter), Command::OpenDetails);
    assert_eq!(command_for(KeyInput::Down), Command::Next);
    assert_eq!(command_for(KeyInput::Char('j')), Command::Next);
    assert_eq!(command_for(KeyInput::Up), Command::Previous);
    assert_eq!(command_for(KeyInput::Char('k')), Command::Previous);
    assert_eq!(command_for(KeyInput::Char('s')), Command::SortBy(SortColumn::Swap, true));
    assert_eq!(command_for(KeyInput::Char('p')), Command::SortBy(SortColumn::Physical, true));
    assert_eq!(command_for(KeyInput::Char('c')), Command::SortBy(SortColumn::Compressed, true));
    assert_eq!(command_for(KeyInput::Char('t')), Command::SortBy(SortColumn::Total, true));
    assert_eq!(command_for(KeyInput::Char('n')), Command::SortBy(SortColumn::Name, false));
    assert_eq!(command_for(KeyInput::Char('i')), Command::SortBy(SortColumn::Pid, false));
    assert_eq!(command_for(KeyInput::Char('x')), Command::Kill);
    assert_eq!(command_for(KeyInput::Char('Q')), Command::Ignore);
    assert_eq!(command_for(KeyInput::Other), Command::Ignore);
}

#[test]
fn quit_closes_details_first() {
    let mut app = App::new();
    app.detail_view_open = true;
    assert!(matches!(app.handle_key(KeyInput::Char('q')), KeyAction::Nothing));
    assert!(!app.detail_view_open);
    assert!(!app.should_quit);
    app.handle_key(KeyInput::Char('q'));
    assert!(app.should_quit);
}

#[test]
fn enter_opens_details_of_selected_row() {
    let mut app = App::new();
    app.add_process(proc_with(7, "seven", 1, 1));
    assert!(matches!(app.handle_key(KeyInput::Enter), KeyAction::Nothing));
    app.handle_key(KeyInput::Down);
    match app.handle_key(KeyInput::Enter) {
        KeyAction::FetchDetails(pid, name) => {
            assert_eq!(pid, 7);
            assert_eq!(name, "seven");
        }
        _ => panic!("details expected"),
    }
    assert!(app.detail_view_open);
    assert!(app.detail_subject.is_none());
    // Moving is ignored while details are open.
    app.handle_key(KeyInput::Up);
    assert_eq!(app.state.selected(), Some(0));
    // Refresh with no details yet does nothing.
    assert!(matches!(app.handle_key(KeyInput::Char('r')), KeyAction::Nothing));
    app.apply_event(ScanEvent::DetailResult(7, String::from("seven")));
    match app.handle_key(KeyInput::Char('r')) {
        KeyAction::FetchDetails(pid, _) => assert_eq!(pid, 7),
        _ => panic!("details expected"),
    }
    assert!(app.is_loading);
    app.handle_key(KeyInput::Esc);
    assert!(!app.detail_view_open);
}

#[test]
fn refresh_rescans_only_when_idle() {
    let mut app = App::new();
    app.add_process(proc_with(1, "a", 5, 5));
    match app.handle_key(KeyInput::Char('r')) {
        KeyAction::Rescan => {}
        _ => panic!("rescan expected"),
    }
    assert!(app.is_loading);
    assert!(app.processes.is_empty());
    assert_eq!(app.total_swap, 0);
    assert!(matches!(app.handle_key(KeyInput::Char('r')), KeyAction::Nothing));
}

#[test]
fn kill_and_single_refresh_name_the_selected_process() {
    let mut app = App::new();
    app.add_process(proc_with(9, "nine", 1, 1));
    assert!(matches!(app.handle_key(KeyInput::Char('x')), KeyAction::Nothing));
    app.handle_key(KeyInput::Char('j'));
    assert!(matches!(app.handle_key(KeyInput::Char('x')), KeyAction::Kill(9)));
    assert_eq!(app.kill_selected(), Some(9));
    match app.handle_key(KeyInput::Char('R')) {
        KeyAction::RefreshProcess(pid, name) => {
            assert_eq!(pid, 9);
            assert_eq!(name, "nine");
        }
        _ => panic!("refresh expected"),
    }
}

#[test]
fn sort_keys_reorder() {
    let mut app = App::new();
    app.add_process(proc_with(2, "b", 30, 1));
    app.add_process(proc_with(1, "a", 10, 9));
    assert_eq!(pids(&app), vec![1, 2]);
    app.handle_key(KeyInput::Char('p'));
    assert_eq!(pids(&app), vec![2, 1]);
    assert_eq!(app.sort_column, SortColumn::Physical);
    app.handle_key(KeyInput::Char('n'));
    assert_eq!(pids(&app), vec![1, 2]);
    assert!(!app.sort_desc);
    app.handle_key(KeyInput::Char('i'));
    assert_eq!(pids(&app), vec![1, 2]);
    app.handle_key(KeyInput::Char('t'));
    assert_eq!(pids(&app), vec![2, 1]);
}

#[test]
fn scan_messages_drive_progress() {
    let mut app = App::new();
    app.is_loading = true;
    app.apply_event(ScanEvent::Start(2));
    assert_eq!(app.scan_progress, Some((0, 2)));
    assert_eq!(app.status_message.as_deref(), Some("Quick scanning..."));
    app.apply_event(ScanEvent::Progress(1, String::from("a")));
    assert_eq!(app.scan_progress, Some((1, 2)));
    assert_eq!(app.current_scanning.as_deref(), Some("a"));
    app.apply_event(ScanEvent::Result(proc_with(1, "a", 10, 0)));
    app.apply_event(ScanEvent::Result(proc_with(2, "b", 20, 0)));
    assert_eq!(app.processes.len(), 2);
    app.apply_event(ScanEvent::DeepScanStart(2));
    assert!(!app.is_loading);
    assert_eq!(app.scan_progress, None);
    assert_eq!(app.deep_scan_progress, Some((0, 2)));
    assert_eq!(app.status_message.as_deref(), Some("Deep scanning 0/2..."));
    app.apply_event(ScanEvent::DeepScanProgress(2));
    assert_eq!(app.deep_scan_progress, Some((2, 2)));
    assert_eq!(app.status_message.as_deref(), Some("Deep scanning 2/2..."));
    app.apply_event(ScanEvent::Complete);
    assert_eq!(app.deep_scan_progress, None);
    assert_eq!(app.current_scanning, None);
    assert_eq!(app.status_message.as_deref(), Some("Scan complete"));
    assert_eq!(app.state.selected(), Some(0));
}

#[test]
fn progress_without_quick_scan_only_names_process() {
    let mut app = App::new();
    app.apply_event(ScanEvent::Progress(5, String::from("z")));
    assert_eq!(app.scan_progress, None);
    assert_eq!(app.current_scanning.as_deref(), Some("z"));
    app.apply_event(ScanEvent::DeepScanProgress(3));
    assert_eq!(app.deep_scan_progress, None);
    assert_eq!(app.status_message, None);
}

#[test]
fn single_result_replaces_first_match() {
    let mut app = App::new();
    app.add_process(proc_with(4, "four", 10, 2));
    app.add_process(proc_with(5, "five", 10, 1));
    app.apply_event(ScanEvent::SingleResult(proc_with(4, "four", 99, 2)));
    let p = app.processes.iter().find(|p| p.pid == 4).unwrap();
    assert_eq!(p.physical_footprint, 99);
    assert_eq!(app.total_phys, 109);
    assert_eq!(app.total_swap, 3);
    app.apply_event(ScanEvent::SingleResult(proc_with(6, "six", 1, 1)));
    assert_eq!(app.processes.len(), 2);
}

#[test]
fn sorting_twice_changes_nothing() {
    let mut app = App::new();
    for (i, name) in ["b", "a", "c", "a"].iter().enumerate() {
        app.add_process(proc_with(i as i32, name, (i as u64 % 2) * 10, 3));
    }
    for key in ['s', 'p', 'c', 't', 'n', 'i'] {
        app.handle_key(KeyInput::Char(key));
        let once = pids(&app);
        app.sort();
        assert_eq!(pids(&app), once);
    }
}

#[test]
fn batch_update_message_merges_figures() {
    let mut app = App::new();
    app.apply_event(ScanEvent::Result(proc_with(3, "c", 10, 0)));
    app.apply_event(ScanEvent::Result(proc_with(4, "d", 10, 0)));
    let mut updates = HashMap::new();
    updates.insert(
        4,
        (FootprintData { pid: 4, name: String::from("d"), physical_footprint: 50, swapped_total: 40 }, 15u64),
    );
    app.apply_event(ScanEvent::BatchUpdate(updates));
    assert_eq!(pids(&app), vec![4, 3]);
    assert_eq!(app.processes[0].swap_disk, 25);
    assert_eq!(app.total_swap, 25);
    assert_eq!(app.total_phys, 60);
}
