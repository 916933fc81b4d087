use std::collections::HashMap;

use macmemana::events::ScanEvent;
use macmemana::footprint::FootprintData;
use macmemana::scan::{deep_scan_step, pid_batches, quick_scan_events};
use macmemana::view::{
    deep_analysis_label, gauge_percent, spinner_frame, spinner_line, table_row_cells,
};
use macmemana::app::App;
use macmemana::scanner::ProcessMemory;

#[test]
fn batches_cut_like_chunks() {
    let pids: Vec<i32> = (1..=7).collect();
    let b = pid_batches(&pids, 3);
    assert_eq!(b, vec![vec![1, 2, 3], vec![4, 5, 6], vec![7]]);
    let flat: Vec<i32> = b.concat();
    assert_eq!(flat, pids);
    assert_eq!(pid_batches(&vec![], 30), Vec::<Vec<i32>>::new());
    let expected: Vec<Vec<i32>> = pids.chunks(2).map(|c| c.to_vec()).collect();
    assert_eq!(pid_batches(&pids, 2), expected);
    assert_eq!(pid_batches(&pids, 50), vec![pids.clone()]);
}

#[test]
fn quick_scan_announces_each_process() {
    let entries = vec![(5, String::from("five"), 500u64), (6, String::from("six"), 600u64)];
    let ev = quick_scan_events(entries);
    assert_eq!(ev.len(), 6);
    assert!(matches!(ev[0], ScanEvent::Start(2)));
    match &ev[1] {
        ScanEvent::Progress(1, name) => assert_eq!(name, "five"),
        _ => panic!("progress expected"),
    }
    match &ev[2] {
        ScanEvent::Result(p) => {
            assert_eq!(p.pid, 5);
            assert_eq!(p.physical_footprint, 500);
            assert_eq!(p.swap_disk, 0);
        }
        _ => panic!("result expected"),
    }
    assert!(matches!(ev[3], ScanEvent::Progress(2, _)));
    assert!(matches!(ev[5], ScanEvent::DeepScanStart(2)));
}

#[test]
fn deep_step_sends_update_only_when_figures_exist() {
    let mut fps = HashMap::new();
    fps.insert(2, FootprintData { pid: 2, name: String::from("b"), physical_footprint: 9, swapped_total: 4 });
    let compressed = HashMap::new();
    let (ev, n) = deep_scan_step(&vec![1, 2], Some(fps.clone()), &compressed, 30);
    assert_eq!(n, 32);
    assert_eq!(ev.len(), 2);
    match &ev[0] {
        ScanEvent::BatchUpdate(u) => {
            assert_eq!(u.len(), 1);
            assert_eq!(u[&2].0.physical_footprint, 9);
            assert_eq!(u[&2].1, 0);
        }
        _ => panic!("update expected"),
    }
    assert!(matches!(ev[1], ScanEvent::DeepScanProgress(32)));
    let (ev, n) = deep_scan_step(&vec![7, 8, 9], Some(fps), &compressed, 0);
    assert_eq!(n, 3);
    assert_eq!(ev.len(), 1);
    let (ev, _) = deep_scan_step(&vec![2], None, &compressed, 1);
    assert_eq!(ev.len(), 1);
    assert!(matches!(ev[0], ScanEvent::DeepScanProgress(2)));
}

#[test]
fn spinner_frames_cycle() {
    let frames = ["⠋", "⠙", "⠹", "⠸", "⠼", "⠴", "⠦", "⠧", "⠇", "⠏"];
    for i in 0..25usize {
        assert_eq!(spinner_frame(i).to_string(), frames[i % 10]);
    }
    assert_eq!(spinner_line(3, "Scanning..."), "⠸ Scanning...");
    assert_eq!(deep_analysis_label(11, 42), "⠙ Deep Analysis: 42%");
}

#[test]
fn row_cells_show_sizes() {
    let mut p = ProcessMemory::new_simple(77, String::from("name"), 2048);
    p.compressed = 1024 * 1024;
    p.swap_disk = 5;
    let cells = table_row_cells(&p);
    assert_eq!(cells, vec!["77", "name", "2.0K", "1.0M", "5B", "2.0K"]);
}

#[test]
fn quick_scan_label_prefers_status() {
    let mut app = App::new();
    assert_eq!(app.quick_scan_label(), None);
    app.scan_progress = Some((3, 10));
    assert_eq!(app.quick_scan_label().as_deref(), Some("Scanning 3/10"));
    app.status_message = Some(String::from("Quick scanning..."));
    assert_eq!(app.quick_scan_label().as_deref(), Some("Quick scanning..."));
}

#[test]
fn gauge_percent_agrees_with_float() {
    for total in 0..300usize {
        for current in 0..=(total + 3) {
            let expected = if total > 0 {
                ((current as f64 / total as f64) * 100.0) as u16
            } else {
                0
            };
            assert_eq!(gauge_percent(current, total), expected, "{}/{}", current, total);
        }
    }
    assert_eq!(gauge_percent(29, 100), ((29.0f64 / 100.0) * 100.0) as u16);
    assert_eq!(gauge_percent(usize::MAX, 1), u16::MAX);
    assert_eq!(gauge_percent(1, usize::MAX), 0);
}
