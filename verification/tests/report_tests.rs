use std::collections::HashMap;

use macmemana::cli::{
    apply_footprints, checked_swap_sum, footprint_updates, keep_nonempty, parse_swap_usage,
    prepare_report, report_header, report_row, report_rule, report_summary, sort_for_report,
    truncate,
};
use macmemana::footprint::FootprintData;
use macmemana::scanner::ProcessMemory;

fn proc_with(pid: i32, name: &str, phys: u64, swap: u64) -> ProcessMemory {
    let mut p = ProcessMemory::new_simple(pid, String::from(name), phys);
    p.swap_disk = swap;
    p.swap_disk_est = swap;
    p
}

fn fd(pid: i32, phys: u64, swapped: u64) -> FootprintData {
    FootprintData { pid, name: format!("p{}", pid), physical_footprint: phys, swapped_total: swapped }
}

#[test]
fn truncate_keeps_short_names() {
    assert_eq!(truncate("short", 30), "short");
    assert_eq!(truncate("exactly-ten", 11), "exactly-ten");
}

#[test]
fn truncate_cuts_long_names_to_width() {
    let long = "com.apple.WebKit.WebContent.Helper.Extra";
    let t = truncate(long, 30);
    assert_eq!(t, "com.apple.WebKit.WebContent...");
    assert_eq!(t.len(), 30);
}

#[test]
fn truncate_counts_bytes() {
    // "é" takes two bytes: 6 characters but 7 bytes.
    let t = truncate("éabcde", 6);
    assert_eq!(t, "éa...");
    assert_eq!(t.len(), 6);
}

#[test]
fn swap_usage_reads_the_used_figure() {
    let out = "vm.swapusage: total = 2048.00M  used = 1024.50M  free = 1023.50M  (encrypted)\n";
    assert_eq!(parse_swap_usage(out).as_deref(), Some("1024.50M"));
    assert_eq!(parse_swap_usage("nothing here"), None);
    assert_eq!(parse_swap_usage("used = "), None);
    assert_eq!(parse_swap_usage("used =    \n  7M rest"), Some(String::from("7M")));
    assert_eq!(parse_swap_usage("a used = used = 3M"), None);
}

#[test]
fn footprints_merge_into_matching_processes() {
    let mut ps = vec![proc_with(1, "a", 10, 0), proc_with(2, "b", 20, 0)];
    let mut fps = HashMap::new();
    fps.insert(2, fd(2, 200, 90));
    let mut compressed = HashMap::new();
    compressed.insert(2, 40u64);
    apply_footprints(&mut ps, &fps, &compressed);
    assert_eq!(ps[0].physical_footprint, 10);
    assert_eq!(ps[1].physical_footprint, 200);
    assert_eq!(ps[1].swap_disk, 50);
    fps.insert(1, fd(1, 5, 9));
    apply_footprints(&mut ps, &fps, &HashMap::new());
    assert_eq!(ps[0].swap_disk, 9);
    assert_eq!(ps[0].compressed, 0);
}

#[test]
fn batch_updates_hold_only_listed_pids() {
    let mut fps = HashMap::new();
    fps.insert(1, fd(1, 10, 5));
    fps.insert(2, fd(2, 20, 6));
    fps.insert(3, fd(3, 30, 7));
    let mut compressed = HashMap::new();
    compressed.insert(3, 2u64);
    let u = footprint_updates(&vec![3, 4, 1], &fps, &compressed);
    assert_eq!(u.len(), 2);
    assert_eq!(u[&3].0.physical_footprint, 30);
    assert_eq!(u[&3].1, 2);
    assert_eq!(u[&1].1, 0);
    assert!(!u.contains_key(&2));
}

#[test]
fn empty_processes_are_dropped() {
    let ps = vec![proc_with(1, "a", 0, 0), proc_with(2, "b", 1, 0), proc_with(3, "c", 0, 2)];
    let kept: Vec<i32> = keep_nonempty(ps).iter().map(|p| p.pid).collect();
    assert_eq!(kept, vec![2, 3]);
}

#[test]
fn swap_sum_detects_overflow() {
    assert_eq!(checked_swap_sum(&vec![proc_with(1, "a", 0, 5), proc_with(2, "b", 0, 6)]), Some(11));
    assert_eq!(checked_swap_sum(&vec![proc_with(1, "a", 0, u64::MAX), proc_with(2, "b", 0, 1)]), None);
    assert_eq!(checked_swap_sum(&vec![]), Some(0));
}

#[test]
fn report_order_follows_sort_option() {
    let ps = vec![proc_with(1, "a", 50, 1), proc_with(2, "b", 10, 9)];
    let by_phys: Vec<i32> = sort_for_report(&ps, "phys").iter().map(|p| p.pid).collect();
    assert_eq!(by_phys, vec![1, 2]);
    let by_swap: Vec<i32> = sort_for_report(&ps, "swap").iter().map(|p| p.pid).collect();
    assert_eq!(by_swap, vec![2, 1]);
    let other: Vec<i32> = sort_for_report(&ps, "PHYS").iter().map(|p| p.pid).collect();
    assert_eq!(other, vec![2, 1]);
}

#[test]
fn report_preparation_filters_normalizes_and_sorts() {
    let ps = vec![
        proc_with(1, "A", 100, 100),
        proc_with(2, "idle", 0, 0),
        proc_with(3, "B", 300, 300),
    ];
    let (r, system) = prepare_report(ps, "1K", "swap");
    assert_eq!(system, 1024);
    let rows: Vec<(i32, u64)> = r.iter().map(|p| (p.pid, p.swap_disk)).collect();
    assert_eq!(rows, vec![(3, 768), (1, 256)]);
}

#[test]
fn report_lines_are_laid_out_in_columns() {
    assert_eq!(
        report_header(),
        format!("{:<8} {:<30} {:<15} {:<15} {:<15}", "PID", "Name", "Physical", "Swap", "Total")
    );
    assert_eq!(report_rule(), "-".repeat(100));
    let p = proc_with(-12, "some process", 200 * 1024 * 1024, 1536);
    assert_eq!(
        report_row(&p),
        Some(format!(
            "{:<8} {:<30} {:<15} {:<15} {:<15}",
            -12, "some process", "200.0M", "1.5K", "200.0M"
        ))
    );
    let quiet = proc_with(1, "quiet", 1024, 0);
    assert_eq!(report_row(&quiet), None);
    assert_eq!(
        report_summary("1.00G", 1536, 512),
        "System Swap Used: 1.00G | Swap Sum: 1.5K | Delta: 1.0K"
    );
    assert_eq!(
        report_summary("0B", 0, 2048),
        "System Swap Used: 0B | Swap Sum: 0B | Delta: 2.0K"
    );
}
