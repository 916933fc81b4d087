use macmemana::normalize::{has_other_estimate, normalize_process_swaps};
use macmemana::scanner::ProcessMemory;

fn with_estimate(pid: i32, name: &str, est: u64) -> ProcessMemory {
    let mut p = ProcessMemory::new_simple(pid, String::from(name), 1000);
    p.swap_disk_est = est;
    p.swap_disk = est;
    p
}

fn shown(ps: &[ProcessMemory]) -> Vec<u64> {
    ps.iter().map(|p| p.swap_disk).collect()
}

#[test]
fn normalize_scales_others_to_the_remainder() {
    let mut ps = vec![
        with_estimate(1, "WindowServer", 300),
        with_estimate(2, "A", 100),
        with_estimate(3, "B", 300),
    ];
    normalize_process_swaps(&mut ps, 1000);
    assert_eq!(shown(&ps), vec![300, 175, 525]);
    assert_eq!(ps.iter().map(|p| p.swap_disk).sum::<u64>(), 1000);
}

#[test]
fn normalize_with_zero_system_changes_nothing() {
    let mut ps = vec![with_estimate(1, "A", 7), with_estimate(2, "B", 9)];
    ps[0].swap_disk = 123;
    normalize_process_swaps(&mut ps, 0);
    assert_eq!(shown(&ps), vec![123, 9]);
}

#[test]
fn normalize_empty_list_is_fine() {
    let mut ps: Vec<ProcessMemory> = Vec::new();
    normalize_process_swaps(&mut ps, 100);
    assert!(ps.is_empty());
}

#[test]
fn normalize_caps_window_server_and_clears_others_without_estimate() {
    let mut ps = vec![
        with_estimate(1, "A", 0),
        with_estimate(2, "com.apple.WindowServer", 5000),
        with_estimate(3, "B", 0),
    ];
    ps[0].swap_disk = 55;
    normalize_process_swaps(&mut ps, 1000);
    assert_eq!(shown(&ps), vec![0, 1000, 0]);
}

#[test]
fn normalize_gives_rounding_rest_to_largest_other() {
    let mut ps = vec![with_estimate(1, "A", 1), with_estimate(2, "B", 1), with_estimate(3, "C", 1)];
    normalize_process_swaps(&mut ps, 10);
    assert_eq!(shown(&ps), vec![4, 3, 3]);
}

#[test]
fn normalize_excess_is_taken_from_next_largest() {
    let mut ps: Vec<ProcessMemory> = (0..10).map(|i| with_estimate(i, "P", 1)).collect();
    normalize_process_swaps(&mut ps, 5);
    assert_eq!(shown(&ps), vec![0, 0, 0, 0, 0, 1, 1, 1, 1, 1]);
    assert_eq!(shown(&ps).iter().sum::<u64>(), 5);
}

#[test]
fn normalize_four_small_estimates_add_up_to_system() {
    let mut ps: Vec<ProcessMemory> = (0..4).map(|i| with_estimate(i, "P", 1)).collect();
    normalize_process_swaps(&mut ps, 2);
    assert_eq!(shown(&ps), vec![0, 0, 1, 1]);
    assert_eq!(shown(&ps).iter().sum::<u64>(), 2);
}

#[test]
fn normalize_excess_never_touches_window_server() {
    let mut ps = vec![
        with_estimate(1, "WindowServer", 2),
        with_estimate(2, "A", 1),
        with_estimate(3, "B", 1),
        with_estimate(4, "C", 1),
        with_estimate(5, "D", 1),
    ];
    normalize_process_swaps(&mut ps, 4);
    assert_eq!(shown(&ps), vec![2, 0, 0, 1, 1]);
}

#[test]
fn normalize_only_first_window_server_is_special() {
    let mut ps = vec![
        with_estimate(1, "WindowServer", 100),
        with_estimate(2, "WindowServer", 100),
    ];
    normalize_process_swaps(&mut ps, 150);
    assert_eq!(shown(&ps), vec![100, 50]);
}

#[test]
fn normalize_twice_is_normalize_once() {
    let mut ps = vec![
        with_estimate(1, "WindowServer", 300),
        with_estimate(2, "A", 101),
        with_estimate(3, "B", 333),
        with_estimate(4, "C", 7),
    ];
    normalize_process_swaps(&mut ps, 997);
    let once = shown(&ps);
    normalize_process_swaps(&mut ps, 997);
    assert_eq!(shown(&ps), once);
    assert_eq!(once.iter().sum::<u64>(), 997);
}

#[test]
fn normalize_keeps_other_fields() {
    let mut ps = vec![with_estimate(1, "A", 10), with_estimate(2, "B", 30)];
    ps[1].compressed = 77;
    ps[1].swapped_total = 88;
    normalize_process_swaps(&mut ps, 8);
    assert_eq!(ps[0].pid, 1);
    assert_eq!(ps[1].name, "B");
    assert_eq!(ps[1].compressed, 77);
    assert_eq!(ps[1].swapped_total, 88);
    assert_eq!(ps[1].swap_disk_est, 30);
    assert_eq!(ps[1].physical_footprint, 1000);
    assert_eq!(shown(&ps), vec![2, 6]);
}

#[test]
fn other_estimates_ignore_window_server() {
    assert!(!has_other_estimate(&[with_estimate(1, "WindowServer", 5), with_estimate(2, "A", 0)]));
    assert!(has_other_estimate(&[with_estimate(1, "WindowServer", 5), with_estimate(2, "A", 1)]));
    assert!(!has_other_estimate(&[]));
}

/// The scaling written directly in floating point.
fn float_normalize(processes: &mut [ProcessMemory], system_swap_bytes: u64) {
    if system_swap_bytes == 0 || processes.is_empty() {
        return;
    }
    let ws = processes.iter().position(|p| p.name.contains("WindowServer"));
    let ws_display = match ws {
        Some(i) => {
            let d = processes[i].swap_disk_est.min(system_swap_bytes);
            processes[i].swap_disk = d;
            d
        }
        None => 0,
    };
    let remaining = system_swap_bytes.saturating_sub(ws_display);
    let mut sum_other: u64 = 0;
    for (i, p) in processes.iter().enumerate() {
        if Some(i) != ws {
            sum_other = sum_other.saturating_add(p.swap_disk_est);
        }
    }
    if sum_other == 0 {
        for (i, p) in processes.iter_mut().enumerate() {
            if Some(i) != ws {
                p.swap_disk = 0;
            }
        }
        return;
    }
    let factor = remaining as f64 / sum_other as f64;
    let mut sum_scaled: u64 = 0;
    let mut best = None;
    let mut best_est = 0;
    for (i, p) in processes.iter_mut().enumerate() {
        if Some(i) == ws {
            continue;
        }
        if p.swap_disk_est > best_est {
            best_est = p.swap_disk_est;
            best = Some(i);
        }
        let scaled = ((p.swap_disk_est as f64) * factor).round() as u64;
        p.swap_disk = scaled;
        sum_scaled = sum_scaled.saturating_add(scaled);
    }
    let current = ws_display.saturating_add(sum_scaled);
    if current != system_swap_bytes {
        let diff = system_swap_bytes as i128 - current as i128;
        if let Some(i) = best.or(ws) {
            if diff < 0 {
                let excess = (-diff) as u64;
                let v = processes[i].swap_disk;
                processes[i].swap_disk = v.saturating_sub(excess);
                let mut left = excess.saturating_sub(v);
                while left > 0 {
                    let mut pick: Option<usize> = None;
                    for (k, p) in processes.iter().enumerate() {
                        if Some(k) == ws || p.swap_disk == 0 {
                            continue;
                        }
                        if pick.map_or(true, |j| p.swap_disk > processes[j].swap_disk) {
                            pick = Some(k);
                        }
                    }
                    match pick {
                        Some(k) => {
                            let t = processes[k].swap_disk.min(left);
                            processes[k].swap_disk -= t;
                            left -= t;
                        }
                        None => break,
                    }
                }
            } else {
                processes[i].swap_disk = processes[i].swap_disk.saturating_add(diff as u64);
            }
        }
    }
}

#[test]
fn normalize_agrees_with_float_scaling() {
    let mut seed: u64 = 0x2545_f491_4f6c_dd1d;
    let mut next = move || {
        seed ^= seed << 13;
        seed ^= seed >> 7;
        seed ^= seed << 17;
        seed
    };
    let names = ["WindowServer", "kernel_task", "Safari", "WindowServerHelper", "Xcode"];
    for round in 0..3000 {
        let n = (next() % 8) as usize;
        let scale = match round % 5 {
            0 => 10,
            1 => 1 << 20,
            2 => 1 << 34,
            3 => 1 << 62,
            _ => u64::MAX,
        };
        let mut ps: Vec<ProcessMemory> = (0..n)
            .map(|i| {
                let est = next() % scale;
                let mut p = ProcessMemory::new_simple(
                    i as i32,
                    String::from(names[(next() % 5) as usize]),
                    next() % 1000,
                );
                p.swap_disk_est = if next() % 4 == 0 { 0 } else { est };
                p.swap_disk = next() % 100;
                p
            })
            .collect();
        let system = if next() % 10 == 0 { 0 } else { next() % scale };
        let mut expected = ps.clone();
        float_normalize(&mut expected, system);
        normalize_process_swaps(&mut ps, system);
        assert_eq!(shown(&ps), shown(&expected), "system {} estimates {:?}", system,
            expected.iter().map(|p| p.swap_disk_est).collect::<Vec<_>>());
    }
}

#[test]
fn normalize_matches_float_on_ties() {
    for total in 1u64..60 {
        for remaining in 0u64..60 {
            for est in 0..=total {
                let mut ps = vec![with_estimate(1, "A", est), with_estimate(2, "B", total - est)];
                let mut expected = ps.clone();
                float_normalize(&mut expected, remaining);
                normalize_process_swaps(&mut ps, remaining);
                assert_eq!(shown(&ps), shown(&expected), "{} {} {}", total, remaining, est);
            }
        }
    }
}
