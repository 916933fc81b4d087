use macmemana::footprint::FootprintData;
use macmemana::scanner::{parse_vmmap_output, ProcessMemory};
use macmemana::size::parse_size;
use regex::Regex;

#[test]
fn test_parse_vmmap_output() {
    let output = r#"
Virtual Memory Map of process 12345 (TestApp)
Output report format:  2.4  -- 64-bit process
...
Physical footprint:     8.12G
Compressed:            2.31G
Swap used:             1.23G
                                VIRTUAL RESIDENT    DIRTY  SWAPPED
TOTAL                              1.0G     1.0G     1.0G     5.84G
        "#;

    let mem = parse_vmmap_output(12345, "TestApp", output);
    assert_eq!(
        mem.physical_footprint,
        (8.12 * 1024.0 * 1024.0 * 1024.0) as u64
    );
    assert_eq!(mem.swapped_total, (5.84 * 1024.0 * 1024.0 * 1024.0) as u64);
    assert_eq!(mem.compressed, (2.31 * 1024.0 * 1024.0 * 1024.0) as u64);
    assert_eq!(mem.swap_disk_est, (1.23 * 1024.0 * 1024.0 * 1024.0) as u64);
}

#[test]
fn test_parse_vmmap_output_table_priority() {
    // Both the table and the writable-regions line are present: the table's
    // 1.9G wins over the writable 1.7G.
    let output = r#"
Process:         WindowServer [413]
Physical footprint:         3.0G
Writable regions: Total=3.0G written=127.6M(4%) resident=360.6M(12%) swapped_out=1.7G(57%)
                                VIRTUAL RESIDENT    DIRTY  SWAPPED VOLATILE   NONVOL    EMPTY   REGION 
REGION TYPE                        SIZE     SIZE     SIZE     SIZE     SIZE     SIZE     SIZE    COUNT (non-coalesced) 
===========                     ======= ========    =====  ======= ========   ======    =====  ======= 
TOTAL                              6.4G     1.1G     1.1G     1.9G       0K   257.5M   197.0M    63744 
        "#;

    let mem = parse_vmmap_output(413, "WindowServer", output);
    assert_eq!(
        mem.physical_footprint,
        (3.0 * 1024.0 * 1024.0 * 1024.0) as u64
    );
    assert_eq!(mem.swapped_total, (1.9 * 1024.0 * 1024.0 * 1024.0) as u64);
    assert_eq!(mem.swap_disk_est, (1.9 * 1024.0 * 1024.0 * 1024.0) as u64);
}

#[test]
fn test_parse_vmmap_output_phys_fallback() {
    // The table's SWAPPED is 0: swapped is physical footprint less resident.
    let output = r#"
Process:         TestApp [123]
Physical footprint:         3.0G
                                VIRTUAL RESIDENT    DIRTY  SWAPPED
TOTAL                              6.4G     1.0G     1.0G     0K
        "#;
    let mem = parse_vmmap_output(123, "TestApp", output);
    assert_eq!(mem.swapped_total, (2.0 * 1024.0 * 1024.0 * 1024.0) as u64);
    assert_eq!(mem.swap_disk_est, (2.0 * 1024.0 * 1024.0 * 1024.0) as u64);
}

#[test]
fn test_parse_vmmap_output_writable_fallback() {
    // No compressed or swap summary and no table, but a writable-regions line.
    let output = r#"
Process:         JetBrains Toolbox [18084]
Physical footprint:         591.1M
Writable regions: Total=803.6M written=512.8M(64%) resident=371.0M(46%) swapped_out=213.9M(27%)
        "#;
    let mem = parse_vmmap_output(18084, "JetBrains Toolbox", output);
    assert_eq!(mem.physical_footprint, (591.1 * 1024.0 * 1024.0) as u64);
    assert_eq!(mem.swapped_total, (213.9 * 1024.0 * 1024.0) as u64);
    assert_eq!(mem.swap_disk_est, (213.9 * 1024.0 * 1024.0) as u64);
}

#[test]
fn test_parse_vmmap_output_disk_swap_est_from_swapped_minus_compressed() {
    let output = r#"
Process:         WindowServer [413]
Physical footprint:         3.9G
Compressed:               900M
                                VIRTUAL RESIDENT    DIRTY  SWAPPED
TOTAL                              6.2G     1.2G     1.3G     2.7G
        "#;
    let mem = parse_vmmap_output(413, "WindowServer", output);
    assert_eq!(mem.swapped_total, (2.7 * 1024.0 * 1024.0 * 1024.0) as u64);
    let expected = parse_size("2.7G").saturating_sub(parse_size("900M"));
    assert_eq!(mem.swap_disk_est, expected);
}

#[test]
fn vmmap_empty_output_gives_zeros() {
    let mem = parse_vmmap_output(7, "idle", "");
    assert_eq!(mem.pid, 7);
    assert_eq!(mem.name, "idle");
    assert_eq!(mem.physical_footprint, 0);
    assert_eq!(mem.compressed, 0);
    assert_eq!(mem.swapped_total, 0);
    assert_eq!(mem.swap_disk_est, 0);
    assert_eq!(mem.swap_disk, 0);
}

#[test]
fn vmmap_swap_used_alone_is_the_estimate() {
    let output = "Physical footprint: 10M\nSwap used: 3M\n";
    let mem = parse_vmmap_output(1, "a", output);
    assert_eq!(mem.swapped_total, 0);
    assert_eq!(mem.swap_disk_est, 3 * 1024 * 1024);
    assert_eq!(mem.swap_disk, 3 * 1024 * 1024);
}

#[test]
fn vmmap_swap_used_caps_the_estimate() {
    let output = "Physical footprint: 10M\nCompressed: 1M\nSwap used: 2M\n\
                  VIRTUAL RESIDENT DIRTY SWAPPED\nTOTAL 1M 1M 1M 8M\n";
    let mem = parse_vmmap_output(1, "a", output);
    assert_eq!(mem.swapped_total, 8 * 1024 * 1024);
    assert_eq!(mem.swap_disk_est, 2 * 1024 * 1024);
}

#[test]
fn vmmap_compressed_above_swapped_gives_no_disk_swap() {
    let output = "Compressed: 9M\nVIRTUAL RESIDENT DIRTY SWAPPED\nTOTAL 1M 1M 1M 8M\n";
    let mem = parse_vmmap_output(1, "a", output);
    assert_eq!(mem.swapped_total, 8 * 1024 * 1024);
    assert_eq!(mem.swap_disk_est, 0);
}

#[test]
fn vmmap_minus_reserved_row_wins_over_total_row() {
    let output = "REGION TYPE SIZE\n\
                  TOTAL 9G 9G 9G 9G\n\
                  TOTAL, minus reserved VM space 5G 2G 2G 1G\n";
    let mem = parse_vmmap_output(1, "a", output);
    assert_eq!(mem.swapped_total, 1024 * 1024 * 1024);
}

#[test]
fn vmmap_total_row_outside_a_table_is_ignored() {
    let output = "Physical footprint: 4G\nTOTAL 9G 1G 9G 3G\n";
    let mem = parse_vmmap_output(1, "a", output);
    assert_eq!(mem.swapped_total, 0);
    assert_eq!(mem.swap_disk_est, 0);
}

#[test]
fn vmmap_malloc_header_opens_no_table() {
    let output = "VIRTUAL RESIDENT SWAPPED MALLOC\nTOTAL 9G 1G 9G 3G\n";
    let mem = parse_vmmap_output(1, "a", output);
    assert_eq!(mem.swapped_total, 0);
}

#[test]
fn vmmap_later_summary_line_wins() {
    let output = "Physical footprint: 1M\nPhysical footprint: 2M\n";
    let mem = parse_vmmap_output(1, "a", output);
    assert_eq!(mem.physical_footprint, 2 * 1024 * 1024);
}

#[test]
fn new_simple_takes_resident_size_as_footprint() {
    let p = ProcessMemory::new_simple(42, String::from("proc"), 4096);
    assert_eq!(p.pid, 42);
    assert_eq!(p.name, "proc");
    assert_eq!(p.physical_footprint, 4096);
    assert_eq!(p.compressed, 0);
    assert_eq!(p.swapped_total, 0);
    assert_eq!(p.swap_disk_est, 0);
    assert_eq!(p.swap_disk, 0);
    assert_eq!(p.total(), 4096);
}

#[test]
fn merge_footprint_computes_disk_estimate() {
    let mut p = ProcessMemory::new_simple(42, String::from("proc"), 4096);
    let fd = FootprintData {
        pid: 42,
        name: String::from("proc"),
        physical_footprint: 1000,
        swapped_total: 700,
    };
    p.merge_footprint(&fd, 200);
    assert_eq!(p.physical_footprint, 1000);
    assert_eq!(p.swapped_total, 700);
    assert_eq!(p.compressed, 200);
    assert_eq!(p.swap_disk_est, 500);
    assert_eq!(p.swap_disk, 500);
    assert_eq!(p.total(), 1500);
    p.merge_footprint(&fd, 900);
    assert_eq!(p.swap_disk_est, 0);
    assert_eq!(p.swap_disk, 0);
}

/// The same report read with regular expressions for the report lines.
fn regex_reading(output: &str) -> (u64, u64, u64, u64) {
    let re_physical = Regex::new(r"Physical footprint:\s+([\d\.]+)([KMG]?)").unwrap();
    let re_compressed = Regex::new(r"Compressed:\s+([\d\.]+)([KMG]?)").unwrap();
    let re_swap_used = Regex::new(r"Swap used:\s+([\d\.]+)([KMG]?)").unwrap();
    let re_writable = Regex::new(r"Writable regions:.*swapped_out=([\d\.]+)([KMG]?)").unwrap();
    let re_total = Regex::new(r"^TOTAL\s+(\S+)\s+(\S+)\s+(\S+)\s+(\S+)").unwrap();
    let re_minus = Regex::new(
        r"^TOTAL,\s+minus\s+reserved\s+VM\s+space\s+(\S+)\s+(\S+)\s+(\S+)\s+(\S+)",
    )
    .unwrap();
    let (mut phys, mut compressed, mut swap_used, mut resident, mut swap_table, mut writable) =
        (0u64, 0u64, 0u64, 0u64, 0u64, 0u64);
    let mut found = false;
    let mut in_table = false;
    for line in output.lines() {
        let line = line.trim();
        if let Some(c) = re_physical.captures(line) {
            phys = parse_size(&format!("{}{}", &c[1], &c[2]));
        }
        if let Some(c) = re_compressed.captures(line) {
            compressed = parse_size(&format!("{}{}", &c[1], &c[2]));
        }
        if let Some(c) = re_swap_used.captures(line) {
            swap_used = parse_size(&format!("{}{}", &c[1], &c[2]));
        }
        if let Some(c) = re_writable.captures(line) {
            writable = parse_size(&format!("{}{}", &c[1], &c[2]));
        }
        if line.starts_with("REGION TYPE") {
            in_table = true;
        }
        if !in_table
            && line.contains("VIRTUAL")
            && line.contains("RESIDENT")
            && line.contains("SWAPPED")
            && !line.contains("MALLOC")
        {
            in_table = true;
        }
        if in_table {
            if let Some(c) = re_minus.captures(line) {
                resident = parse_size(&c[2]);
                swap_table = parse_size(&c[4]);
                found = true;
                continue;
            }
            if !found {
                if let Some(c) = re_total.captures(line) {
                    resident = parse_size(&c[2]);
                    swap_table = parse_size(&c[4]);
                    found = true;
                }
            }
        }
    }
    let swapped = if swap_table > 0 {
        swap_table
    } else if writable > 0 {
        writable
    } else if phys > 0 && resident > 0 {
        phys.saturating_sub(resident)
    } else {
        0
    };
    let disk = swapped.saturating_sub(compressed);
    let est = if swapped > 0 {
        if swap_used > 0 {
            disk.min(swap_used)
        } else {
            disk
        }
    } else {
        swap_used
    };
    (phys, compressed, swapped, est)
}

#[test]
fn vmmap_reading_agrees_with_pattern_reading() {
    let pieces = [
        "Physical footprint:     8.12G",
        "Physical footprint:3G",
        "Physical footprint: \t 12.5.3M",
        "  Physical footprint:   700K  ",
        "Physical footprint (peak):  9G",
        "Compressed:            2.31G",
        "Compressed: 5",
        "Compressed:  1.2.3",
        "Swap used:             1.23G",
        "Swap used: 0K",
        "Writable regions: Total=803.6M written=512.8M(64%) resident=371.0M(46%) swapped_out=213.9M(27%)",
        "Writable regions: swapped_out=1G swapped_out=2G",
        "Writable regions: Total=1G",
        "REGION TYPE                        SIZE     SIZE",
        "                                VIRTUAL RESIDENT    DIRTY  SWAPPED",
        "VIRTUAL RESIDENT SWAPPED MALLOC",
        "TOTAL                              1.0G     1.0G     1.0G     5.84G",
        "TOTAL 6.4G 1.1G 1.1G 1.9G 0K 257.5M",
        "TOTAL 1G 2G 3G",
        "TOTAL, minus reserved VM space 5G 2G 2G 1G",
        "TOTAL, minus reserved VM space  5G",
        "TOTALS 1G 1G 1G 1G",
        "",
        "   ",
        "Physical footprint:\u{00a0}4M",
        "Compressed:\u{3000}7M",
        "Swap used: \u{0663}M",
        "Physical footprint: \u{0661}\u{0662}K",
    ];
    let mut seed: u64 = 0x9e37_79b9_7f4a_7c15;
    for round in 0..400 {
        let mut text = String::new();
        let count = 1 + (round % 7);
        for _ in 0..count {
            seed ^= seed << 13;
            seed ^= seed >> 7;
            seed ^= seed << 17;
            let piece = pieces[(seed % pieces.len() as u64) as usize];
            text.push_str(piece);
            text.push('\n');
        }
        let mem = parse_vmmap_output(9, "x", &text);
        let (phys, compressed, swapped, est) = regex_reading(&text);
        assert_eq!(mem.physical_footprint, phys, "physical footprint of {:?}", text);
        assert_eq!(mem.compressed, compressed, "compressed of {:?}", text);
        assert_eq!(mem.swapped_total, swapped, "swapped of {:?}", text);
        assert_eq!(mem.swap_disk_est, est, "estimate of {:?}", text);
        assert_eq!(mem.swap_disk, est, "shown swap of {:?}", text);
    }
}
