use macmemana::footprint::{
    footprint_data_by_pid, FootprintAuxiliary, FootprintOutput, FootprintProcess, FootprintSummary,
    FootprintTotal,
};
use macmemana::top::parse_top_output;

#[test]
fn top_lines_give_compressed_sizes_by_pid() {
    let output = "Processes: 512 total\n\
                  PID    CMPRS\n\
                  413    900M\n\
                  1      12K\n\
                  77     0B\n";
    let map = parse_top_output(output);
    assert_eq!(map.len(), 3);
    assert_eq!(map[&413], 900 * 1024 * 1024);
    assert_eq!(map[&1], 12 * 1024);
    assert_eq!(map[&77], 0);
}

#[test]
fn top_later_line_for_a_pid_wins() {
    let map = parse_top_output("5 1M\n5 2M\r\n");
    assert_eq!(map.len(), 1);
    assert_eq!(map[&5], 2 * 1024 * 1024);
}

#[test]
fn top_skips_lines_without_a_pid() {
    let map = parse_top_output("abc 1M\n12\n\n  \n-3 4K extra\n+8 1.5K\n99999999999 1K\n");
    assert_eq!(map.len(), 2);
    assert_eq!(map[&-3], 4 * 1024);
    assert_eq!(map[&8], 1536);
}

#[test]
fn top_unreadable_size_is_zero() {
    let map = parse_top_output("10 12M+\n11 garbage\n");
    assert_eq!(map[&10], 0);
    assert_eq!(map[&11], 0);
}

fn process(pid: i32, name: &str, footprint: u64, aux: Option<u64>, swapped: Option<u64>) -> FootprintProcess {
    FootprintProcess {
        pid,
        name: String::from(name),
        footprint,
        auxiliary: aux.map(|phys_footprint| FootprintAuxiliary { phys_footprint }),
        summary: Some(FootprintSummary { total: swapped.map(|swapped| FootprintTotal { swapped }) }),
    }
}

#[test]
fn footprint_figures_prefer_auxiliary_footprint() {
    let out = FootprintOutput {
        processes: vec![
            process(1, "a", 100, Some(150), Some(30)),
            process(2, "b", 200, None, None),
            FootprintProcess { pid: 3, name: String::from("c"), footprint: 5, auxiliary: None, summary: None },
        ],
    };
    let map = footprint_data_by_pid(out);
    assert_eq!(map.len(), 3);
    assert_eq!(map[&1].physical_footprint, 150);
    assert_eq!(map[&1].swapped_total, 30);
    assert_eq!(map[&1].name, "a");
    assert_eq!(map[&2].physical_footprint, 200);
    assert_eq!(map[&2].swapped_total, 0);
    assert_eq!(map[&3].physical_footprint, 5);
    assert_eq!(map[&3].swapped_total, 0);
}

#[test]
fn footprint_later_process_with_same_pid_wins() {
    let out = FootprintOutput {
        processes: vec![process(1, "a", 100, None, Some(1)), process(1, "b", 300, None, Some(2))],
    };
    let map = footprint_data_by_pid(out);
    assert_eq!(map.len(), 1);
    assert_eq!(map[&1].name, "b");
    assert_eq!(map[&1].physical_footprint, 300);
    assert_eq!(map[&1].swapped_total, 2);
}
