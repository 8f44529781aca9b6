use nv_swaptop::swap::{aggregate_processes, sort_by_swap_desc, top_swap_processes};
use nv_swaptop::types::ProcessSwapInfo;

fn rec(pid: u32, name: &str, kb: u64) -> ProcessSwapInfo {
    ProcessSwapInfo { pid, name: name.into(), swap_kb: kb, last_cpu: Some(0) }
}

#[test]
fn test_aggregate_empty() {
    let result = aggregate_processes(vec![]);
    assert!(result.is_empty());
}

#[test]
fn test_aggregate_dedup() {
    let procs = vec![rec(1, "firefox", 100), rec(2, "firefox", 200)];
    let result = aggregate_processes(procs);
    assert_eq!(result.len(), 1);
    assert_eq!(result[0].name, "firefox");
    assert_eq!(result[0].swap_kb, 300);
    assert_eq!(result[0].pid, 2);
}

#[test]
fn test_aggregate_sorted() {
    let procs = vec![rec(1, "small", 10), rec(2, "big", 500), rec(3, "medium", 100)];
    let result = aggregate_processes(procs);
    assert_eq!(result[0].name, "big");
    assert_eq!(result[1].name, "medium");
    assert_eq!(result[2].name, "small");
}

#[test]
fn aggregate_ties_in_first_seen_order_and_saturates() {
    let procs = vec![
        rec(1, "b", 5),
        rec(2, "a", u64::MAX),
        rec(3, "c", 5),
        rec(4, "a", 1),
    ];
    let result = aggregate_processes(procs);
    let names: Vec<&str> = result.iter().map(|r| r.name.as_str()).collect();
    assert_eq!(names, vec!["a", "b", "c"]);
    assert_eq!(result[0].swap_kb, u64::MAX);
    assert_eq!(result[0].pid, 2);
    assert_eq!(result[0].last_cpu, None);
}

#[test]
fn sort_by_swap_keeps_ties() {
    let r = sort_by_swap_desc(vec![rec(1, "x", 3), rec(2, "y", 7), rec(3, "z", 3)]);
    let pids: Vec<u32> = r.iter().map(|x| x.pid).collect();
    assert_eq!(pids, vec![2, 1, 3]);
}

#[test]
fn top_swap_takes_largest() {
    let r = top_swap_processes(vec![rec(1, "x", 3), rec(2, "y", 7), rec(3, "z", 5)], 2);
    let pids: Vec<u32> = r.iter().map(|x| x.pid).collect();
    assert_eq!(pids, vec![2, 3]);
    let all = top_swap_processes(vec![rec(1, "x", 3)], 20);
    assert_eq!(all.len(), 1);
}
