use std::collections::HashMap;

use nv_swaptop::merge::{dominant_node, merge_process_data};
use nv_swaptop::rank::{sort_unified_procs, SortColumn};
use nv_swaptop::types::{
    GpuProcessInfo, NumaNode, NumaNodeType, ProcessLocation, ProcessNumaInfo, ProcessSwapInfo,
    UnifiedProcessInfo,
};

fn swap(pid: u32, name: &str, kb: u64) -> ProcessSwapInfo {
    ProcessSwapInfo { pid, name: name.into(), swap_kb: kb, last_cpu: None }
}

fn gpu(pid: u32, name: &str, index: u32, kb: u64) -> GpuProcessInfo {
    GpuProcessInfo { pid, name: name.into(), gpu_index: index, gpu_memory_used_kb: kb }
}

fn unified(pid: u32, name: &str, swap_kb: u64, node: Option<u32>, gpu_kb: Option<u64>) -> UnifiedProcessInfo {
    UnifiedProcessInfo {
        pid,
        name: name.into(),
        swap_kb,
        numa_node: node,
        gpu_memory_kb: gpu_kb,
        gpu_index: None,
        location: ProcessLocation::CpuOnly,
    }
}

#[test]
fn test_merge_same_pid() {
    let swap = vec![swap(100, "train", 1024)];
    let gpu = vec![gpu(100, "train", 0, 4096)];
    let result = merge_process_data(&swap, &gpu, &[], &[]);
    assert_eq!(result.len(), 1);
    assert_eq!(result[0].location, ProcessLocation::CpuAndGpu);
    assert_eq!(result[0].swap_kb, 1024);
    assert_eq!(result[0].gpu_memory_kb, Some(4096));
}

#[test]
fn test_cpu_only_process() {
    let swap = vec![swap(100, "bash", 512)];
    let gpu: Vec<GpuProcessInfo> = vec![];
    let result = merge_process_data(&swap, &gpu, &[], &[]);
    assert_eq!(result.len(), 1);
    assert_eq!(result[0].location, ProcessLocation::CpuOnly);
}

#[test]
fn test_gpu_only_process() {
    let swap: Vec<ProcessSwapInfo> = vec![];
    let gpu = vec![gpu(200, "cuda_app", 0, 8192)];
    let result = merge_process_data(&swap, &gpu, &[], &[]);
    assert_eq!(result.len(), 1);
    assert_eq!(result[0].location, ProcessLocation::GpuOnly);
    assert_eq!(result[0].swap_kb, 0);
}

#[test]
fn test_unified_sorting() {
    let swap = vec![swap(1, "small", 100), swap(2, "big", 5000)];
    let gpu = vec![gpu(3, "gpu_big", 0, 10000)];
    let result = merge_process_data(&swap, &gpu, &[], &[]);
    assert_eq!(result.len(), 3);
    assert_eq!(result[0].name, "gpu_big");
    assert_eq!(result[1].name, "big");
    assert_eq!(result[2].name, "small");
}

#[test]
fn test_aggregate_unified() {
    let swap = vec![swap(1, "proc", 100), swap(2, "proc", 200)];
    let gpu: Vec<GpuProcessInfo> = vec![];
    let result = merge_process_data(&swap, &gpu, &[], &[]);
    assert_eq!(result.len(), 2);
}

#[test]
fn test_hbm_migration_detected() {
    let swap = vec![swap(100, "migrated", 1024)];
    let gpu: Vec<GpuProcessInfo> = vec![];
    let numa_infos = vec![ProcessNumaInfo {
        pid: 100,
        name: "migrated".into(),
        pages_per_node: HashMap::from([(0, 500), (2, 100)]),
        total_pages: 600,
        cpu_node: None,
    }];
    let numa_nodes = vec![
        NumaNode { id: 0, memory_total_kb: 16_000_000, memory_free_kb: 8_000_000, cpus: vec![0, 1], node_type: NumaNodeType::Cpu },
        NumaNode { id: 2, memory_total_kb: 81_920_000, memory_free_kb: 40_960_000, cpus: vec![], node_type: NumaNodeType::GpuHbm { gpu_index: 0 } },
    ];
    let result = merge_process_data(&swap, &gpu, &numa_infos, &numa_nodes);
    assert_eq!(result.len(), 1);
    assert_eq!(result[0].location, ProcessLocation::CpuAndGpu);
    assert_eq!(result[0].numa_node, Some(0));
    assert_eq!(result[0].gpu_memory_kb, None);
}

#[test]
fn test_graceful_no_gpu() {
    let swap = vec![swap(1, "proc1", 100), swap(2, "proc2", 200)];
    let gpu: Vec<GpuProcessInfo> = vec![];
    let result = merge_process_data(&swap, &gpu, &[], &[]);
    assert_eq!(result.len(), 2);
    assert!(result.iter().all(|p| p.location == ProcessLocation::CpuOnly));
}

#[test]
fn test_graceful_no_numa() {
    let swap = vec![swap(1, "proc", 100)];
    let gpu = vec![gpu(1, "proc", 0, 500)];
    let result = merge_process_data(&swap, &gpu, &[], &[]);
    assert_eq!(result.len(), 1);
    assert_eq!(result[0].location, ProcessLocation::CpuAndGpu);
    assert_eq!(result[0].numa_node, None);
}

#[test]
fn join_covers_every_input_process() {
    let swap = vec![swap(1, "a", 10), swap(2, "b", 10)];
    let gpu = vec![gpu(2, "b", 0, 5), gpu(3, "c", 1, 5), gpu(3, "c", 2, 7)];
    let infos = vec![ProcessNumaInfo {
        pid: 3,
        name: "c".into(),
        pages_per_node: HashMap::from([(0, 1)]),
        total_pages: 1,
        cpu_node: None,
    }];
    let result = merge_process_data(&swap, &gpu, &infos, &[]);
    let mut pids: Vec<u32> = result.iter().map(|r| r.pid).collect();
    pids.sort();
    assert_eq!(pids, vec![1, 2, 3]);
    let c = result.iter().find(|r| r.pid == 3).unwrap();
    assert_eq!(c.gpu_memory_kb, Some(7));
    assert_eq!(c.gpu_index, Some(2));
    assert_eq!(c.swap_kb, 0);
    assert_eq!(c.numa_node, None);
    assert_eq!(c.location, ProcessLocation::CpuAndGpu);
    let a = result.iter().find(|r| r.pid == 1).unwrap();
    assert_eq!(a.gpu_memory_kb, None);
    assert_eq!(a.gpu_index, None);
}

#[test]
fn join_ties_keep_first_seen_order() {
    let swap = vec![swap(5, "e", 10), swap(4, "d", 10)];
    let gpu = vec![gpu(6, "f", 0, 10)];
    let result = merge_process_data(&swap, &gpu, &[], &[]);
    let pids: Vec<u32> = result.iter().map(|r| r.pid).collect();
    assert_eq!(pids, vec![5, 4, 6]);
}

#[test]
fn migration_needs_pages_on_accelerator_memory() {
    let swap = vec![swap(1, "x", 10)];
    let infos = vec![ProcessNumaInfo {
        pid: 1,
        name: "x".into(),
        pages_per_node: HashMap::from([(2, 0), (0, 5)]),
        total_pages: 5,
        cpu_node: None,
    }];
    let nodes = vec![NumaNode {
        id: 2,
        memory_total_kb: 0,
        memory_free_kb: 0,
        cpus: vec![],
        node_type: NumaNodeType::GpuHbm { gpu_index: 0 },
    }];
    let result = merge_process_data(&swap, &[], &infos, &nodes);
    assert_eq!(result[0].location, ProcessLocation::CpuOnly);
    assert_eq!(result[0].numa_node, Some(0));
}

#[test]
fn dominant_node_ties_pick_lowest_id() {
    let m: HashMap<u32, u64> = HashMap::from([(3, 7), (1, 7), (2, 5)]);
    assert_eq!(dominant_node(&m), Some(1));
    let empty: HashMap<u32, u64> = HashMap::new();
    assert_eq!(dominant_node(&empty), None);
}

#[test]
fn rank_by_swap_is_stable() {
    let v = vec![
        unified(1, "a", 5, None, None),
        unified(2, "b", 9, None, None),
        unified(3, "c", 5, None, None),
    ];
    let r = sort_unified_procs(v, SortColumn::Swap);
    let pids: Vec<u32> = r.iter().map(|x| x.pid).collect();
    assert_eq!(pids, vec![2, 1, 3]);
}

#[test]
fn rank_by_gpu_memory_treats_none_as_zero() {
    let v = vec![
        unified(1, "a", 0, None, None),
        unified(2, "b", 0, None, Some(3)),
        unified(3, "c", 0, None, Some(0)),
    ];
    let r = sort_unified_procs(v, SortColumn::GpuMem);
    let pids: Vec<u32> = r.iter().map(|x| x.pid).collect();
    assert_eq!(pids, vec![2, 1, 3]);
}

#[test]
fn rank_by_name_is_lexicographic() {
    let v = vec![
        unified(1, "zsh", 0, None, None),
        unified(2, "Xorg", 0, None, None),
        unified(3, "bash", 0, None, None),
        unified(4, "ba", 0, None, None),
    ];
    let r = sort_unified_procs(v, SortColumn::Name);
    let names: Vec<&str> = r.iter().map(|x| x.name.as_str()).collect();
    assert_eq!(names, vec!["Xorg", "ba", "bash", "zsh"]);
}

#[test]
fn rank_by_node_puts_none_first() {
    let v = vec![
        unified(1, "a", 0, Some(2), None),
        unified(2, "b", 0, None, None),
        unified(3, "c", 0, Some(0), None),
    ];
    let r = sort_unified_procs(v, SortColumn::NumaNode);
    let pids: Vec<u32> = r.iter().map(|x| x.pid).collect();
    assert_eq!(pids, vec![2, 3, 1]);
}

#[test]
fn sort_column_cycle_and_labels() {
    assert_eq!(SortColumn::Swap.next(), SortColumn::GpuMem);
    assert_eq!(SortColumn::GpuMem.next(), SortColumn::NumaNode);
    assert_eq!(SortColumn::NumaNode.next(), SortColumn::Name);
    assert_eq!(SortColumn::Name.next(), SortColumn::Swap);
    assert_eq!(SortColumn::Swap.label(), "swap");
    assert_eq!(SortColumn::GpuMem.label(), "gpu_mem");
    assert_eq!(SortColumn::Name.label(), "name");
    assert_eq!(SortColumn::NumaNode.label(), "numa");
}
