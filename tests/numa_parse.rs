use std::collections::HashMap;

use nv_swaptop::numa::{
    classify_numa_node, cpu_to_numa_node, node_id_of_dir, numa_node_from, parse_cpulist,
    parse_numa_maps, parse_numa_meminfo, sort_nodes_by_id,
};
use nv_swaptop::types::{NumaNode, NumaNodeType};

#[test]
fn test_parse_meminfo() {
    let content = "\
Node 0 MemTotal:       16384000 kB
Node 0 MemFree:         8192000 kB
Node 0 MemUsed:         8192000 kB";
    let (total, free) = parse_numa_meminfo(content);
    assert_eq!(total, 16384000);
    assert_eq!(free, 8192000);
}

#[test]
fn test_parse_cpulist_range() {
    assert_eq!(parse_cpulist("0-3,8-11"), vec![0, 1, 2, 3, 8, 9, 10, 11]);
}

#[test]
fn test_parse_cpulist_empty() {
    assert_eq!(parse_cpulist(""), Vec::<u32>::new());
}

#[test]
fn test_parse_cpulist_single() {
    assert_eq!(parse_cpulist("5"), vec![5]);
}

#[test]
fn test_classify_cpu_node() {
    let node = NumaNode {
        id: 0,
        memory_total_kb: 16384000,
        memory_free_kb: 8192000,
        cpus: vec![0, 1, 2, 3],
        node_type: NumaNodeType::Unknown,
    };
    let gpu_map = HashMap::new();
    assert_eq!(classify_numa_node(&node, &gpu_map), NumaNodeType::Cpu);
}

#[test]
fn test_classify_gpu_hbm() {
    let node = NumaNode {
        id: 2,
        memory_total_kb: 81920000,
        memory_free_kb: 40960000,
        cpus: vec![],
        node_type: NumaNodeType::Unknown,
    };
    let mut gpu_map = HashMap::new();
    gpu_map.insert(2, 0);
    assert_eq!(
        classify_numa_node(&node, &gpu_map),
        NumaNodeType::GpuHbm { gpu_index: 0 }
    );
}

#[test]
fn test_classify_unknown() {
    let node = NumaNode {
        id: 3,
        memory_total_kb: 0,
        memory_free_kb: 0,
        cpus: vec![],
        node_type: NumaNodeType::Unknown,
    };
    let gpu_map = HashMap::new();
    assert_eq!(classify_numa_node(&node, &gpu_map), NumaNodeType::Unknown);
}

#[test]
fn test_parse_numa_maps() {
    let content = "\
00400000 default N0=10 N1=5
00600000 default N0=3 N2=7";
    let info = parse_numa_maps(content, 42, "test_proc");
    assert_eq!(info.pid, 42);
    assert_eq!(info.name, "test_proc");
    assert_eq!(info.pages_per_node.get(&0), Some(&13));
    assert_eq!(info.pages_per_node.get(&1), Some(&5));
    assert_eq!(info.pages_per_node.get(&2), Some(&7));
}

#[test]
fn test_parse_numa_maps_aggregation() {
    let content = "\
00400000 default N0=100
00500000 default N0=200
00600000 default N1=50";
    let info = parse_numa_maps(content, 1, "proc");
    assert_eq!(info.pages_per_node.get(&0), Some(&300));
    assert_eq!(info.pages_per_node.get(&1), Some(&50));
    assert_eq!(info.total_pages, 350);
}

#[test]
fn test_parse_numa_maps_empty() {
    let info = parse_numa_maps("", 1, "empty");
    assert_eq!(info.total_pages, 0);
    assert!(info.pages_per_node.is_empty());
}

#[test]
fn test_total_pages_sum() {
    let content = "00400000 default N0=10 N1=20 N2=30";
    let info = parse_numa_maps(content, 1, "proc");
    let manual_sum: u64 = info.pages_per_node.values().sum();
    assert_eq!(info.total_pages, manual_sum);
    assert_eq!(info.total_pages, 60);
}

#[test]
fn test_topology_sorted() {
    let nodes = vec![
        NumaNode {
            id: 2,
            memory_total_kb: 0,
            memory_free_kb: 0,
            cpus: vec![],
            node_type: NumaNodeType::Unknown,
        },
        NumaNode {
            id: 0,
            memory_total_kb: 0,
            memory_free_kb: 0,
            cpus: vec![0],
            node_type: NumaNodeType::Cpu,
        },
        NumaNode {
            id: 1,
            memory_total_kb: 0,
            memory_free_kb: 0,
            cpus: vec![1],
            node_type: NumaNodeType::Cpu,
        },
    ];
    let nodes = sort_nodes_by_id(nodes);
    assert_eq!(nodes[0].id, 0);
    assert_eq!(nodes[1].id, 1);
    assert_eq!(nodes[2].id, 2);
}

#[test]
fn cpulist_overlaps_and_order_are_normalised() {
    assert_eq!(parse_cpulist("8-9,0-2,1-3,2\n"), vec![0, 1, 2, 3, 8, 9]);
    assert_eq!(parse_cpulist(" 3 , 1 ,2"), vec![1, 2, 3]);
}

#[test]
fn cpulist_bad_pieces_are_skipped() {
    assert_eq!(parse_cpulist("a,5,x-3,4-2,7-"), vec![5]);
    assert_eq!(parse_cpulist("+4"), vec![4]);
}

#[test]
fn cpulist_extremes_match_the_text() {
    let cpus = parse_cpulist("12-15,2,40");
    assert_eq!(cpus[0], 2);
    assert_eq!(cpus[cpus.len() - 1], 40);
    assert_eq!(cpus.len(), 6);
}

#[test]
fn cpu_presence_wins_over_accelerator_index() {
    let node = NumaNode {
        id: 2,
        memory_total_kb: 0,
        memory_free_kb: 0,
        cpus: vec![7],
        node_type: NumaNodeType::Unknown,
    };
    let mut gpu_map = HashMap::new();
    gpu_map.insert(2, 1);
    assert_eq!(classify_numa_node(&node, &gpu_map), NumaNodeType::Cpu);
}

#[test]
fn meminfo_later_line_wins_and_missing_is_zero() {
    let (total, free) = parse_numa_meminfo("Node 1 MemTotal: 10 kB\nNode 1 MemTotal: 20 kB\nbad");
    assert_eq!(total, 20);
    assert_eq!(free, 0);
}

#[test]
fn numa_maps_ignores_other_words() {
    let info = parse_numa_maps("7f00 default anon=3 dirty=3 N1=4 Nx=9 N2=y kernelpagesize_kB=4", 5, "p");
    assert_eq!(info.pages_per_node.len(), 1);
    assert_eq!(info.pages_per_node.get(&1), Some(&4));
    assert_eq!(info.total_pages, 4);
    assert_eq!(info.cpu_node, None);
}

#[test]
fn numa_maps_overflowing_word_is_skipped() {
    let info = parse_numa_maps("a N0=18446744073709551615\nb N1=1\nc N2=0", 5, "p");
    assert_eq!(info.pages_per_node.get(&0), Some(&18446744073709551615));
    assert_eq!(info.pages_per_node.get(&1), None);
    assert_eq!(info.pages_per_node.get(&2), Some(&0));
    assert_eq!(info.total_pages, 18446744073709551615);
}

#[test]
fn numa_maps_parse_twice_is_identical() {
    let content = "00400000 default N0=100\n00500000 default N0=200 N3=8\n00600000 default N1=50";
    let a = parse_numa_maps(content, 9, "p");
    let b = parse_numa_maps(content, 9, "p");
    assert_eq!(a.pages_per_node, b.pages_per_node);
    assert_eq!(a.total_pages, b.total_pages);
    assert_eq!(a.total_pages, 358);
}

#[test]
fn cpu_lookup_finds_node() {
    let nodes = vec![
        NumaNode { id: 0, memory_total_kb: 0, memory_free_kb: 0, cpus: vec![0, 1], node_type: NumaNodeType::Cpu },
        NumaNode { id: 1, memory_total_kb: 0, memory_free_kb: 0, cpus: vec![2, 3], node_type: NumaNodeType::Cpu },
    ];
    assert_eq!(cpu_to_numa_node(3, &nodes), Some(1));
    assert_eq!(cpu_to_numa_node(9, &nodes), None);
    assert_eq!(cpu_to_numa_node(-1, &nodes), None);
}

#[test]
fn node_directory_names() {
    assert_eq!(node_id_of_dir("node12"), Some(12));
    assert_eq!(node_id_of_dir("node"), None);
    assert_eq!(node_id_of_dir("has_cpu"), None);
}

#[test]
fn node_built_from_readings() {
    let mut gpu_map = HashMap::new();
    gpu_map.insert(4, 1);
    let node = numa_node_from(4, "Node 4 MemTotal: 100 kB\nNode 4 MemFree: 40 kB\n", "\n", &gpu_map);
    assert_eq!(node.id, 4);
    assert_eq!(node.memory_total_kb, 100);
    assert_eq!(node.memory_free_kb, 40);
    assert!(node.cpus.is_empty());
    assert_eq!(node.node_type, NumaNodeType::GpuHbm { gpu_index: 1 });
}
