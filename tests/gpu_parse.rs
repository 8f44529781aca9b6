use nv_swaptop::gpu::{
    gpu_numa_index, mib_to_kb, parse_gpu_devices_csv, parse_gpu_processes_csv, parse_mib_field,
    parse_numa_node_affinity,
};
use nv_swaptop::types::GpuDevice;

#[test]
fn test_parse_gpu_processes() {
    let csv = "0, 1234, python3, 2048 MiB\n";
    let result = parse_gpu_processes_csv(csv);
    assert_eq!(result.len(), 1);
    assert_eq!(result[0].pid, 1234);
    assert_eq!(result[0].name, "python3");
    assert_eq!(result[0].gpu_index, 0);
    assert_eq!(result[0].gpu_memory_used_kb, 2048 * 1024);
}

#[test]
fn test_parse_gpu_processes_empty() {
    let csv = "";
    let result = parse_gpu_processes_csv(csv);
    assert!(result.is_empty());
}

#[test]
fn test_parse_gpu_processes_malformed() {
    let csv = "this is not valid csv\n0, not_a_pid, proc, 100 MiB\n";
    let result = parse_gpu_processes_csv(csv);
    assert!(result.is_empty());
}

#[test]
fn test_parse_gpu_devices() {
    let csv = "0, NVIDIA H100, 81920 MiB, 40960 MiB, 40960 MiB, 45, 00000000:01:00.0\n";
    let result = parse_gpu_devices_csv(csv);
    assert_eq!(result.len(), 1);
    assert_eq!(result[0].index, 0);
    assert_eq!(result[0].name, "NVIDIA H100");
    assert_eq!(result[0].memory_total_kb, 81920 * 1024);
    assert_eq!(result[0].memory_used_kb, 40960 * 1024);
    assert_eq!(result[0].temperature, Some(45));
    assert_eq!(result[0].pci_bus_id, "00000000:01:00.0");
}

#[test]
fn test_gpu_mib_to_kb() {
    assert_eq!(mib_to_kb(1), 1024);
    assert_eq!(mib_to_kb(1024), 1024 * 1024);
}

#[test]
fn test_parse_multiple_gpus() {
    let csv = "\
0, NVIDIA H100, 81920 MiB, 10000 MiB, 71920 MiB, 42, 00000000:01:00.0
1, NVIDIA H100, 81920 MiB, 20000 MiB, 61920 MiB, 50, 00000000:02:00.0
2, NVIDIA H100, 81920 MiB, 5000 MiB, 76920 MiB, 38, 00000000:03:00.0";
    let result = parse_gpu_devices_csv(csv);
    assert_eq!(result.len(), 3);
    assert_eq!(result[0].index, 0);
    assert_eq!(result[1].index, 1);
    assert_eq!(result[2].index, 2);
}

#[test]
fn test_header_row_skipped() {
    let csv = "\
index, name, memory.total [MiB], memory.used [MiB], memory.free [MiB], temperature.gpu, pci.bus_id
0, NVIDIA H100, 81920 MiB, 40960 MiB, 40960 MiB, 45, 00000000:01:00.0";
    let result = parse_gpu_devices_csv(csv);
    assert_eq!(result.len(), 1);
    assert_eq!(result[0].name, "NVIDIA H100");
}

#[test]
fn test_gpu_numa_mapping() {
    let devices: Vec<GpuDevice> = vec![];
    let mapping = gpu_numa_index(&devices);
    assert!(mapping.is_empty());
}

#[test]
fn test_mock_provider_gpu() {
    let proc_csv = "0, 100, train.py, 4096 MiB\n1, 200, infer.py, 2048 MiB\n";
    let dev_csv = "0, H100, 81920 MiB, 4096 MiB, 77824 MiB, 45, 00000000:01:00.0\n\
                    1, H100, 81920 MiB, 2048 MiB, 79872 MiB, 40, 00000000:02:00.0\n";
    let procs = parse_gpu_processes_csv(proc_csv);
    let devs = parse_gpu_devices_csv(dev_csv);
    assert_eq!(procs.len(), 2);
    assert_eq!(devs.len(), 2);
    assert_eq!(procs[0].gpu_memory_used_kb, 4096 * 1024);
    assert_eq!(devs[1].memory_free_kb, 79872 * 1024);
}

#[test]
fn gpu_process_lines_skipped_by_policy() {
    let csv = "gpu_uuid, pid, process_name, used_gpu_memory [MiB]\n\
               # comment\n\
               0, 7, a, [Not Supported]\n\
               0, 8, b\n\
               \n\
               1, 9, c, 3 MiB\r\n";
    let result = parse_gpu_processes_csv(csv);
    assert_eq!(result.len(), 1);
    assert_eq!(result[0].pid, 9);
    assert_eq!(result[0].name, "c");
    assert_eq!(result[0].gpu_index, 1);
    assert_eq!(result[0].gpu_memory_used_kb, 3 * 1024);
}

#[test]
fn gpu_process_memory_too_large_is_skipped() {
    let csv = "0, 1, a, 18014398509481984 MiB\n0, 2, b, 18014398509481983 MiB\n";
    let result = parse_gpu_processes_csv(csv);
    assert_eq!(result.len(), 1);
    assert_eq!(result[0].pid, 2);
    assert_eq!(result[0].gpu_memory_used_kb, 18014398509481983 * 1024);
}

#[test]
fn gpu_device_fields_that_do_not_parse() {
    let csv = "3, X, lots, 10 MiB, +20 MiB, N/A, 0000:41:00.0\nname, x\nq, a, 1, 2, 3, 4, 5\n";
    let result = parse_gpu_devices_csv(csv);
    assert_eq!(result.len(), 1);
    assert_eq!(result[0].index, 3);
    assert_eq!(result[0].memory_total_kb, 0);
    assert_eq!(result[0].memory_used_kb, 10 * 1024);
    assert_eq!(result[0].memory_free_kb, 20 * 1024);
    assert_eq!(result[0].temperature, None);
    assert_eq!(result[0].numa_node_id, None);
    assert_eq!(result[0].pci_bus_id, "0000:41:00.0");
}

#[test]
fn mib_field_values() {
    assert_eq!(parse_mib_field(" 81920 MiB "), 81920);
    assert_eq!(parse_mib_field("8 MiB1 MiB"), 81);
    assert_eq!(parse_mib_field("N/A"), 0);
    assert_eq!(parse_mib_field(""), 0);
}

#[test]
fn node_affinity_file() {
    assert_eq!(parse_numa_node_affinity("2\n"), Some(2));
    assert_eq!(parse_numa_node_affinity("-1\n"), None);
    assert_eq!(parse_numa_node_affinity("-0"), Some(0));
    assert_eq!(parse_numa_node_affinity("x"), None);
}

#[test]
fn affinity_index_maps_node_to_device() {
    let mut devs = parse_gpu_devices_csv(
        "0, A, 1 MiB, 1 MiB, 0 MiB, 30, b0\n1, B, 1 MiB, 1 MiB, 0 MiB, 30, b1\n2, C, 1 MiB, 1 MiB, 0 MiB, 30, b2\n",
    );
    devs[0].numa_node_id = Some(4);
    devs[1].numa_node_id = None;
    devs[2].numa_node_id = Some(5);
    let index = gpu_numa_index(&devs);
    assert_eq!(index.len(), 2);
    assert_eq!(index.get(&4), Some(&0));
    assert_eq!(index.get(&5), Some(&2));
}
