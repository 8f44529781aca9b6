use nv_swaptop::cache::{
    CacheScheduler, TelemetryCache, TelemetryClass, GPU_PROCESSES_TTL_MS, NUMA_TOPOLOGY_TTL_MS,
};
use nv_swaptop::types::{ActiveView, GpuProcessInfo, ProcessSwapInfo, SizeUnits};

#[test]
fn test_size_units_default() {
    assert_eq!(SizeUnits::default(), SizeUnits::KB);
}

#[test]
fn test_process_swap_info_has_last_cpu() {
    let info = ProcessSwapInfo { pid: 42, name: "test".into(), swap_kb: 100, last_cpu: Some(3) };
    assert_eq!(info.last_cpu, Some(3));
}

#[test]
fn first_call_is_due_for_every_class() {
    let s = CacheScheduler::new();
    for c in [
        TelemetryClass::NumaTopology,
        TelemetryClass::NumaMaps,
        TelemetryClass::GpuDevices,
        TelemetryClass::GpuProcesses,
    ] {
        assert!(s.is_due(c, 0));
    }
}

#[test]
fn not_due_right_after_refresh() {
    let mut s = CacheScheduler::new();
    s.record_refresh(TelemetryClass::GpuProcesses, 5000);
    assert!(!s.is_due(TelemetryClass::GpuProcesses, 5000));
    assert!(!s.is_due(TelemetryClass::GpuProcesses, 5000 + GPU_PROCESSES_TTL_MS - 1));
    assert!(s.is_due(TelemetryClass::GpuProcesses, 5000 + GPU_PROCESSES_TTL_MS));
    assert!(s.is_due(TelemetryClass::NumaTopology, 5000));
}

#[test]
fn zero_budget_is_always_due() {
    let mut s = CacheScheduler::with_budgets(0, 1, 1, 1);
    s.record_refresh(TelemetryClass::NumaTopology, 7);
    assert!(s.is_due(TelemetryClass::NumaTopology, 7));
    s.record_refresh(TelemetryClass::NumaMaps, 7);
    assert!(!s.is_due(TelemetryClass::NumaMaps, 7));
}

#[test]
fn clock_reading_earlier_counts_as_no_time() {
    let mut s = CacheScheduler::new();
    s.record_refresh(TelemetryClass::NumaTopology, 100_000);
    assert!(!s.is_due(TelemetryClass::NumaTopology, 10));
    assert!(s.is_due(TelemetryClass::NumaTopology, 100_000 + NUMA_TOPOLOGY_TTL_MS));
}

#[test]
fn failed_fetch_keeps_value_and_advances_clock() {
    let mut c = TelemetryCache::new();
    let procs = vec![GpuProcessInfo { pid: 1, name: "a".into(), gpu_index: 0, gpu_memory_used_kb: 4 }];
    c.store_gpu_processes(10, Some(procs));
    c.store_gpu_processes(2000, None);
    assert_eq!(c.gpu_processes.len(), 1);
    assert_eq!(c.gpu_processes[0].pid, 1);
    assert!(!c.scheduler.is_due(TelemetryClass::GpuProcesses, 2000));
    c.store_gpu_processes(3000, Some(vec![]));
    assert!(c.gpu_processes.is_empty());
}

#[test]
fn refresh_gated_by_view_and_availability() {
    let c = TelemetryCache::new();
    assert!(c.should_refresh(TelemetryClass::GpuDevices, ActiveView::Unified, true, 0));
    assert!(!c.should_refresh(TelemetryClass::GpuDevices, ActiveView::Swap, true, 0));
    assert!(!c.should_refresh(TelemetryClass::GpuDevices, ActiveView::Gpu, false, 0));
    assert!(c.should_refresh(TelemetryClass::NumaMaps, ActiveView::Numa, true, 0));
    assert!(!c.should_refresh(TelemetryClass::NumaMaps, ActiveView::Unified, true, 0));
    assert!(c.should_refresh(TelemetryClass::NumaTopology, ActiveView::Gpu, true, 0));
    assert!(c.should_refresh(TelemetryClass::NumaTopology, ActiveView::Unified, true, 0));
    assert!(!c.should_refresh(TelemetryClass::NumaTopology, ActiveView::Swap, false, 0));
}

#[test]
fn due_topology_refetched_outside_topology_view() {
    let mut c = TelemetryCache::new();
    c.store_numa_topology(0, Some(vec![]));
    assert!(!c.should_refresh(TelemetryClass::NumaTopology, ActiveView::Unified, true, 1));
    assert!(c.should_refresh(
        TelemetryClass::NumaTopology,
        ActiveView::Unified,
        true,
        NUMA_TOPOLOGY_TTL_MS
    ));
}
