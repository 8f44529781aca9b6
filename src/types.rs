//! The records that flow from the telemetry parsers to the presentation.
use std::collections::HashMap;
use vstd::prelude::*;

verus! {

/// The unit in which memory amounts are shown.
#[derive(Clone, Copy, Debug, PartialEq, Eq, Structural)]
pub enum SizeUnits {
    KB,
    MB,
    GB,
}

impl Default for SizeUnits {
    fn default() -> (r: SizeUnits)
        ensures
            r == SizeUnits::KB,
    {
        SizeUnits::KB
    }
}

/// One process that holds swapped-out pages.
#[derive(Clone, Debug)]
pub struct ProcessSwapInfo {
    pub pid: u32,
    pub name: String,
    /// Swapped-out memory, in kibibytes.
    pub swap_kb: u64,
    /// The CPU the process last ran on, where the kernel reports it.
    pub last_cpu: Option<i32>,
}

/// What a topology node holds.
#[derive(Clone, Copy, Debug, PartialEq, Eq, Structural)]
pub enum NumaNodeType {
    /// A node with CPUs attached.
    Cpu,
    /// Memory attached to an accelerator, with no CPUs.
    GpuHbm { gpu_index: u32 },
    Unknown,
}

/// One memory domain of the topology.
#[derive(Clone, Debug)]
pub struct NumaNode {
    pub id: u32,
    pub memory_total_kb: u64,
    pub memory_free_kb: u64,
    /// The CPUs of the node, strictly increasing.
    pub cpus: Vec<u32>,
    pub node_type: NumaNodeType,
}

/// Where the pages of one process lie, node by node.
#[derive(Clone, Debug)]
pub struct ProcessNumaInfo {
    pub pid: u32,
    pub name: String,
    pub pages_per_node: HashMap<u32, u64>,
    /// The sum of the values of `pages_per_node`.
    pub total_pages: u64,
    /// The node whose CPUs include the CPU the process last ran on.
    pub cpu_node: Option<u32>,
}

/// The view that the dashboard shows.
#[derive(Clone, Copy, Debug, PartialEq, Eq, Structural)]
pub enum ActiveView {
    Swap,
    Numa,
    Gpu,
    Unified,
}

impl Default for ActiveView {
    fn default() -> (r: ActiveView)
        ensures
            r == ActiveView::Swap,
    {
        ActiveView::Swap
    }
}

/// One process that uses accelerator memory on one device.
#[derive(Clone, Debug)]
pub struct GpuProcessInfo {
    pub pid: u32,
    pub name: String,
    pub gpu_index: u32,
    pub gpu_memory_used_kb: u64,
}

/// One accelerator device.
#[derive(Clone, Debug)]
pub struct GpuDevice {
    pub index: u32,
    pub name: String,
    pub memory_total_kb: u64,
    pub memory_used_kb: u64,
    pub memory_free_kb: u64,
    pub numa_node_id: Option<u32>,
    pub temperature: Option<u32>,
    pub pci_bus_id: String,
}

/// Where the memory of a process lies.
#[derive(Clone, Copy, Debug, PartialEq, Eq, Structural)]
pub enum ProcessLocation {
    CpuOnly,
    GpuOnly,
    CpuAndGpu,
}

/// One process of the joined view.
#[derive(Clone, Debug)]
pub struct UnifiedProcessInfo {
    pub pid: u32,
    pub name: String,
    pub swap_kb: u64,
    pub numa_node: Option<u32>,
    pub gpu_memory_kb: Option<u64>,
    pub gpu_index: Option<u32>,
    pub location: ProcessLocation,
}

} // verus!
