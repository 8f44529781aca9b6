//! Refresh scheduling: each telemetry class is refetched on its own
//! staleness budget, and a failed fetch keeps the value held before.
use vstd::prelude::*;

use crate::types::{ActiveView, GpuDevice, GpuProcessInfo, NumaNode, ProcessNumaInfo};

verus! {

/// Staleness budget of the topology, in milliseconds.
pub const NUMA_TOPOLOGY_TTL_MS: u64 = 30000;

/// Staleness budget of the per-process page distributions, in milliseconds.
pub const NUMA_MAPS_TTL_MS: u64 = 5000;

/// Staleness budget of the accelerator inventory, in milliseconds.
pub const GPU_DEVICES_TTL_MS: u64 = 10000;

/// Staleness budget of the accelerator process list, in milliseconds.
pub const GPU_PROCESSES_TTL_MS: u64 = 1000;

/// A kind of telemetry with its own refresh schedule.
#[derive(Clone, Copy, Debug, PartialEq, Eq, Structural)]
pub enum TelemetryClass {
    NumaTopology,
    NumaMaps,
    GpuDevices,
    GpuProcesses,
}

/// When a class was last refreshed, on a monotonic clock in milliseconds,
/// and how old its value may grow.
#[derive(Clone, Copy, Debug, PartialEq, Eq, Structural)]
pub struct CacheEntry {
    pub last_refreshed_ms: Option<u64>,
    pub stale_budget_ms: u64,
}

/// Milliseconds from `last` to `now`; zero where the clock reads earlier.
pub open spec fn elapsed(last: u64, now: u64) -> int {
    if now >= last {
        now - last
    } else {
        0
    }
}

/// A class is due when it was never refreshed, or its budget has run out.
pub open spec fn entry_due(e: CacheEntry, now: u64) -> bool {
    match e.last_refreshed_ms {
        None => true,
        Some(t) => elapsed(t, now) >= e.stale_budget_ms,
    }
}

/// One entry per telemetry class.
#[derive(Clone, Copy, Debug, PartialEq, Eq, Structural)]
pub struct CacheScheduler {
    pub numa_topology: CacheEntry,
    pub numa_maps: CacheEntry,
    pub gpu_devices: CacheEntry,
    pub gpu_processes: CacheEntry,
}

impl CacheScheduler {
    pub open spec fn entry(self, class: TelemetryClass) -> CacheEntry {
        match class {
            TelemetryClass::NumaTopology => self.numa_topology,
            TelemetryClass::NumaMaps => self.numa_maps,
            TelemetryClass::GpuDevices => self.gpu_devices,
            TelemetryClass::GpuProcesses => self.gpu_processes,
        }
    }

    /// A scheduler with the given budgets and no class refreshed yet.
    pub fn with_budgets(topology_ms: u64, maps_ms: u64, devices_ms: u64, processes_ms: u64) -> (r:
        CacheScheduler)
        ensures
            r.numa_topology == (CacheEntry { last_refreshed_ms: None, stale_budget_ms: topology_ms }),
            r.numa_maps == (CacheEntry { last_refreshed_ms: None, stale_budget_ms: maps_ms }),
            r.gpu_devices == (CacheEntry { last_refreshed_ms: None, stale_budget_ms: devices_ms }),
            r.gpu_processes == (CacheEntry {
                last_refreshed_ms: None,
                stale_budget_ms: processes_ms,
            }),
    {
        CacheScheduler {
            numa_topology: CacheEntry { last_refreshed_ms: None, stale_budget_ms: topology_ms },
            numa_maps: CacheEntry { last_refreshed_ms: None, stale_budget_ms: maps_ms },
            gpu_devices: CacheEntry { last_refreshed_ms: None, stale_budget_ms: devices_ms },
            gpu_processes: CacheEntry { last_refreshed_ms: None, stale_budget_ms: processes_ms },
        }
    }

    /// A scheduler with the dashboard's budgets and no class refreshed yet.
    pub fn new() -> (r: CacheScheduler)
        ensures
            forall|c: TelemetryClass| (#[trigger] r.entry(c)).last_refreshed_ms.is_none(),
            r.numa_topology.stale_budget_ms == NUMA_TOPOLOGY_TTL_MS,
            r.numa_maps.stale_budget_ms == NUMA_MAPS_TTL_MS,
            r.gpu_devices.stale_budget_ms == GPU_DEVICES_TTL_MS,
            r.gpu_processes.stale_budget_ms == GPU_PROCESSES_TTL_MS,
    {
        Self::with_budgets(
            NUMA_TOPOLOGY_TTL_MS,
            NUMA_MAPS_TTL_MS,
            GPU_DEVICES_TTL_MS,
            GPU_PROCESSES_TTL_MS,
        )
    }

    fn entry_exec(&self, class: TelemetryClass) -> (r: CacheEntry)
        ensures
            r == self.entry(class),
    {
        match class {
            TelemetryClass::NumaTopology => self.numa_topology,
            TelemetryClass::NumaMaps => self.numa_maps,
            TelemetryClass::GpuDevices => self.gpu_devices,
            TelemetryClass::GpuProcesses => self.gpu_processes,
        }
    }

    /// Whether `class` should be refetched at `now`.
    pub fn is_due(&self, class: TelemetryClass, now: u64) -> (r: bool)
        ensures
            r == entry_due(self.entry(class), now),
    {
        let e = self.entry_exec(class);
        match e.last_refreshed_ms {
            None => true,
            Some(t) => {
                let el = if now >= t {
                    now - t
                } else {
                    0
                };
                el >= e.stale_budget_ms
            },
        }
    }

    /// Marks `class` as refreshed at `now`, whether or not its fetch
    /// succeeded; the other classes are untouched.
    pub fn record_refresh(&mut self, class: TelemetryClass, now: u64)
        ensures
            final(self).entry(class) == (CacheEntry {
                last_refreshed_ms: Some(now),
                stale_budget_ms: old(self).entry(class).stale_budget_ms,
            }),
            forall|c: TelemetryClass| c != class ==> #[trigger] final(self).entry(c) == old(self).entry(c),
    {
        match class {
            TelemetryClass::NumaTopology => self.numa_topology.last_refreshed_ms = Some(now),
            TelemetryClass::NumaMaps => self.numa_maps.last_refreshed_ms = Some(now),
            TelemetryClass::GpuDevices => self.gpu_devices.last_refreshed_ms = Some(now),
            TelemetryClass::GpuProcesses => self.gpu_processes.last_refreshed_ms = Some(now),
        }
    }
}

/// No view holds back the topology: with its source available, a due
/// topology is fetched whatever is on screen (see `should_refresh`).
pub proof fn lemma_topology_ignores_view(view: ActiveView)
    ensures
        class_visible(TelemetryClass::NumaTopology, view),
{
}

/// A class never refreshed is due; right after a refresh it is due again
/// only when its budget is zero.
pub proof fn lemma_due_after_refresh(
    s: CacheScheduler,
    class: TelemetryClass,
    now: u64,
    after: CacheScheduler,
)
    requires
        after.entry(class) == (CacheEntry {
            last_refreshed_ms: Some(now),
            stale_budget_ms: s.entry(class).stale_budget_ms,
        }),
    ensures
        s.entry(class).last_refreshed_ms is None ==> entry_due(s.entry(class), now),
        entry_due(after.entry(class), now) <==> s.entry(class).stale_budget_ms == 0,
{
}

/// Whether a class is fetched while `view` is on screen. The topology is
/// fetched in every view, since the joined view reads it to detect
/// migration; the page distributions only feed the topology view, and the
/// accelerator classes the accelerator and joined views.
pub open spec fn class_visible(class: TelemetryClass, view: ActiveView) -> bool {
    match class {
        TelemetryClass::NumaTopology => true,
        TelemetryClass::NumaMaps => view == ActiveView::Numa,
        TelemetryClass::GpuDevices | TelemetryClass::GpuProcesses => view == ActiveView::Gpu
            || view == ActiveView::Unified,
    }
}

/// The held values of each class, with their schedule.
pub struct TelemetryCache {
    pub scheduler: CacheScheduler,
    pub numa_nodes: Vec<NumaNode>,
    pub process_numa_infos: Vec<ProcessNumaInfo>,
    pub gpu_devices: Vec<GpuDevice>,
    pub gpu_processes: Vec<GpuProcessInfo>,
}

impl TelemetryCache {
    /// Empty values, none refreshed yet.
    pub fn new() -> (r: TelemetryCache)
        ensures
            forall|c: TelemetryClass| (#[trigger] r.scheduler.entry(c)).last_refreshed_ms.is_none(),
            r.numa_nodes@.len() == 0,
            r.process_numa_infos@.len() == 0,
            r.gpu_devices@.len() == 0,
            r.gpu_processes@.len() == 0,
    {
        TelemetryCache {
            scheduler: CacheScheduler::new(),
            numa_nodes: Vec::new(),
            process_numa_infos: Vec::new(),
            gpu_devices: Vec::new(),
            gpu_processes: Vec::new(),
        }
    }

    /// Whether `class` is to be fetched at `now`: its source is available,
    /// it is fetched in the view on screen (`class_visible`), and it is due.
    pub fn should_refresh(&self, class: TelemetryClass, view: ActiveView, available: bool, now: u64) -> (r: bool)
        ensures
            r == (available && class_visible(class, view) && entry_due(
                self.scheduler.entry(class),
                now,
            )),
    {
        let visible = match class {
            TelemetryClass::NumaTopology => true,
            TelemetryClass::NumaMaps => view == ActiveView::Numa,
            TelemetryClass::GpuDevices | TelemetryClass::GpuProcesses => view == ActiveView::Gpu
                || view == ActiveView::Unified,
        };
        available && visible && self.scheduler.is_due(class, now)
    }

    /// Stores a topology fetch made at `now`: a result replaces the nodes
    /// held, a failure (`None`) keeps them. The class counts as refreshed
    /// either way.
    pub fn store_numa_topology(&mut self, now: u64, fetched: Option<Vec<NumaNode>>)
        ensures
            final(self).numa_nodes@ == match fetched {
                Some(v) => v@,
                None => old(self).numa_nodes@,
            },
            final(self).scheduler.entry(TelemetryClass::NumaTopology).last_refreshed_ms == Some(now),
            final(self).scheduler.entry(TelemetryClass::NumaTopology).stale_budget_ms == old(self).scheduler.entry(TelemetryClass::NumaTopology).stale_budget_ms,
            forall|c: TelemetryClass| c != TelemetryClass::NumaTopology ==> #[trigger] final(self).scheduler.entry(c) == old(self).scheduler.entry(c),
            final(self).process_numa_infos@ == old(self).process_numa_infos@,
            final(self).gpu_devices@ == old(self).gpu_devices@,
            final(self).gpu_processes@ == old(self).gpu_processes@,
    {
        match fetched {
            Some(v) => self.numa_nodes = v,
            None => {},
        }
        self.scheduler.record_refresh(TelemetryClass::NumaTopology, now);
    }

    /// Stores a fetch of the page distributions made at `now`; see
    /// `store_numa_topology`.
    pub fn store_numa_maps(&mut self, now: u64, fetched: Option<Vec<ProcessNumaInfo>>)
        ensures
            final(self).process_numa_infos@ == match fetched {
                Some(v) => v@,
                None => old(self).process_numa_infos@,
            },
            final(self).scheduler.entry(TelemetryClass::NumaMaps).last_refreshed_ms == Some(now),
            final(self).scheduler.entry(TelemetryClass::NumaMaps).stale_budget_ms == old(self).scheduler.entry(TelemetryClass::NumaMaps).stale_budget_ms,
            forall|c: TelemetryClass| c != TelemetryClass::NumaMaps ==> #[trigger] final(self).scheduler.entry(c) == old(self).scheduler.entry(c),
            final(self).numa_nodes@ == old(self).numa_nodes@,
            final(self).gpu_devices@ == old(self).gpu_devices@,
            final(self).gpu_processes@ == old(self).gpu_processes@,
    {
        match fetched {
            Some(v) => self.process_numa_infos = v,
            None => {},
        }
        self.scheduler.record_refresh(TelemetryClass::NumaMaps, now);
    }

    /// Stores a fetch of the accelerator inventory made at `now`; see
    /// `store_numa_topology`.
    pub fn store_gpu_devices(&mut self, now: u64, fetched: Option<Vec<GpuDevice>>)
        ensures
            final(self).gpu_devices@ == match fetched {
                Some(v) => v@,
                None => old(self).gpu_devices@,
            },
            final(self).scheduler.entry(TelemetryClass::GpuDevices).last_refreshed_ms == Some(now),
            final(self).scheduler.entry(TelemetryClass::GpuDevices).stale_budget_ms == old(self).scheduler.entry(TelemetryClass::GpuDevices).stale_budget_ms,
            forall|c: TelemetryClass| c != TelemetryClass::GpuDevices ==> #[trigger] final(self).scheduler.entry(c) == old(self).scheduler.entry(c),
            final(self).numa_nodes@ == old(self).numa_nodes@,
            final(self).process_numa_infos@ == old(self).process_numa_infos@,
            final(self).gpu_processes@ == old(self).gpu_processes@,
    {
        match fetched {
            Some(v) => self.gpu_devices = v,
            None => {},
        }
        self.scheduler.record_refresh(TelemetryClass::GpuDevices, now);
    }

    /// Stores a fetch of the accelerator process list made at `now`; see
    /// `store_numa_topology`.
    pub fn store_gpu_processes(&mut self, now: u64, fetched: Option<Vec<GpuProcessInfo>>)
        ensures
            final(self).gpu_processes@ == match fetched {
                Some(v) => v@,
                None => old(self).gpu_processes@,
            },
            final(self).scheduler.entry(TelemetryClass::GpuProcesses).last_refreshed_ms == Some(now),
            final(self).scheduler.entry(TelemetryClass::GpuProcesses).stale_budget_ms == old(self).scheduler.entry(TelemetryClass::GpuProcesses).stale_budget_ms,
            forall|c: TelemetryClass| c != TelemetryClass::GpuProcesses ==> #[trigger] final(self).scheduler.entry(c) == old(self).scheduler.entry(c),
            final(self).numa_nodes@ == old(self).numa_nodes@,
            final(self).process_numa_infos@ == old(self).process_numa_infos@,
            final(self).gpu_devices@ == old(self).gpu_devices@,
    {
        match fetched {
            Some(v) => self.gpu_processes = v,
            None => {},
        }
        self.scheduler.record_refresh(TelemetryClass::GpuProcesses, now);
    }
}

} // verus!
