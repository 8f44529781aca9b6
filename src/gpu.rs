//! The accelerator tool's comma-separated output, and the index from
//! topology node to accelerator.
use std::collections::HashMap;
use vstd::prelude::*;

use crate::text::{
    chars_of, contains, contains_exec, lines, lines_exec, parse_i32, parse_i32_spec, parse_u32,
    parse_u32_spec, parse_u64, parse_u64_spec, remove_all, remove_all_exec, split, split_exec,
    starts_with, starts_with_exec, string_of, trim, trimmed,
};
use crate::types::{GpuDevice, GpuProcessInfo};

verus! {

broadcast use vstd::std_specs::hash::group_hash_axioms;

/// Kibibytes in `mib` mebibytes.
pub fn mib_to_kb(mib: u64) -> (r: u64)
    requires
        mib <= u64::MAX / 1024,
    ensures
        r == mib * 1024,
{
    mib * 1024
}

/// A memory amount such as `2048 MiB`: the number left once the text is
/// trimmed and every ` MiB` is taken out, where it parses and its value in
/// kibibytes fits in `u64`.
pub open spec fn mib_amount(s: Seq<char>) -> Option<u64> {
    match parse_u64_spec(remove_all(trim(s), " MiB"@)) {
        Some(m) => if m <= u64::MAX / 1024 {
            Some(m)
        } else {
            None
        },
        None => None,
    }
}

fn mib_amount_exec(s: &Vec<char>) -> (r: Option<u64>)
    ensures
        r == mib_amount(s@),
{
    let unit = chars_of(" MiB");
    proof {
        reveal_strlit(" MiB");
    }
    match parse_u64(&remove_all_exec(&trimmed(s), &unit)) {
        Some(m) => if m <= u64::MAX / 1024 {
            Some(m)
        } else {
            None
        },
        None => None,
    }
}

/// A memory field of the device listing in mebibytes; 0 where it does not
/// read as an amount.
pub fn parse_mib_field(s: &str) -> (r: u64)
    ensures
        r == match mib_amount(s@) {
            Some(m) => m,
            None => 0,
        },
{
    match mib_amount_exec(&chars_of(s)) {
        Some(m) => m,
        None => 0,
    }
}

/// A process row as (pid, name, device index, memory in kibibytes).
pub open spec fn gpu_process_view(p: GpuProcessInfo) -> (u32, Seq<char>, u32, u64) {
    (p.pid, p.name@, p.gpu_index, p.gpu_memory_used_kb)
}

/// A line of the tool's output that is no data: empty, a header or a
/// comment, or one that reports a query as not supported.
pub open spec fn skipped_process_line(line: Seq<char>) -> bool {
    line.len() == 0 || starts_with(line, "gpu"@) || starts_with(line, "#"@) || contains(
        line,
        "[Not Supported]"@,
    ) || starts_with(line, "index"@)
}

/// The row of one line of the process listing: device index, pid, name
/// and memory, separated by `, `.
pub open spec fn gpu_process_row(raw: Seq<char>) -> Option<(u32, Seq<char>, u32, u64)> {
    let line = trim(raw);
    let parts = split(line, ", "@);
    if skipped_process_line(line) || parts.len() < 4 {
        None
    } else {
        match (parse_u32_spec(trim(parts[0])), parse_u32_spec(trim(parts[1])), mib_amount(parts[3])) {
            (Some(g), Some(pid), Some(m)) => Some((pid, trim(parts[2]), g, (m * 1024) as u64)),
            _ => None,
        }
    }
}

pub open spec fn gpu_process_rows(ls: Seq<Seq<char>>) -> Seq<(u32, Seq<char>, u32, u64)>
    decreases ls.len(),
{
    if ls.len() == 0 {
        seq![]
    } else {
        gpu_process_rows(ls.drop_last()) + match gpu_process_row(ls.last()) {
            Some(x) => seq![x],
            None => seq![],
        }
    }
}

/// Patterns of the listings, each with its characters.
struct Patterns {
    sep: Vec<char>,
    gpu: Vec<char>,
    hash: Vec<char>,
    not_supported: Vec<char>,
    index: Vec<char>,
    name: Vec<char>,
}

impl Patterns {
    spec fn wf(&self) -> bool {
        &&& self.sep@ == ", "@
        &&& self.gpu@ == "gpu"@
        &&& self.hash@ == "#"@
        &&& self.not_supported@ == "[Not Supported]"@
        &&& self.index@ == "index"@
        &&& self.name@ == "name"@
        &&& self.sep@.len() > 0
    }

    fn new() -> (r: Patterns)
        ensures
            r.wf(),
    {
        proof {
            reveal_strlit(", ");
        }
        Patterns {
            sep: chars_of(", "),
            gpu: chars_of("gpu"),
            hash: chars_of("#"),
            not_supported: chars_of("[Not Supported]"),
            index: chars_of("index"),
            name: chars_of("name"),
        }
    }
}

fn gpu_process_row_exec(raw: &Vec<char>, pats: &Patterns) -> (r: Option<GpuProcessInfo>)
    requires
        pats.wf(),
    ensures
        match r {
            Some(p) => gpu_process_row(raw@) == Some(gpu_process_view(p)),
            None => gpu_process_row(raw@).is_none(),
        },
{
    let line = trimmed(raw);
    if line.len() == 0 || starts_with_exec(&line, &pats.gpu) || starts_with_exec(&line, &pats.hash)
        || contains_exec(&line, &pats.not_supported) || starts_with_exec(&line, &pats.index) {
        return None;
    }
    let parts = split_exec(&line, &pats.sep);
    let ghost pv = parts@.map_values(|v: Vec<char>| v@);
    if parts.len() < 4 {
        return None;
    }
    assert(pv[0] == parts@[0]@ && pv[1] == parts@[1]@ && pv[2] == parts@[2]@ && pv[3]
        == parts@[3]@);
    let g = match parse_u32(&trimmed(&parts[0])) {
        Some(v) => v,
        None => return None,
    };
    let pid = match parse_u32(&trimmed(&parts[1])) {
        Some(v) => v,
        None => return None,
    };
    let name = trimmed(&parts[2]);
    let m = match mib_amount_exec(&parts[3]) {
        Some(v) => v,
        None => return None,
    };
    Some(
        GpuProcessInfo {
            pid,
            name: string_of(&name),
            gpu_index: g,
            gpu_memory_used_kb: mib_to_kb(m),
        },
    )
}

/// Parses the accelerator tool's process listing: one line per process
/// and device, `device, pid, name, memory MiB`. Headers, comments, lines
/// that report a query as not supported, and lines with too few fields or
/// a field that does not parse are skipped. Memory is converted to
/// kibibytes.
pub fn parse_gpu_processes_csv(csv: &str) -> (r: Vec<GpuProcessInfo>)
    ensures
        r@.map_values(|p: GpuProcessInfo| gpu_process_view(p)) == gpu_process_rows(lines(csv@)),
{
    let pats = Patterns::new();
    let s = chars_of(csv);
    let ls = lines_exec(&s);
    let ghost lv = lines(csv@);
    let mut r: Vec<GpuProcessInfo> = Vec::new();
    let mut i: usize = 0;
    while i < ls.len()
        invariant
            pats.wf(),
            i <= ls.len() == lv.len(),
            lv == ls@.map_values(|v: Vec<char>| v@),
            r@.map_values(|p: GpuProcessInfo| gpu_process_view(p)) == gpu_process_rows(
                lv.take(i as int),
            ),
        decreases ls.len() - i,
    {
        assert(lv.take(i + 1).drop_last() =~= lv.take(i as int));
        assert(lv.take(i + 1).last() == ls@[i as int]@);
        let ghost before = r@;
        match gpu_process_row_exec(&ls[i], &pats) {
            Some(p) => {
                r.push(p);
                assert(r@.map_values(|p: GpuProcessInfo| gpu_process_view(p)) =~= before.map_values(
                    |p: GpuProcessInfo| gpu_process_view(p),
                ) + seq![gpu_process_view(p)]);
            },
            None => {
                assert(r@.map_values(|p: GpuProcessInfo| gpu_process_view(p)) =~= before.map_values(
                    |p: GpuProcessInfo| gpu_process_view(p),
                ) + seq![]);
            },
        }
        i += 1;
    }
    assert(lv.take(lv.len() as int) =~= lv);
    r
}

/// A device row as (index, name, total, used and free memory in
/// kibibytes, temperature, bus address); the node is not part of a row.
pub open spec fn gpu_device_view(d: GpuDevice) -> (
    u32,
    Seq<char>,
    u64,
    u64,
    u64,
    Option<u32>,
    Seq<char>,
) {
    (
        d.index,
        d.name@,
        d.memory_total_kb,
        d.memory_used_kb,
        d.memory_free_kb,
        d.temperature,
        d.pci_bus_id@,
    )
}

pub open spec fn mib_field_kb(s: Seq<char>) -> u64 {
    match mib_amount(s) {
        Some(m) => (m * 1024) as u64,
        None => 0,
    }
}

pub open spec fn skipped_device_line(line: Seq<char>) -> bool {
    line.len() == 0 || starts_with(line, "index"@) || starts_with(line, "#"@) || starts_with(
        line,
        "name"@,
    )
}

/// The row of one line of the device listing: index, name, total, used
/// and free memory, temperature and bus address, separated by `, `. A
/// memory field that does not parse reads as 0, a temperature that does
/// not parse as none.
pub open spec fn gpu_device_row(raw: Seq<char>) -> Option<
    (u32, Seq<char>, u64, u64, u64, Option<u32>, Seq<char>),
> {
    let line = trim(raw);
    let parts = split(line, ", "@);
    if skipped_device_line(line) || parts.len() < 7 {
        None
    } else {
        match parse_u32_spec(trim(parts[0])) {
            Some(index) => Some(
                (
                    index,
                    trim(parts[1]),
                    mib_field_kb(parts[2]),
                    mib_field_kb(parts[3]),
                    mib_field_kb(parts[4]),
                    parse_u32_spec(trim(parts[5])),
                    trim(parts[6]),
                ),
            ),
            None => None,
        }
    }
}

pub open spec fn gpu_device_rows(ls: Seq<Seq<char>>) -> Seq<
    (u32, Seq<char>, u64, u64, u64, Option<u32>, Seq<char>),
>
    decreases ls.len(),
{
    if ls.len() == 0 {
        seq![]
    } else {
        gpu_device_rows(ls.drop_last()) + match gpu_device_row(ls.last()) {
            Some(x) => seq![x],
            None => seq![],
        }
    }
}

fn mib_field_kb_exec(s: &Vec<char>) -> (r: u64)
    ensures
        r == mib_field_kb(s@),
{
    match mib_amount_exec(s) {
        Some(m) => mib_to_kb(m),
        None => 0,
    }
}

fn gpu_device_row_exec(raw: &Vec<char>, pats: &Patterns) -> (r: Option<GpuDevice>)
    requires
        pats.wf(),
    ensures
        match r {
            Some(d) => gpu_device_row(raw@) == Some(gpu_device_view(d)) && d.numa_node_id.is_none(),
            None => gpu_device_row(raw@).is_none(),
        },
{
    let line = trimmed(raw);
    if line.len() == 0 || starts_with_exec(&line, &pats.index) || starts_with_exec(
        &line,
        &pats.hash,
    ) || starts_with_exec(&line, &pats.name) {
        return None;
    }
    let parts = split_exec(&line, &pats.sep);
    let ghost pv = parts@.map_values(|v: Vec<char>| v@);
    if parts.len() < 7 {
        return None;
    }
    assert(forall|k: int| 0 <= k < 7 ==> pv[k] == #[trigger] parts@[k]@);
    let index = match parse_u32(&trimmed(&parts[0])) {
        Some(v) => v,
        None => return None,
    };
    let name = trimmed(&parts[1]);
    let total = mib_field_kb_exec(&parts[2]);
    let used = mib_field_kb_exec(&parts[3]);
    let free = mib_field_kb_exec(&parts[4]);
    let temperature = parse_u32(&trimmed(&parts[5]));
    let bus = trimmed(&parts[6]);
    Some(
        GpuDevice {
            index,
            name: string_of(&name),
            memory_total_kb: total,
            memory_used_kb: used,
            memory_free_kb: free,
            numa_node_id: None,
            temperature,
            pci_bus_id: string_of(&bus),
        },
    )
}

/// Parses the accelerator tool's device listing: one line per device,
/// `index, name, total MiB, used MiB, free MiB, temperature, bus address`.
/// Headers, comments, and lines with too few fields or an index that does
/// not parse are skipped. Memory is converted to kibibytes; no device has
/// a node yet.
pub fn parse_gpu_devices_csv(csv: &str) -> (r: Vec<GpuDevice>)
    ensures
        r@.map_values(|d: GpuDevice| gpu_device_view(d)) == gpu_device_rows(lines(csv@)),
        forall|i: int| 0 <= i < r@.len() ==> (#[trigger] r@[i]).numa_node_id.is_none(),
{
    let pats = Patterns::new();
    let s = chars_of(csv);
    let ls = lines_exec(&s);
    let ghost lv = lines(csv@);
    let mut r: Vec<GpuDevice> = Vec::new();
    let mut i: usize = 0;
    while i < ls.len()
        invariant
            pats.wf(),
            i <= ls.len() == lv.len(),
            lv == ls@.map_values(|v: Vec<char>| v@),
            r@.map_values(|d: GpuDevice| gpu_device_view(d)) == gpu_device_rows(lv.take(i as int)),
            forall|k: int| 0 <= k < r@.len() ==> (#[trigger] r@[k]).numa_node_id.is_none(),
        decreases ls.len() - i,
    {
        assert(lv.take(i + 1).drop_last() =~= lv.take(i as int));
        assert(lv.take(i + 1).last() == ls@[i as int]@);
        let ghost before = r@;
        match gpu_device_row_exec(&ls[i], &pats) {
            Some(d) => {
                r.push(d);
                assert(r@.map_values(|d: GpuDevice| gpu_device_view(d)) =~= before.map_values(
                    |d: GpuDevice| gpu_device_view(d),
                ) + seq![gpu_device_view(d)]);
            },
            None => {
                assert(r@.map_values(|d: GpuDevice| gpu_device_view(d)) =~= before.map_values(
                    |d: GpuDevice| gpu_device_view(d),
                ) + seq![]);
            },
        }
        i += 1;
    }
    assert(lv.take(lv.len() as int) =~= lv);
    r
}

/// The node that the kernel reports for a device's bus address: a
/// non-negative number; `-1` or anything else means none.
pub open spec fn numa_affinity(content: Seq<char>) -> Option<u32> {
    match parse_i32_spec(trim(content)) {
        Some(n) => if n >= 0 {
            Some(n as u32)
        } else {
            None
        },
        None => None,
    }
}

/// Reads the node of a device from the kernel's per-device node file.
pub fn parse_numa_node_affinity(content: &str) -> (r: Option<u32>)
    ensures
        r == numa_affinity(content@),
{
    match parse_i32(&trimmed(&chars_of(content))) {
        Some(n) => if n >= 0 {
            Some(n as u32)
        } else {
            None
        },
        None => None,
    }
}

/// The index of the last of the first `n` devices that sits on `node`.
pub open spec fn last_device_on(devs: Seq<GpuDevice>, node: u32, n: int) -> Option<u32>
    decreases n,
{
    if n <= 0 {
        None
    } else if devs[n - 1].numa_node_id == Some(node) {
        Some(devs[n - 1].index)
    } else {
        last_device_on(devs, node, n - 1)
    }
}

/// The accelerator affinity index: each node that a device sits on, mapped
/// to that device's index; where devices share a node, the last one.
pub fn gpu_numa_index(devices: &[GpuDevice]) -> (r: HashMap<u32, u32>)
    ensures
        forall|node: u32|
            #[trigger] r@.contains_key(node) <==> last_device_on(devices@, node, devices@.len() as int)
                is Some,
        forall|node: u32|
            #[trigger] r@.contains_key(node) ==> r@[node] == last_device_on(
                devices@,
                node,
                devices@.len() as int,
            )->0,
{
    let mut m: HashMap<u32, u32> = HashMap::new();
    let mut i: usize = 0;
    while i < devices.len()
        invariant
            i <= devices@.len(),
            forall|node: u32|
                #[trigger] m@.contains_key(node) <==> last_device_on(devices@, node, i as int) is Some,
            forall|node: u32|
                #[trigger] m@.contains_key(node) ==> m@[node] == last_device_on(
                    devices@,
                    node,
                    i as int,
                )->0,
        decreases devices.len() - i,
    {
        match devices[i].numa_node_id {
            Some(node) => {
                m.insert(node, devices[i].index);
            },
            None => {},
        }
        i += 1;
    }
    m
}

} // verus!
