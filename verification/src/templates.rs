//! The figures that the dashboard page shows.
use vstd::prelude::*;
use crate::state::CachedContainerInfo;

verus! {

/// Network throughput since the previous sample.
pub struct NetworkInfo {
    pub rx_speed: String,
    pub tx_speed: String,
    pub rx_val: u64,
    pub tx_val: u64,
}

/// One container as the dashboard lists it.
pub struct ContainerInfo {
    pub name: String,
    pub is_running: bool,
    pub cpu: String,
    pub memory: String,
    pub net_io: String,
}

/// Usage of one disk (or ZFS pool).
pub struct DiskInfo {
    pub name: String,
    pub total: String,
    pub used: String,
    pub percentage: u32,
}

/// One of the busiest processes.
pub struct ProcessInfo {
    pub name: String,
    pub memory: String,
    pub cpu: String,
    pub memory_pct: String,
}

/// The container list of the dashboard: the cached poll results, field for
/// field, in the same order.
pub fn containers_for_display(cache: &Vec<CachedContainerInfo>) -> (r: Vec<ContainerInfo>)
    ensures
        r@.len() == cache@.len(),
        forall|i: int|
            0 <= i < cache@.len() ==> {
                &&& (#[trigger] r@[i]).name@ == cache@[i].name@
                &&& r@[i].is_running == cache@[i].is_running
                &&& r@[i].cpu@ == cache@[i].cpu@
                &&& r@[i].memory@ == cache@[i].memory@
                &&& r@[i].net_io@ == cache@[i].net_io@
            },
{
    let mut r: Vec<ContainerInfo> = Vec::new();
    let mut i: usize = 0;
    while i < cache.len()
        invariant
            i <= cache@.len(),
            r@.len() == i,
            forall|k: int|
                0 <= k < i ==> {
                    &&& (#[trigger] r@[k]).name@ == cache@[k].name@
                    &&& r@[k].is_running == cache@[k].is_running
                    &&& r@[k].cpu@ == cache@[k].cpu@
                    &&& r@[k].memory@ == cache@[k].memory@
                    &&& r@[k].net_io@ == cache@[k].net_io@
                },
        decreases cache@.len() - i,
    {
        let c = &cache[i];
        r.push(
            ContainerInfo {
                name: c.name.clone(),
                is_running: c.is_running,
                cpu: c.cpu.clone(),
                memory: c.memory.clone(),
                net_io: c.net_io.clone(),
            },
        );
        i = i + 1;
    }
    r
}

} // verus!
