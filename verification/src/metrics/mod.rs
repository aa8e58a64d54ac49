//! Parsers of the `/proc` and `/sys` files that the collectors read, and the choice of
//! what each sample reads.

pub mod cpu;
pub mod cpuinfo;
pub mod disk;
pub mod gpu;
pub mod history;
pub mod mem;
pub mod net;
pub mod procs;
pub mod temp;

use vstd::prelude::*;

use crate::config::Section;

verus! {

/// Which costly part of sampling runs. What is not listed here is cheap and runs on
/// every tick, because the panel shows it.
#[derive(Clone, Copy, Debug, Default, PartialEq, Eq, Structural)]
pub struct Expensive {
    /// Top processes by CPU, model and clock from /proc/cpuinfo, uptime.
    pub cpu_detail: bool,
    /// Top processes by memory.
    pub ram_detail: bool,
    /// Every mount point and the inventory of /sys/block.
    pub storage_detail: bool,
    /// `nvidia-smi` and VRAM per process.
    pub gpu_detail: bool,
}

/// The costly parts for the detail panel on view: each panel turns on its own, and
/// network and temperatures have none.
pub open spec fn expensive_spec(detail: Option<Section>) -> Expensive {
    Expensive {
        cpu_detail: detail == Some(Section::Cpu),
        ram_detail: detail == Some(Section::Ram),
        storage_detail: detail == Some(Section::Storage),
        gpu_detail: detail == Some(Section::Gpu),
    }
}

/// The costly part runs only while its detail panel is on view.
pub fn expensive_for(detail: Option<Section>) -> (e: Expensive)
    ensures
        e == expensive_spec(detail),
{
    let mut e = Expensive {
        cpu_detail: false,
        ram_detail: false,
        storage_detail: false,
        gpu_detail: false,
    };
    match detail {
        Some(Section::Cpu) => e.cpu_detail = true,
        Some(Section::Ram) => e.ram_detail = true,
        Some(Section::Storage) => e.storage_detail = true,
        Some(Section::Gpu) => e.gpu_detail = true,
        Some(Section::Network) | Some(Section::Temps) | None => {},
    }
    e
}

/// With no detail on view nothing costly runs, and at most one costly part runs at a
/// time.
pub proof fn lemma_expensive_is_exclusive(detail: Option<Section>)
    ensures
        detail is None ==> expensive_spec(detail) == (Expensive {
            cpu_detail: false,
            ram_detail: false,
            storage_detail: false,
            gpu_detail: false,
        }),
        ({
            let e = expensive_spec(detail);
            (e.cpu_detail as int) + (e.ram_detail as int) + (e.storage_detail as int) + (
            e.gpu_detail as int) <= 1
        }),
{
}

} // verus!
