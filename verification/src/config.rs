use vstd::prelude::*;

verus! {

/// Startup parameters of an explorer: the spawn cost per resource kind, the
/// Manhattan radius it reveals after moving, and its tick delay.
#[derive(Clone, Copy, Debug)]
pub struct ExplorerConfig {
    pub cost_science: usize,
    pub cost_ore: usize,
    pub cost_energy: usize,
    pub vision_range: usize,
    pub move_delay_ms: u64,
}

/// Startup parameters of a collector: the spawn cost per resource kind and
/// its tick delay.
#[derive(Clone, Copy, Debug)]
pub struct CollectorConfig {
    pub cost_science: usize,
    pub cost_ore: usize,
    pub cost_energy: usize,
    pub move_delay_ms: u64,
}

/// Per-kind agent parameters.
#[derive(Clone, Copy, Debug)]
pub struct RobotsConfig {
    pub explorer: ExplorerConfig,
    pub collector: CollectorConfig,
}

/// Initial ledger levels and roster sizes.
#[derive(Clone, Copy, Debug)]
pub struct BaseConfig {
    pub initial_energy: usize,
    pub initial_ore: usize,
    pub initial_science: usize,
    pub initial_explorers: usize,
    pub initial_collectors: usize,
}

} // verus!
