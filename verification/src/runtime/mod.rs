use vstd::prelude::*;

pub mod arena;
pub mod budget;
pub mod governor;
pub mod lru;
pub mod pool;

pub use arena::{StringArena, StringRef};
pub use budget::{BudgetInfo, Subsystem, SubsystemBudgets};
pub use governor::{MemoryGovernor, MemoryPressure};
pub use lru::{LruCache, LruStats};
pub use pool::{BufferPool, PoolStats};

verus! {

/// The launcher's memory services: pressure governor, per-subsystem
/// budgets, buffer pool and string arena.
pub struct VitaRuntime {
    pub governor: MemoryGovernor,
    pub budgets: SubsystemBudgets,
    pub pool: BufferPool,
    pub arena: StringArena,
}

impl VitaRuntime {
    pub open spec fn wf(&self) -> bool {
        &&& self.governor.wf()
        &&& self.pool.wf()
        &&& self.arena.wf()
    }

    pub fn new() -> (r: Self)
        ensures
            r.wf(),
            r.governor.spec_pressure() == MemoryPressure::Normal,
            r.governor.spec_last_free() == governor::HEAP_BUDGET_BYTES,
            r.governor.spec_simulated() is None,
            r.budgets.textures == budget::fresh_budget(62914560),
            r.budgets.metadata == budget::fresh_budget(15728640),
            r.budgets.audio == budget::fresh_budget(12582912),
            r.budgets.ui == budget::fresh_budget(26214400),
            r.budgets.network == budget::fresh_budget(8388608),
            r.budgets.other == budget::fresh_budget(10485760),
            r.pool.spec_maxes() == seq![8usize, 4usize, 2usize],
            r.arena.spec_total() == 0,
    {
        VitaRuntime {
            governor: MemoryGovernor::new(),
            budgets: SubsystemBudgets::default(),
            pool: BufferPool::default(),
            arena: StringArena::new(),
        }
    }

    /// Polls memory and updates the pressure level (see `MemoryGovernor::tick`).
    pub fn tick(&mut self) -> (res: (MemoryPressure, bool))
        requires
            old(self).wf(),
        ensures
            final(self).wf(),
            final(self).budgets == old(self).budgets,
            final(self).governor.spec_simulated() == old(self).governor.spec_simulated(),
            final(self).governor.spec_last_free() == match old(self).governor.spec_simulated() {
                Some(s) => s,
                None => governor::HEAP_BUDGET_BYTES,
            },
            res.0 == old(self).governor.spec_classify(final(self).governor.spec_last_free() as int),
            final(self).governor.spec_pressure() == res.0,
            res.1 == (res.0 != old(self).governor.spec_pressure()),
    {
        self.governor.tick()
    }

    pub fn pressure(&self) -> (p: MemoryPressure)
        ensures
            p == self.governor.spec_pressure(),
    {
        self.governor.current_pressure()
    }

    pub fn free_memory_bytes(&self) -> (n: usize)
        ensures
            n == self.governor.spec_last_free(),
    {
        self.governor.last_free_bytes()
    }
}

impl Default for VitaRuntime {
    fn default() -> (r: Self)
        ensures
            r.wf(),
            r.governor.spec_pressure() == MemoryPressure::Normal,
    {
        VitaRuntime::new()
    }
}

} // verus!
