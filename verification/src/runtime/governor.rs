use vstd::prelude::*;

verus! {

/// Total heap the launcher plans around.
pub const HEAP_BUDGET_BYTES: usize = 201326592;

/// How close the launcher is to running out of heap.
#[derive(Debug, Clone, Copy, PartialEq, Eq, Structural, PartialOrd, Ord, Hash)]
pub enum MemoryPressure {
    Normal,
    Warning,
    Aggressive,
    Emergency,
}

/// Severity rank of a pressure level (0 = normal .. 3 = emergency).
pub open spec fn pressure_rank(p: MemoryPressure) -> int {
    match p {
        MemoryPressure::Normal => 0,
        MemoryPressure::Warning => 1,
        MemoryPressure::Aggressive => 2,
        MemoryPressure::Emergency => 3,
    }
}

pub open spec fn pressure_label(p: MemoryPressure) -> Seq<char> {
    match p {
        MemoryPressure::Normal => "NORMAL"@,
        MemoryPressure::Warning => "WARNING"@,
        MemoryPressure::Aggressive => "AGGRESSIVE EVICTION"@,
        MemoryPressure::Emergency => "EMERGENCY"@,
    }
}

impl MemoryPressure {
    /// Human-readable label.
    pub fn label(&self) -> (s: &'static str)
        ensures
            s@ == pressure_label(*self),
    {
        match self {
            MemoryPressure::Normal => "NORMAL",
            MemoryPressure::Warning => "WARNING",
            MemoryPressure::Aggressive => "AGGRESSIVE EVICTION",
            MemoryPressure::Emergency => "EMERGENCY",
        }
    }

    /// Whether `self` is at least as severe as `other` (the derived order).
    pub fn at_least(&self, other: MemoryPressure) -> (b: bool)
        ensures
            b == (pressure_rank(*self) >= pressure_rank(other)),
    {
        self.rank() >= other.rank()
    }

    /// Severity rank of this level.
    pub fn rank(&self) -> (r: u8)
        ensures
            r == pressure_rank(*self),
    {
        match self {
            MemoryPressure::Normal => 0,
            MemoryPressure::Warning => 1,
            MemoryPressure::Aggressive => 2,
            MemoryPressure::Emergency => 3,
        }
    }
}

/// The pressure level for a given amount of free heap, against the three thresholds.
pub open spec fn classify_free(free: int, normal: int, warning: int, aggressive: int) -> MemoryPressure {
    if free >= normal {
        MemoryPressure::Normal
    } else if free >= warning {
        MemoryPressure::Warning
    } else if free >= aggressive {
        MemoryPressure::Aggressive
    } else {
        MemoryPressure::Emergency
    }
}

/// Watches free heap and turns it into a pressure level.
pub struct MemoryGovernor {
    current_pressure: MemoryPressure,
    last_free_bytes: usize,
    simulated_free_bytes: Option<usize>,
    normal_threshold_bytes: usize,
    warning_threshold_bytes: usize,
    aggressive_threshold_bytes: usize,
}

impl MemoryGovernor {
    pub closed spec fn spec_pressure(&self) -> MemoryPressure {
        self.current_pressure
    }

    pub closed spec fn spec_last_free(&self) -> nat {
        self.last_free_bytes as nat
    }

    pub closed spec fn spec_simulated(&self) -> Option<usize> {
        self.simulated_free_bytes
    }

    /// The level that a reading of `free` bytes maps to.
    pub closed spec fn spec_classify(&self, free: int) -> MemoryPressure {
        classify_free(
            free,
            self.normal_threshold_bytes as int,
            self.warning_threshold_bytes as int,
            self.aggressive_threshold_bytes as int,
        )
    }

    /// The thresholds are the halves of the heap budget: 1/2, 1/4 and 1/8.
    pub closed spec fn wf(&self) -> bool {
        &&& self.normal_threshold_bytes == HEAP_BUDGET_BYTES / 2
        &&& self.warning_threshold_bytes == HEAP_BUDGET_BYTES / 4
        &&& self.aggressive_threshold_bytes == HEAP_BUDGET_BYTES / 8
    }

    pub proof fn lemma_classify(&self, free: int)
        requires
            self.wf(),
        ensures
            self.spec_classify(free) == classify_free(
                free,
                (HEAP_BUDGET_BYTES / 2) as int,
                (HEAP_BUDGET_BYTES / 4) as int,
                (HEAP_BUDGET_BYTES / 8) as int,
            ),
    {
    }

    pub fn new() -> (g: Self)
        ensures
            g.wf(),
            g.spec_pressure() == MemoryPressure::Normal,
            g.spec_last_free() == HEAP_BUDGET_BYTES,
            g.spec_simulated() is None,
    {
        MemoryGovernor {
            current_pressure: MemoryPressure::Normal,
            last_free_bytes: HEAP_BUDGET_BYTES,
            simulated_free_bytes: None,
            normal_threshold_bytes: HEAP_BUDGET_BYTES / 2,
            warning_threshold_bytes: HEAP_BUDGET_BYTES / 4,
            aggressive_threshold_bytes: HEAP_BUDGET_BYTES / 8,
        }
    }

    pub fn current_pressure(&self) -> (p: MemoryPressure)
        ensures
            p == self.spec_pressure(),
    {
        self.current_pressure
    }

    pub fn last_free_bytes(&self) -> (n: usize)
        ensures
            n == self.spec_last_free(),
    {
        self.last_free_bytes
    }

    pub fn set_simulated_free_bytes(&mut self, free_bytes: Option<usize>)
        requires
            old(self).wf(),
        ensures
            final(self).wf(),
            final(self).spec_simulated() == free_bytes,
            final(self).spec_pressure() == old(self).spec_pressure(),
            final(self).spec_last_free() == old(self).spec_last_free(),
    {
        self.simulated_free_bytes = free_bytes;
    }

    /// Free heap as this build sees it: the simulated value when one is set,
    /// otherwise the whole budget.
    pub fn poll_system_free_memory(&self) -> (n: usize)
        ensures
            n == match self.spec_simulated() {
                Some(s) => s,
                None => HEAP_BUDGET_BYTES,
            },
    {
        match self.simulated_free_bytes {
            Some(simulated) => simulated,
            None => HEAP_BUDGET_BYTES,
        }
    }

    /// Polls free memory, updates the level, and reports the new level and
    /// whether it changed.
    pub fn tick(&mut self) -> (res: (MemoryPressure, bool))
        requires
            old(self).wf(),
        ensures
            final(self).wf(),
            final(self).spec_simulated() == old(self).spec_simulated(),
            final(self).spec_last_free() == match old(self).spec_simulated() {
                Some(s) => s,
                None => HEAP_BUDGET_BYTES,
            },
            res.0 == old(self).spec_classify(final(self).spec_last_free() as int),
            final(self).spec_pressure() == res.0,
            res.1 == (res.0 != old(self).spec_pressure()),
    {
        let free_bytes = self.poll_system_free_memory();
        self.last_free_bytes = free_bytes;

        let new_pressure = if free_bytes >= self.normal_threshold_bytes {
            MemoryPressure::Normal
        } else if free_bytes >= self.warning_threshold_bytes {
            MemoryPressure::Warning
        } else if free_bytes >= self.aggressive_threshold_bytes {
            MemoryPressure::Aggressive
        } else {
            MemoryPressure::Emergency
        };

        let changed = new_pressure != self.current_pressure;
        self.current_pressure = new_pressure;
        (new_pressure, changed)
    }
}

/// Fewer free bytes never means a lower pressure level.
pub proof fn lemma_pressure_monotone(g: MemoryGovernor, a: int, b: int)
    requires
        g.wf(),
        a <= b,
    ensures
        pressure_rank(g.spec_classify(a)) >= pressure_rank(g.spec_classify(b)),
{
    g.lemma_classify(a);
    g.lemma_classify(b);
}

impl Default for MemoryGovernor {
    fn default() -> (g: Self)
        ensures
            g.wf(),
            g.spec_pressure() == MemoryPressure::Normal,
            g.spec_last_free() == HEAP_BUDGET_BYTES,
            g.spec_simulated() is None,
    {
        MemoryGovernor::new()
    }
}

} // verus!
