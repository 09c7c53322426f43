use vstd::prelude::*;

verus! {

/// The parts of the launcher that memory is accounted to.
#[derive(Debug, Clone, Copy, PartialEq, Eq, Structural, Hash)]
pub enum Subsystem {
    Textures,
    Metadata,
    Audio,
    Ui,
    Network,
    Other,
}

pub open spec fn subsystem_name(sys: Subsystem) -> Seq<char> {
    match sys {
        Subsystem::Textures => "Textures"@,
        Subsystem::Metadata => "Metadata"@,
        Subsystem::Audio => "Audio"@,
        Subsystem::Ui => "UI & Meshes"@,
        Subsystem::Network => "Network"@,
        Subsystem::Other => "Other"@,
    }
}

impl Subsystem {
    pub fn name(&self) -> (s: &'static str)
        ensures
            s@ == subsystem_name(*self),
    {
        match self {
            Subsystem::Textures => "Textures",
            Subsystem::Metadata => "Metadata",
            Subsystem::Audio => "Audio",
            Subsystem::Ui => "UI & Meshes",
            Subsystem::Network => "Network",
            Subsystem::Other => "Other",
        }
    }
}

/// Limit, current use and high-water mark of one subsystem, in bytes.
#[derive(Debug, Clone, Copy)]
pub struct BudgetInfo {
    pub limit_bytes: usize,
    pub used_bytes: usize,
    pub peak_bytes: usize,
}

impl BudgetInfo {
    /// The peak never falls below the current use.
    pub open spec fn wf(&self) -> bool {
        self.used_bytes <= self.peak_bytes
    }

    pub fn new(limit_bytes: usize) -> (b: Self)
        ensures
            b.limit_bytes == limit_bytes,
            b.used_bytes == 0,
            b.peak_bytes == 0,
    {
        BudgetInfo { limit_bytes, used_bytes: 0, peak_bytes: 0 }
    }

    pub fn record_alloc(&mut self, bytes: usize)
        requires
            old(self).used_bytes + bytes <= usize::MAX,
        ensures
            final(self).limit_bytes == old(self).limit_bytes,
            final(self).used_bytes == old(self).used_bytes + bytes,
            final(self).peak_bytes == if old(self).used_bytes + bytes > old(self).peak_bytes {
                old(self).used_bytes + bytes
            } else {
                old(self).peak_bytes as int
            },
    {
        self.used_bytes = self.used_bytes + bytes;
        if self.used_bytes > self.peak_bytes {
            self.peak_bytes = self.used_bytes;
        }
    }

    pub fn record_free(&mut self, bytes: usize)
        ensures
            final(self).limit_bytes == old(self).limit_bytes,
            final(self).peak_bytes == old(self).peak_bytes,
            final(self).used_bytes == if old(self).used_bytes >= bytes {
                old(self).used_bytes - bytes
            } else {
                0
            },
    {
        self.used_bytes = self.used_bytes.saturating_sub(bytes);
    }

    pub fn has_headroom(&self, required: usize) -> (b: bool)
        requires
            self.used_bytes + required <= usize::MAX,
        ensures
            b == (self.used_bytes + required <= self.limit_bytes),
    {
        self.used_bytes + required <= self.limit_bytes
    }

    pub fn remaining_bytes(&self) -> (n: usize)
        ensures
            n == if self.limit_bytes >= self.used_bytes {
                self.limit_bytes - self.used_bytes
            } else {
                0
            },
    {
        self.limit_bytes.saturating_sub(self.used_bytes)
    }
}

/// Recording an allocation keeps the peak at or above the use.
pub proof fn law_alloc_keeps_peak(before: BudgetInfo, after: BudgetInfo, bytes: usize)
    requires
        before.wf(),
        after.limit_bytes == before.limit_bytes,
        after.used_bytes == before.used_bytes + bytes,
        after.peak_bytes == if before.used_bytes + bytes > before.peak_bytes {
            before.used_bytes + bytes
        } else {
            before.peak_bytes as int
        },
    ensures
        after.wf(),
        after.peak_bytes >= before.peak_bytes,
{
}

/// Freeing what was just allocated restores the use and keeps the peak.
pub proof fn law_alloc_then_free(before: BudgetInfo, mid: BudgetInfo, after: BudgetInfo, bytes: usize)
    requires
        mid.used_bytes == before.used_bytes + bytes,
        mid.peak_bytes >= before.peak_bytes,
        after.peak_bytes == mid.peak_bytes,
        after.used_bytes == if mid.used_bytes >= bytes {
            mid.used_bytes - bytes
        } else {
            0
        },
    ensures
        after.used_bytes == before.used_bytes,
        after.peak_bytes >= before.peak_bytes,
{
}

/// An unused budget with the given limit.
pub open spec fn fresh_budget(limit: usize) -> BudgetInfo {
    BudgetInfo { limit_bytes: limit, used_bytes: 0, peak_bytes: 0 }
}

/// One budget per subsystem.
#[derive(Debug, Clone, Copy)]
pub struct SubsystemBudgets {
    pub textures: BudgetInfo,
    pub metadata: BudgetInfo,
    pub audio: BudgetInfo,
    pub ui: BudgetInfo,
    pub network: BudgetInfo,
    pub other: BudgetInfo,
}

impl SubsystemBudgets {
    pub open spec fn spec_get(&self, sys: Subsystem) -> BudgetInfo {
        match sys {
            Subsystem::Textures => self.textures,
            Subsystem::Metadata => self.metadata,
            Subsystem::Audio => self.audio,
            Subsystem::Ui => self.ui,
            Subsystem::Network => self.network,
            Subsystem::Other => self.other,
        }
    }

    /// `self` with the budget of `sys` replaced by `b`.
    pub open spec fn spec_with(&self, sys: Subsystem, b: BudgetInfo) -> Self {
        match sys {
            Subsystem::Textures => SubsystemBudgets { textures: b, ..*self },
            Subsystem::Metadata => SubsystemBudgets { metadata: b, ..*self },
            Subsystem::Audio => SubsystemBudgets { audio: b, ..*self },
            Subsystem::Ui => SubsystemBudgets { ui: b, ..*self },
            Subsystem::Network => SubsystemBudgets { network: b, ..*self },
            Subsystem::Other => SubsystemBudgets { other: b, ..*self },
        }
    }

    pub open spec fn spec_total_used(&self) -> int {
        self.textures.used_bytes + self.metadata.used_bytes + self.audio.used_bytes
            + self.ui.used_bytes + self.network.used_bytes + self.other.used_bytes
    }

    pub open spec fn spec_total_limit(&self) -> int {
        self.textures.limit_bytes + self.metadata.limit_bytes + self.audio.limit_bytes
            + self.ui.limit_bytes + self.network.limit_bytes + self.other.limit_bytes
    }

    pub fn get(&self, sys: Subsystem) -> (b: &BudgetInfo)
        ensures
            *b == self.spec_get(sys),
    {
        match sys {
            Subsystem::Textures => &self.textures,
            Subsystem::Metadata => &self.metadata,
            Subsystem::Audio => &self.audio,
            Subsystem::Ui => &self.ui,
            Subsystem::Network => &self.network,
            Subsystem::Other => &self.other,
        }
    }

    pub fn get_mut(&mut self, sys: Subsystem) -> (b: &mut BudgetInfo)
        ensures
            *b == old(self).spec_get(sys),
            *final(self) == old(self).spec_with(sys, *final(b)),
    {
        match sys {
            Subsystem::Textures => &mut self.textures,
            Subsystem::Metadata => &mut self.metadata,
            Subsystem::Audio => &mut self.audio,
            Subsystem::Ui => &mut self.ui,
            Subsystem::Network => &mut self.network,
            Subsystem::Other => &mut self.other,
        }
    }

    pub fn record_alloc(&mut self, sys: Subsystem, bytes: usize)
        requires
            old(self).spec_get(sys).used_bytes + bytes <= usize::MAX,
        ensures
            ({
                let b = old(self).spec_get(sys);
                let nb = BudgetInfo {
                    limit_bytes: b.limit_bytes,
                    used_bytes: (b.used_bytes + bytes) as usize,
                    peak_bytes: if b.used_bytes + bytes > b.peak_bytes {
                        (b.used_bytes + bytes) as usize
                    } else {
                        b.peak_bytes
                    },
                };
                *final(self) == old(self).spec_with(sys, nb)
            }),
    {
        self.get_mut(sys).record_alloc(bytes);
    }

    pub fn record_free(&mut self, sys: Subsystem, bytes: usize)
        ensures
            ({
                let b = old(self).spec_get(sys);
                let nb = BudgetInfo {
                    limit_bytes: b.limit_bytes,
                    used_bytes: if b.used_bytes >= bytes {
                        (b.used_bytes - bytes) as usize
                    } else {
                        0
                    },
                    peak_bytes: b.peak_bytes,
                };
                *final(self) == old(self).spec_with(sys, nb)
            }),
    {
        self.get_mut(sys).record_free(bytes);
    }

    pub fn total_used_bytes(&self) -> (n: usize)
        requires
            self.spec_total_used() <= usize::MAX,
        ensures
            n == self.spec_total_used(),
    {
        self.textures.used_bytes + self.metadata.used_bytes + self.audio.used_bytes
            + self.ui.used_bytes + self.network.used_bytes + self.other.used_bytes
    }

    pub fn total_limit_bytes(&self) -> (n: usize)
        requires
            self.spec_total_limit() <= usize::MAX,
        ensures
            n == self.spec_total_limit(),
    {
        self.textures.limit_bytes + self.metadata.limit_bytes + self.audio.limit_bytes
            + self.ui.limit_bytes + self.network.limit_bytes + self.other.limit_bytes
    }
}

impl Default for SubsystemBudgets {
    fn default() -> (b: Self)
        ensures
            b.textures == fresh_budget(62914560),
            b.metadata == fresh_budget(15728640),
            b.audio == fresh_budget(12582912),
            b.ui == fresh_budget(26214400),
            b.network == fresh_budget(8388608),
            b.other == fresh_budget(10485760),
    {
        SubsystemBudgets {
            textures: BudgetInfo::new(60 * 1024 * 1024),
            metadata: BudgetInfo::new(15 * 1024 * 1024),
            audio: BudgetInfo::new(12 * 1024 * 1024),
            ui: BudgetInfo::new(25 * 1024 * 1024),
            network: BudgetInfo::new(8 * 1024 * 1024),
            other: BudgetInfo::new(10 * 1024 * 1024),
        }
    }
}

/// Accounting to one subsystem leaves every other subsystem's budget alone.
pub proof fn law_budgets_independent(
    s: SubsystemBudgets,
    sys: Subsystem,
    other: Subsystem,
    b: BudgetInfo,
)
    requires
        sys != other,
    ensures
        s.spec_with(sys, b).spec_get(other) == s.spec_get(other),
        s.spec_with(sys, b).spec_get(sys) == b,
{
}

} // verus!
