use vstd::prelude::*;

verus! {

/// Capacity of a buffer of the small tier.
pub const TIER_SMALL: usize = 32768;

/// Capacity of a buffer of the medium tier.
pub const TIER_MEDIUM: usize = 262144;

/// Capacity of a buffer of the large tier.
pub const TIER_LARGE: usize = 1048576;

/// `Vec::capacity`: std documents it as the number of elements the vector can
/// hold without reallocating, so never less than its length. What else it
/// returns is the allocator's choice and is left unsaid.
#[verifier::external_body]
fn buffer_capacity(v: &Vec<u8>) -> (c: usize)
    ensures
        c >= v@.len(),
{
    v.capacity()
}

/// Counters of a pool's activity, and the bytes it holds when sampled.
#[derive(Debug, Clone, Copy, Default)]
pub struct PoolStats {
    pub acquires: u64,
    pub hits: u64,
    pub releases: u64,
    pub pooled_bytes: usize,
}

struct Pooled {
    buf: Vec<u8>,
    capacity: usize,
}

/// Recycles byte buffers in three size tiers, each with a cap on how many
/// idle buffers it keeps.
pub struct BufferPool {
    small: Vec<Pooled>,
    medium: Vec<Pooled>,
    large: Vec<Pooled>,
    max_small_count: usize,
    max_medium_count: usize,
    max_large_count: usize,
    stats: PoolStats,
}

/// The tier a request of `min` bytes is served from: 0 small, 1 medium,
/// 2 large, 3 none (a one-off buffer).
pub open spec fn request_tier(min: int) -> int {
    if min <= TIER_SMALL {
        0
    } else if min <= TIER_MEDIUM {
        1
    } else if min <= TIER_LARGE {
        2
    } else {
        3
    }
}

/// The tier a released buffer of capacity `cap` belongs to (3: none).
pub open spec fn release_tier(cap: int) -> int {
    if cap >= TIER_LARGE {
        2
    } else if cap >= TIER_MEDIUM {
        1
    } else if cap >= TIER_SMALL {
        0
    } else {
        3
    }
}

/// Where a buffer of capacity `cap` goes: appended to its tier if that tier
/// has room, otherwise dropped.
pub open spec fn place(tiers: Seq<Seq<usize>>, maxes: Seq<usize>, cap: usize) -> Seq<Seq<usize>> {
    let t = release_tier(cap as int);
    if t < 3 && tiers[t].len() < maxes[t] {
        tiers.update(t, tiers[t].push(cap))
    } else {
        tiers
    }
}

/// The idle buffers after releasing buffer `b` of capacity `cap`: `b` is
/// kept last in its tier when the capacities say it is kept.
pub open spec fn place_pooled(
    pooled: Seq<Seq<Vec<u8>>>,
    tiers: Seq<Seq<usize>>,
    maxes: Seq<usize>,
    cap: usize,
    b: Vec<u8>,
) -> Seq<Seq<Vec<u8>>> {
    let t = release_tier(cap as int);
    if t < 3 && tiers[t].len() < maxes[t] {
        pooled.update(t, pooled[t].push(b))
    } else {
        pooled
    }
}

/// Sum of capacities.
pub open spec fn caps_sum(s: Seq<usize>) -> nat
    decreases s.len(),
{
    if s.len() == 0 {
        0
    } else {
        caps_sum(s.drop_last()) + s.last() as nat
    }
}

impl BufferPool {
    /// Capacities of the idle buffers of each tier (small, medium, large).
    pub closed spec fn spec_tiers(&self) -> Seq<Seq<usize>> {
        seq![
            self.small@.map_values(|p: Pooled| p.capacity),
            self.medium@.map_values(|p: Pooled| p.capacity),
            self.large@.map_values(|p: Pooled| p.capacity),
        ]
    }

    /// The idle buffers themselves, per tier, in the order they were kept.
    pub closed spec fn spec_pooled(&self) -> Seq<Seq<Vec<u8>>> {
        seq![
            self.small@.map_values(|p: Pooled| p.buf),
            self.medium@.map_values(|p: Pooled| p.buf),
            self.large@.map_values(|p: Pooled| p.buf),
        ]
    }

    pub closed spec fn spec_maxes(&self) -> Seq<usize> {
        seq![self.max_small_count, self.max_medium_count, self.max_large_count]
    }

    pub closed spec fn spec_stats(&self) -> PoolStats {
        self.stats
    }

    spec fn tier_ok(v: Seq<Pooled>, t: int) -> bool {
        forall|i: int| 0 <= i < v.len() ==> (#[trigger] v[i]).buf@.len() == 0 && release_tier(v[i].capacity as int) == t
    }

    /// Idle buffers are empty and sit in the tier of their capacity.
    pub closed spec fn wf(&self) -> bool {
        &&& Self::tier_ok(self.small@, 0)
        &&& Self::tier_ok(self.medium@, 1)
        &&& Self::tier_ok(self.large@, 2)
    }

    pub fn new(max_small: usize, max_medium: usize, max_large: usize) -> (p: Self)
        ensures
            p.wf(),
            p.spec_tiers() == seq![Seq::<usize>::empty(), Seq::<usize>::empty(), Seq::<usize>::empty()],
            p.spec_maxes() == seq![max_small, max_medium, max_large],
            p.spec_pooled() == seq![Seq::<Vec<u8>>::empty(), Seq::<Vec<u8>>::empty(), Seq::<Vec<u8>>::empty()],
            p.spec_stats() == (PoolStats { acquires: 0, hits: 0, releases: 0, pooled_bytes: 0 }),
    {
        let p = BufferPool {
            small: Vec::with_capacity(max_small),
            medium: Vec::with_capacity(max_medium),
            large: Vec::with_capacity(max_large),
            max_small_count: max_small,
            max_medium_count: max_medium,
            max_large_count: max_large,
            stats: PoolStats { acquires: 0, hits: 0, releases: 0, pooled_bytes: 0 },
        };
        proof {
            assert(p.spec_tiers() =~~= seq![Seq::<usize>::empty(), Seq::<usize>::empty(), Seq::<usize>::empty()]);
            assert(p.spec_pooled() =~~= seq![Seq::<Vec<u8>>::empty(), Seq::<Vec<u8>>::empty(), Seq::<Vec<u8>>::empty()]);
        }
        p
    }

    /// Counters plus the bytes currently held.
    pub fn stats(&self) -> (s: PoolStats)
        requires
            caps_sum(self.spec_tiers()[0]) + caps_sum(self.spec_tiers()[1]) + caps_sum(self.spec_tiers()[2]) <= usize::MAX,
        ensures
            s == (PoolStats { pooled_bytes: s.pooled_bytes, ..self.spec_stats() }),
            s.pooled_bytes == caps_sum(self.spec_tiers()[0]) + caps_sum(self.spec_tiers()[1]) + caps_sum(self.spec_tiers()[2]),
    {
        let pooled = self.total_pooled_bytes();
        PoolStats {
            acquires: self.stats.acquires,
            hits: self.stats.hits,
            releases: self.stats.releases,
            pooled_bytes: pooled,
        }
    }

    fn tier_bytes(v: &Vec<Pooled>) -> (n: usize)
        requires
            caps_sum(v@.map_values(|p: Pooled| p.capacity)) <= usize::MAX,
        ensures
            n == caps_sum(v@.map_values(|p: Pooled| p.capacity)),
    {
        let ghost caps = v@.map_values(|p: Pooled| p.capacity);
        let mut sum: usize = 0;
        let mut i: usize = 0;
        while i < v.len()
            invariant
                i <= v@.len(),
                caps == v@.map_values(|p: Pooled| p.capacity),
                sum == caps_sum(caps.take(i as int)),
                caps_sum(caps) <= usize::MAX,
            decreases v@.len() - i,
        {
            proof {
                assert(caps.take(i as int + 1).drop_last() =~= caps.take(i as int));
                lemma_caps_sum_prefix_le(caps, i as int + 1);
            }
            sum = sum + v[i].capacity;
            i = i + 1;
        }
        proof {
            assert(caps.take(i as int) =~= caps);
        }
        sum
    }

    /// Bytes of capacity held by idle buffers.
    pub fn total_pooled_bytes(&self) -> (n: usize)
        requires
            caps_sum(self.spec_tiers()[0]) + caps_sum(self.spec_tiers()[1]) + caps_sum(self.spec_tiers()[2]) <= usize::MAX,
        ensures
            n == caps_sum(self.spec_tiers()[0]) + caps_sum(self.spec_tiers()[1]) + caps_sum(self.spec_tiers()[2]),
    {
        let small_b = Self::tier_bytes(&self.small);
        let med_b = Self::tier_bytes(&self.medium);
        let lrg_b = Self::tier_bytes(&self.large);
        small_b + med_b + lrg_b
    }

    /// An empty buffer with room for at least `min_capacity` bytes: a
    /// recycled one from the matching tier when there is one, otherwise a
    /// fresh one sized to the tier (or to the request, above the largest tier).
    pub fn acquire(&mut self, min_capacity: usize) -> (buf: Vec<u8>)
        requires
            old(self).wf(),
            old(self).spec_stats().acquires < u64::MAX,
            old(self).spec_stats().hits < u64::MAX,
        ensures
            final(self).wf(),
            buf@.len() == 0,
            final(self).spec_maxes() == old(self).spec_maxes(),
            ({
                let t = request_tier(min_capacity as int);
                let tiers = old(self).spec_tiers();
                let st = old(self).spec_stats();
                let pooled = old(self).spec_pooled();
                if t < 3 && tiers[t].len() > 0 {
                    &&& buf == pooled[t].last()
                    &&& final(self).spec_tiers() == tiers.update(t, tiers[t].drop_last())
                    &&& final(self).spec_pooled() == pooled.update(t, pooled[t].drop_last())
                    &&& final(self).spec_stats() == (PoolStats {
                        acquires: (st.acquires + 1) as u64,
                        hits: (st.hits + 1) as u64,
                        ..st
                    })
                } else {
                    &&& final(self).spec_tiers() == tiers
                    &&& final(self).spec_pooled() == pooled
                    &&& final(self).spec_stats() == (PoolStats { acquires: (st.acquires + 1) as u64, ..st })
                }
            }),
    {
        self.stats.acquires = self.stats.acquires + 1;
        let ghost tiers = old(self).spec_tiers();
        let ghost pooled = old(self).spec_pooled();
        if min_capacity <= TIER_SMALL {
            match self.small.pop() {
                Some(p) => {
                    // Idle buffers are kept empty, so it goes out as it was kept.
                    let buf = p.buf;
                    self.stats.hits = self.stats.hits + 1;
                    proof {
                        assert(self.spec_tiers() =~~= tiers.update(0, tiers[0].drop_last()));
                        assert(self.spec_pooled() =~~= pooled.update(0, pooled[0].drop_last()));
                    }
                    return buf;
                },
                None => {
                    proof {
                        assert(self.spec_tiers() =~~= tiers);
                        assert(self.spec_pooled() =~~= pooled);
                    }
                    return Vec::with_capacity(TIER_SMALL);
                },
            }
        }
        if min_capacity <= TIER_MEDIUM {
            match self.medium.pop() {
                Some(p) => {
                    // Idle buffers are kept empty, so it goes out as it was kept.
                    let buf = p.buf;
                    self.stats.hits = self.stats.hits + 1;
                    proof {
                        assert(self.spec_tiers() =~~= tiers.update(1, tiers[1].drop_last()));
                        assert(self.spec_pooled() =~~= pooled.update(1, pooled[1].drop_last()));
                    }
                    return buf;
                },
                None => {
                    proof {
                        assert(self.spec_tiers() =~~= tiers);
                        assert(self.spec_pooled() =~~= pooled);
                    }
                    return Vec::with_capacity(TIER_MEDIUM);
                },
            }
        }
        if min_capacity <= TIER_LARGE {
            match self.large.pop() {
                Some(p) => {
                    // Idle buffers are kept empty, so it goes out as it was kept.
                    let buf = p.buf;
                    self.stats.hits = self.stats.hits + 1;
                    proof {
                        assert(self.spec_tiers() =~~= tiers.update(2, tiers[2].drop_last()));
                        assert(self.spec_pooled() =~~= pooled.update(2, pooled[2].drop_last()));
                    }
                    return buf;
                },
                None => {
                    proof {
                        assert(self.spec_tiers() =~~= tiers);
                        assert(self.spec_pooled() =~~= pooled);
                    }
                    return Vec::with_capacity(TIER_LARGE);
                },
            }
        }
        proof {
            assert(self.spec_tiers() =~~= tiers);
            assert(self.spec_pooled() =~~= pooled);
        }
        Vec::with_capacity(min_capacity)
    }

    /// Takes a buffer back: it is emptied and kept in the tier of its
    /// capacity if that tier has room, otherwise dropped.
    pub fn release(&mut self, buf: Vec<u8>)
        requires
            old(self).wf(),
            old(self).spec_stats().releases < u64::MAX,
        ensures
            final(self).wf(),
            final(self).spec_maxes() == old(self).spec_maxes(),
            final(self).spec_stats() == (PoolStats {
                releases: (old(self).spec_stats().releases + 1) as u64,
                ..old(self).spec_stats()
            }),
            exists|cap: usize, kept: Vec<u8>|
                #![trigger place_pooled(old(self).spec_pooled(), old(self).spec_tiers(), old(self).spec_maxes(), cap, kept)]
                {
                    &&& cap >= buf@.len()
                    &&& kept@.len() == 0
                    &&& final(self).spec_tiers() == place(old(self).spec_tiers(), old(self).spec_maxes(), cap)
                    &&& final(self).spec_pooled() == place_pooled(
                        old(self).spec_pooled(),
                        old(self).spec_tiers(),
                        old(self).spec_maxes(),
                        cap,
                        kept,
                    )
                },
    {
        let mut buf = buf;
        self.stats.releases = self.stats.releases + 1;
        let cap = buffer_capacity(&buf);
        buf.clear();
        let ghost tiers = old(self).spec_tiers();
        let ghost maxes = old(self).spec_maxes();
        let ghost pooled = old(self).spec_pooled();
        let ghost kept = buf;
        if cap >= TIER_LARGE && self.large.len() < self.max_large_count {
            self.large.push(Pooled { buf, capacity: cap });
            proof {
                assert(self.spec_tiers() =~~= tiers.update(2, tiers[2].push(cap)));
                assert(self.spec_pooled() =~~= pooled.update(2, pooled[2].push(kept)));
            }
        } else if cap >= TIER_MEDIUM && cap < TIER_LARGE && self.medium.len() < self.max_medium_count {
            self.medium.push(Pooled { buf, capacity: cap });
            proof {
                assert(self.spec_tiers() =~~= tiers.update(1, tiers[1].push(cap)));
                assert(self.spec_pooled() =~~= pooled.update(1, pooled[1].push(kept)));
            }
        } else if cap >= TIER_SMALL && cap < TIER_MEDIUM && self.small.len() < self.max_small_count {
            self.small.push(Pooled { buf, capacity: cap });
            proof {
                assert(self.spec_tiers() =~~= tiers.update(0, tiers[0].push(cap)));
                assert(self.spec_pooled() =~~= pooled.update(0, pooled[0].push(kept)));
            }
        } else {
            proof {
                assert(self.spec_tiers() =~~= tiers);
                assert(self.spec_pooled() =~~= pooled);
            }
        }
        proof {
            assert(self.spec_tiers() == place(tiers, maxes, cap));
            assert(self.spec_pooled() == place_pooled(pooled, tiers, maxes, cap, kept));
        }
    }

    /// Drops every idle buffer.
    pub fn clear(&mut self)
        requires
            old(self).wf(),
        ensures
            final(self).wf(),
            final(self).spec_tiers() == seq![Seq::<usize>::empty(), Seq::<usize>::empty(), Seq::<usize>::empty()],
            final(self).spec_maxes() == old(self).spec_maxes(),
            final(self).spec_pooled() == seq![Seq::<Vec<u8>>::empty(), Seq::<Vec<u8>>::empty(), Seq::<Vec<u8>>::empty()],
            final(self).spec_stats() == old(self).spec_stats(),
    {
        self.small.clear();
        self.medium.clear();
        self.large.clear();
        proof {
            assert(self.spec_tiers() =~~= seq![Seq::<usize>::empty(), Seq::<usize>::empty(), Seq::<usize>::empty()]);
            assert(self.spec_pooled() =~~= seq![Seq::<Vec<u8>>::empty(), Seq::<Vec<u8>>::empty(), Seq::<Vec<u8>>::empty()]);
        }
    }
}

impl Default for BufferPool {
    fn default() -> (p: Self)
        ensures
            p.wf(),
            p.spec_tiers() == seq![Seq::<usize>::empty(), Seq::<usize>::empty(), Seq::<usize>::empty()],
            p.spec_maxes() == seq![8usize, 4usize, 2usize],
    {
        BufferPool::new(8, 4, 2)
    }
}

proof fn lemma_caps_sum_prefix_le(s: Seq<usize>, i: int)
    requires
        0 <= i <= s.len(),
    ensures
        caps_sum(s.take(i)) <= caps_sum(s),
    decreases s.len() - i,
{
    if i < s.len() {
        lemma_caps_sum_prefix_le(s, i + 1);
        assert(s.take(i + 1).drop_last() =~= s.take(i));
    } else {
        assert(s.take(i) =~= s);
    }
}

/// A released buffer comes back to the request that matches its tier: after
/// a release that the pool kept, the next acquire from that tier is a hit.
pub proof fn law_release_then_acquire_hits(tiers: Seq<Seq<usize>>, maxes: Seq<usize>, cap: usize)
    requires
        tiers.len() == 3,
        maxes.len() == 3,
        release_tier(cap as int) < 3,
        tiers[release_tier(cap as int)].len() < maxes[release_tier(cap as int)],
    ensures
        place(tiers, maxes, cap)[release_tier(cap as int)].len() > 0,
        place(tiers, maxes, cap)[release_tier(cap as int)].last() == cap,
{
}

/// The buffer a release keeps is the one the next acquire from its tier
/// hands out: it sits last in its tier.
pub proof fn law_release_then_acquire_returns_kept(
    pooled: Seq<Seq<Vec<u8>>>,
    tiers: Seq<Seq<usize>>,
    maxes: Seq<usize>,
    cap: usize,
    kept: Vec<u8>,
)
    requires
        pooled.len() == 3,
        tiers.len() == 3,
        maxes.len() == 3,
        release_tier(cap as int) < 3,
        tiers[release_tier(cap as int)].len() < maxes[release_tier(cap as int)],
    ensures
        place_pooled(pooled, tiers, maxes, cap, kept)[release_tier(cap as int)].last() == kept,
{
}

/// A tier never grows past its cap.
pub proof fn law_tier_cap(tiers: Seq<Seq<usize>>, maxes: Seq<usize>, cap: usize, t: int)
    requires
        tiers.len() == 3,
        maxes.len() == 3,
        0 <= t < 3,
        tiers[t].len() <= maxes[t],
    ensures
        place(tiers, maxes, cap)[t].len() <= maxes[t],
{
}

} // verus!
