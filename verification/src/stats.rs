use vstd::prelude::*;

use crate::text::{str_equal, to_ascii_uppercase, trim, trim_seq, upper_seq};

verus! {

/// Launch statistics of one title. The launcher exits when it starts a
/// title, so these count launches rather than guessed play time.
#[derive(Clone, Copy, Debug, PartialEq, Eq, Structural)]
pub struct GameStats {
    pub launch_count: u32,
    pub last_launched_at: u64,
}

impl Default for GameStats {
    fn default() -> (s: Self)
        ensures
            s.launch_count == 0,
            s.last_launched_at == 0,
    {
        GameStats { launch_count: 0, last_launched_at: 0 }
    }
}

/// The key statistics are stored under: the id trimmed and upper-cased.
pub open spec fn stats_key(id: Seq<char>) -> Seq<char> {
    upper_seq(trim_seq(id))
}

/// No key occurs twice.
pub open spec fn stats_keys_distinct(v: Seq<(String, GameStats)>) -> bool {
    forall|i: int, j: int| 0 <= i < j < v.len() ==> (#[trigger] v[i]).0@ != (#[trigger] v[j]).0@
}

/// The statistics stored under `k`, if any.
pub open spec fn stats_lookup(v: Seq<(String, GameStats)>, k: Seq<char>) -> Option<GameStats> {
    if exists|i: int| 0 <= i < v.len() && (#[trigger] v[i]).0@ == k {
        let i = choose|i: int| 0 <= i < v.len() && (#[trigger] v[i]).0@ == k;
        Some(v[i].1)
    } else {
        None
    }
}

/// One more launch at `timestamp` on top of `prev` (the count saturates).
pub open spec fn after_launch(prev: Option<GameStats>, timestamp: u64) -> GameStats {
    let count: u32 = match prev {
        Some(s) => s.launch_count,
        None => 0,
    };
    GameStats {
        launch_count: if count == u32::MAX { u32::MAX } else { (count + 1) as u32 },
        last_launched_at: timestamp,
    }
}

/// The statistics pairs read from storage give for key `k`: those of the
/// last pair whose id normalizes to `k`, if any.
pub open spec fn loaded_stats(pairs: Seq<(String, GameStats)>, k: Seq<char>) -> Option<GameStats>
    decreases pairs.len(),
{
    if pairs.len() == 0 {
        None
    } else if stats_key(pairs.last().0@) == k {
        Some(pairs.last().1)
    } else {
        loaded_stats(pairs.drop_last(), k)
    }
}

proof fn lemma_stats_lookup_at(v: Seq<(String, GameStats)>, k: Seq<char>, i: int)
    requires
        stats_keys_distinct(v),
        0 <= i < v.len(),
        v[i].0@ == k,
    ensures
        stats_lookup(v, k) == Some(v[i].1),
{
    let m = choose|m: int| 0 <= m < v.len() && (#[trigger] v[m]).0@ == k;
    if m != i {
        if m < i {
            assert(v[m].0@ != v[i].0@);
        } else {
            assert(v[i].0@ != v[m].0@);
        }
    }
}

/// Launch statistics of all titles, keyed by normalized title id.
pub struct GameStatsStore {
    entries: Vec<(String, GameStats)>,
}

impl Default for GameStatsStore {
    fn default() -> (s: Self)
        ensures
            s.wf(),
            forall|k: Seq<char>| #[trigger] s.lookup(k) is None,
    {
        GameStatsStore { entries: Vec::new() }
    }
}

impl GameStatsStore {
    pub closed spec fn wf(&self) -> bool {
        stats_keys_distinct(self.entries@)
    }

    /// The statistics stored under the normalized key `k`.
    pub closed spec fn lookup(&self, k: Seq<char>) -> Option<GameStats> {
        stats_lookup(self.entries@, k)
    }

    /// The stored (key, statistics) pairs, in storage order.
    pub closed spec fn pairs(&self) -> Seq<(Seq<char>, GameStats)> {
        self.entries@.map_values(|p: (String, GameStats)| (p.0@, p.1))
    }

    /// Builds a store from (title id, statistics) pairs, as read from storage;
    /// ids are normalized and a later pair for the same id replaces an earlier one.
    pub fn from_pairs(pairs: Vec<(String, GameStats)>) -> (s: Self)
        ensures
            s.wf(),
            forall|k: Seq<char>| #[trigger] s.lookup(k) == loaded_stats(pairs@, k),
    {
        let mut s = GameStatsStore::default();
        let mut i: usize = 0;
        while i < pairs.len()
            invariant
                s.wf(),
                i <= pairs@.len(),
                forall|k: Seq<char>| #[trigger] s.lookup(k) == loaded_stats(pairs@.take(i as int), k),
            decreases pairs@.len() - i,
        {
            proof {
                assert(pairs@.take(i as int + 1).drop_last() =~= pairs@.take(i as int));
                assert(pairs@.take(i as int + 1).last() == pairs@[i as int]);
            }
            s.put(pairs[i].0.as_str(), pairs[i].1);
            i = i + 1;
        }
        proof {
            assert(pairs@.take(i as int) =~= pairs@);
        }
        s
    }

    /// The stored (key, statistics) pairs, for writing them out.
    pub fn to_pairs(&self) -> (v: Vec<(String, GameStats)>)
        ensures
            v@.len() == self.pairs().len(),
            forall|i: int| 0 <= i < v@.len() ==> (#[trigger] v@[i]).0@ == self.pairs()[i].0 && v@[i].1
                == self.pairs()[i].1,
    {
        let mut v: Vec<(String, GameStats)> = Vec::new();
        let mut i: usize = 0;
        while i < self.entries.len()
            invariant
                i <= self.entries@.len(),
                v@.len() == i,
                forall|j: int| 0 <= j < i ==> (#[trigger] v@[j]).0@ == self.entries@[j].0@ && v@[j].1
                    == self.entries@[j].1,
            decreases self.entries@.len() - i,
        {
            let key = self.entries[i].0.clone();
            v.push((key, self.entries[i].1));
            i = i + 1;
        }
        v
    }

    fn find(&self, key: &str) -> (r: Option<usize>)
        ensures
            match r {
                Some(i) => i < self.entries@.len() && self.entries@[i as int].0@ == key@,
                None => forall|j: int| 0 <= j < self.entries@.len() ==> (#[trigger] self.entries@[j]).0@ != key@,
            },
    {
        let mut i: usize = 0;
        while i < self.entries.len()
            invariant
                i <= self.entries@.len(),
                forall|j: int| 0 <= j < i ==> (#[trigger] self.entries@[j]).0@ != key@,
            decreases self.entries@.len() - i,
        {
            if str_equal(self.entries[i].0.as_str(), key) {
                return Some(i);
            }
            i = i + 1;
        }
        None
    }

    /// Stores `stats` for a title id read from storage.
    fn put(&mut self, title_id: &str, stats: GameStats)
        requires
            old(self).wf(),
        ensures
            final(self).wf(),
            forall|k: Seq<char>| #[trigger] final(self).lookup(k) == if k == stats_key(title_id@) {
                Some(stats)
            } else {
                old(self).lookup(k)
            },
    {
        let trimmed = trim(title_id);
        let key = to_ascii_uppercase(trimmed.as_str());
        let ghost e0 = self.entries@;
        let ghost kv = key@;
        match self.find(key.as_str()) {
            Some(i) => {
                self.entries.set(i, (key, stats));
                proof {
                    let e1 = self.entries@;
                    assert forall|a: int, b: int| 0 <= a < b < e1.len() implies (#[trigger] e1[a]).0@
                        != (#[trigger] e1[b]).0@ by {
                        assert(e0[a].0@ != e0[b].0@);
                    }
                    assert forall|k: Seq<char>| #[trigger] stats_lookup(e1, k) == if k == kv {
                        Some(stats)
                    } else {
                        stats_lookup(e0, k)
                    } by {
                        if k == kv {
                            lemma_stats_lookup_at(e1, k, i as int);
                        } else if exists|m: int| 0 <= m < e0.len() && (#[trigger] e0[m]).0@ == k {
                            let m = choose|m: int| 0 <= m < e0.len() && (#[trigger] e0[m]).0@ == k;
                            lemma_stats_lookup_at(e1, k, m);
                            lemma_stats_lookup_at(e0, k, m);
                        } else if exists|m: int| 0 <= m < e1.len() && (#[trigger] e1[m]).0@ == k {
                            let m = choose|m: int| 0 <= m < e1.len() && (#[trigger] e1[m]).0@ == k;
                            assert(e0[m].0@ == k);
                        }
                    }
                }
            },
            None => {
                self.entries.push((key, stats));
                proof {
                    let e1 = self.entries@;
                    assert forall|k: Seq<char>| #[trigger] stats_lookup(e1, k) == if k == kv {
                        Some(stats)
                    } else {
                        stats_lookup(e0, k)
                    } by {
                        if k == kv {
                            lemma_stats_lookup_at(e1, k, e0.len() as int);
                        } else if exists|m: int| 0 <= m < e0.len() && (#[trigger] e0[m]).0@ == k {
                            let m = choose|m: int| 0 <= m < e0.len() && (#[trigger] e0[m]).0@ == k;
                            assert(e1[m] == e0[m]);
                            lemma_stats_lookup_at(e1, k, m);
                            lemma_stats_lookup_at(e0, k, m);
                        } else if exists|m: int| 0 <= m < e1.len() && (#[trigger] e1[m]).0@ == k {
                            let m = choose|m: int| 0 <= m < e1.len() && (#[trigger] e1[m]).0@ == k;
                            assert(m < e0.len());
                            assert(e0[m] == e1[m]);
                        }
                    }
                }
            },
        }
    }

    /// The statistics of a title (the id is trimmed and matched ignoring
    /// ASCII case).
    pub fn get(&self, title_id: &str) -> (r: Option<&GameStats>)
        requires
            self.wf(),
        ensures
            match r {
                Some(s) => self.lookup(stats_key(title_id@)) == Some(*s),
                None => self.lookup(stats_key(title_id@)) is None,
            },
    {
        let trimmed = trim(title_id);
        let key = to_ascii_uppercase(trimmed.as_str());
        match self.find(key.as_str()) {
            Some(i) => {
                proof {
                    lemma_stats_lookup_at(self.entries@, key@, i as int);
                }
                Some(&self.entries[i].1)
            },
            None => None,
        }
    }

    /// Counts one more launch of a title at `timestamp`.
    pub fn update_launch(&mut self, title_id: &str, timestamp: u64)
        requires
            old(self).wf(),
        ensures
            final(self).wf(),
            forall|k: Seq<char>| #[trigger] final(self).lookup(k) == if k == stats_key(title_id@) {
                Some(after_launch(old(self).lookup(k), timestamp))
            } else {
                old(self).lookup(k)
            },
    {
        let trimmed = trim(title_id);
        let key = to_ascii_uppercase(trimmed.as_str());
        let ghost e0 = self.entries@;
        let ghost kv = key@;
        match self.find(key.as_str()) {
            Some(i) => {
                let prev = self.entries[i].1;
                let count = prev.launch_count.saturating_add(1);
                proof {
                    lemma_stats_lookup_at(e0, kv, i as int);
                }
                self.entries.set(i, (key, GameStats { launch_count: count, last_launched_at: timestamp }));
                proof {
                    let e1 = self.entries@;
                    assert forall|a: int, b: int| 0 <= a < b < e1.len() implies (#[trigger] e1[a]).0@
                        != (#[trigger] e1[b]).0@ by {
                        assert(e0[a].0@ != e0[b].0@);
                    }
                    assert forall|k: Seq<char>| #[trigger] stats_lookup(e1, k) == if k == kv {
                        Some(after_launch(stats_lookup(e0, k), timestamp))
                    } else {
                        stats_lookup(e0, k)
                    } by {
                        if k == kv {
                            lemma_stats_lookup_at(e1, k, i as int);
                        } else if exists|m: int| 0 <= m < e0.len() && (#[trigger] e0[m]).0@ == k {
                            let m = choose|m: int| 0 <= m < e0.len() && (#[trigger] e0[m]).0@ == k;
                            lemma_stats_lookup_at(e1, k, m);
                            lemma_stats_lookup_at(e0, k, m);
                        } else if exists|m: int| 0 <= m < e1.len() && (#[trigger] e1[m]).0@ == k {
                            let m = choose|m: int| 0 <= m < e1.len() && (#[trigger] e1[m]).0@ == k;
                            assert(e0[m].0@ == k);
                        }
                    }
                }
            },
            None => {
                self.entries.push((key, GameStats { launch_count: 1, last_launched_at: timestamp }));
                proof {
                    let e1 = self.entries@;
                    assert forall|k: Seq<char>| #[trigger] stats_lookup(e1, k) == if k == kv {
                        Some(after_launch(stats_lookup(e0, k), timestamp))
                    } else {
                        stats_lookup(e0, k)
                    } by {
                        if k == kv {
                            lemma_stats_lookup_at(e1, k, e0.len() as int);
                        } else if exists|m: int| 0 <= m < e0.len() && (#[trigger] e0[m]).0@ == k {
                            let m = choose|m: int| 0 <= m < e0.len() && (#[trigger] e0[m]).0@ == k;
                            assert(e1[m] == e0[m]);
                            lemma_stats_lookup_at(e1, k, m);
                            lemma_stats_lookup_at(e0, k, m);
                        } else if exists|m: int| 0 <= m < e1.len() && (#[trigger] e1[m]).0@ == k {
                            let m = choose|m: int| 0 <= m < e1.len() && (#[trigger] e1[m]).0@ == k;
                            assert(m < e0.len());
                            assert(e0[m] == e1[m]);
                        }
                    }
                }
            },
        }
    }

    /// Records a launch of a title; the caller then writes the store out.
    pub fn record_launch(&mut self, title_id: &str, timestamp: u64)
        requires
            old(self).wf(),
        ensures
            final(self).wf(),
            forall|k: Seq<char>| #[trigger] final(self).lookup(k) == if k == stats_key(title_id@) {
                Some(after_launch(old(self).lookup(k), timestamp))
            } else {
                old(self).lookup(k)
            },
    {
        self.update_launch(title_id, timestamp);
    }
}

/// Launch counts never go down, and a launch records its own time.
pub proof fn law_launch_monotonic(prev: Option<GameStats>, timestamp: u64)
    ensures
        after_launch(prev, timestamp).last_launched_at == timestamp,
        after_launch(prev, timestamp).launch_count >= 1,
        prev matches Some(p) ==> after_launch(prev, timestamp).launch_count >= p.launch_count,
        prev matches Some(p) ==> (p.launch_count < u32::MAX ==> after_launch(prev, timestamp).launch_count
            == p.launch_count + 1),
{
}

} // verus!
