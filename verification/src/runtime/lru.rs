use vstd::prelude::*;
use crate::text::str_equal;

verus! {

/// A value that can be used to look up a key of type `K` in a cache.
///
/// `key_view` says which key a lookup value stands for; `matches_key` decides
/// it at run time.
pub trait KeyQuery<K: View> {
    spec fn key_view(&self) -> <K as View>::V;

    fn matches_key(&self, key: &K) -> (b: bool)
        ensures
            b == (self.key_view() == key@),
    ;
}

/// A key type: its own lookup value stands for itself.
pub trait CacheKey: View + KeyQuery<Self> + Sized {
    proof fn lemma_key_view(&self)
        ensures
            self.key_view() == self@,
    ;
}

impl CacheKey for String {
    proof fn lemma_key_view(&self) {
    }
}

impl CacheKey for i32 {
    proof fn lemma_key_view(&self) {
    }
}

impl CacheKey for u64 {
    proof fn lemma_key_view(&self) {
    }
}

impl CacheKey for usize {
    proof fn lemma_key_view(&self) {
    }
}

impl KeyQuery<String> for String {
    open spec fn key_view(&self) -> Seq<char> {
        self@
    }

    fn matches_key(&self, key: &String) -> (b: bool) {
        str_equal(self.as_str(), key.as_str())
    }
}

impl KeyQuery<String> for str {
    open spec fn key_view(&self) -> Seq<char> {
        self@
    }

    fn matches_key(&self, key: &String) -> (b: bool) {
        str_equal(self, key.as_str())
    }
}

impl KeyQuery<i32> for i32 {
    open spec fn key_view(&self) -> i32 {
        *self
    }

    fn matches_key(&self, key: &i32) -> (b: bool) {
        *self == *key
    }
}

impl KeyQuery<u64> for u64 {
    open spec fn key_view(&self) -> u64 {
        *self
    }

    fn matches_key(&self, key: &u64) -> (b: bool) {
        *self == *key
    }
}

impl KeyQuery<usize> for usize {
    open spec fn key_view(&self) -> usize {
        *self
    }

    fn matches_key(&self, key: &usize) -> (b: bool) {
        *self == *key
    }
}

struct LruNode<K, V> {
    key: K,
    value: V,
    cost: usize,
    prev: Option<usize>,
    next: Option<usize>,
}

/// Counters of a cache's activity, and its size when the snapshot was taken.
#[derive(Debug, Clone, Copy, Default)]
pub struct LruStats {
    pub hits: u64,
    pub misses: u64,
    pub evictions: u64,
    pub total_cost_bytes: usize,
    pub item_count: usize,
}

/// A cache entry as contracts see it: key, value and cost.
pub type LruEntry<K, V> = (K, V, usize);

/// Position of the entry with key `k`, or -1.
pub open spec fn key_pos<K: View, V>(e: Seq<LruEntry<K, V>>, k: K::V) -> int {
    if exists|i: int| 0 <= i < e.len() && (#[trigger] e[i]).0@ == k {
        choose|i: int| 0 <= i < e.len() && (#[trigger] e[i]).0@ == k
    } else {
        -1
    }
}

/// No two entries share a key.
pub open spec fn keys_distinct<K: View, V>(e: Seq<LruEntry<K, V>>) -> bool {
    forall|a: int, b: int|
        0 <= a < e.len() && 0 <= b < e.len() && a != b ==> (#[trigger] e[a]).0@ != (#[trigger] e[b]).0@
}

/// Sum of the entries' costs.
pub open spec fn cost_sum<K, V>(e: Seq<LruEntry<K, V>>) -> nat
    decreases e.len(),
{
    if e.len() == 0 {
        0
    } else {
        cost_sum(e.drop_last()) + e.last().2 as nat
    }
}

/// The sequence with entry `i` moved to the front.
pub open spec fn move_to_front<A>(e: Seq<A>, i: int) -> Seq<A> {
    seq![e[i]] + e.remove(i)
}

/// What is left of `e` after dropping least recently used entries until
/// `req` more bytes fit under `max`, or nothing is left. An unbounded cache
/// (`max == 0`) keeps everything.
pub open spec fn evict_result<K, V>(e: Seq<LruEntry<K, V>>, req: int, max: int) -> Seq<LruEntry<K, V>>
    decreases e.len(),
{
    if max == 0 || e.len() == 0 || cost_sum(e) + req <= max {
        e
    } else {
        evict_result(e.drop_last(), req, max)
    }
}

/// `e` without the entry whose key is `k` (unchanged if there is none).
pub open spec fn without_key<K: View, V>(e: Seq<LruEntry<K, V>>, k: K::V) -> Seq<LruEntry<K, V>> {
    if key_pos(e, k) >= 0 {
        e.remove(key_pos(e, k))
    } else {
        e
    }
}

pub proof fn lemma_cost_sum_concat<K, V>(a: Seq<LruEntry<K, V>>, b: Seq<LruEntry<K, V>>)
    ensures
        cost_sum(a + b) == cost_sum(a) + cost_sum(b),
    decreases b.len(),
{
    if b.len() == 0 {
        assert(a + b =~= a);
    } else {
        lemma_cost_sum_concat(a, b.drop_last());
        assert((a + b).drop_last() =~= a + b.drop_last());
    }
}

pub proof fn lemma_cost_sum_remove<K, V>(e: Seq<LruEntry<K, V>>, i: int)
    requires
        0 <= i < e.len(),
    ensures
        cost_sum(e.remove(i)) + e[i].2 == cost_sum(e),
{
    let a = e.take(i);
    let b = e.skip(i + 1);
    assert(e.remove(i) =~= a + b);
    assert(e =~= a + seq![e[i]] + b);
    lemma_cost_sum_concat(a, b);
    lemma_cost_sum_concat(a + seq![e[i]], b);
    lemma_cost_sum_concat(a, seq![e[i]]);
    lemma_cost_sum_single(e[i]);
}

pub proof fn lemma_cost_sum_single<K, V>(x: LruEntry<K, V>)
    ensures
        cost_sum(seq![x]) == x.2,
{
    assert(seq![x].drop_last() =~= Seq::<LruEntry<K, V>>::empty());
    assert(cost_sum(Seq::<LruEntry<K, V>>::empty()) == 0);
}

pub proof fn lemma_cost_sum_front<K, V>(x: LruEntry<K, V>, e: Seq<LruEntry<K, V>>)
    ensures
        cost_sum(seq![x] + e) == x.2 + cost_sum(e),
{
    lemma_cost_sum_concat(seq![x], e);
    lemma_cost_sum_single(x);
}

pub proof fn lemma_cost_sum_prefix_le<K, V>(e: Seq<LruEntry<K, V>>, m: int)
    requires
        0 <= m <= e.len(),
    ensures
        cost_sum(e.take(m)) <= cost_sum(e),
{
    lemma_cost_sum_concat(e.take(m), e.skip(m));
    assert(e.take(m) + e.skip(m) =~= e);
}

proof fn lemma_keys_distinct_remove<K: View, V>(e: Seq<LruEntry<K, V>>, p: int)
    requires
        keys_distinct(e),
        0 <= p < e.len(),
    ensures
        keys_distinct(e.remove(p)),
        forall|k: int| 0 <= k < e.remove(p).len() ==> (#[trigger] e.remove(p)[k]).0@ != e[p].0@,
{
    let r = e.remove(p);
    assert forall|a: int, b: int| 0 <= a < r.len() && 0 <= b < r.len() && a != b implies (#[trigger] r[a]).0@ != (#[trigger] r[b]).0@ by {
        let oa = if a < p { a } else { a + 1 };
        let ob = if b < p { b } else { b + 1 };
        assert(r[a] == e[oa]);
        assert(r[b] == e[ob]);
    }
    assert forall|k: int| 0 <= k < r.len() implies (#[trigger] r[k]).0@ != e[p].0@ by {
        let ok = if k < p { k } else { k + 1 };
        assert(r[k] == e[ok]);
    }
}

proof fn lemma_keys_distinct_front<K: View, V>(x: LruEntry<K, V>, e: Seq<LruEntry<K, V>>)
    requires
        keys_distinct(e),
        forall|k: int| 0 <= k < e.len() ==> (#[trigger] e[k]).0@ != x.0@,
    ensures
        keys_distinct(seq![x] + e),
{
    let r = seq![x] + e;
    assert forall|a: int, b: int| 0 <= a < r.len() && 0 <= b < r.len() && a != b implies (#[trigger] r[a]).0@ != (#[trigger] r[b]).0@ by {
        if a > 0 {
            assert(r[a] == e[a - 1]);
        }
        if b > 0 {
            assert(r[b] == e[b - 1]);
        }
    }
}

proof fn lemma_keys_distinct_prefix<K: View, V>(e: Seq<LruEntry<K, V>>, m: int)
    requires
        keys_distinct(e),
        0 <= m <= e.len(),
    ensures
        keys_distinct(e.take(m)),
{
    let r = e.take(m);
    assert forall|a: int, b: int| 0 <= a < r.len() && 0 <= b < r.len() && a != b implies (#[trigger] r[a]).0@ != (#[trigger] r[b]).0@ by {
        assert(r[a] == e[a]);
        assert(r[b] == e[b]);
    }
}

proof fn lemma_key_pos_found<K: View, V>(e: Seq<LruEntry<K, V>>, p: int, k: K::V)
    requires
        keys_distinct(e),
        0 <= p < e.len(),
        e[p].0@ == k,
    ensures
        key_pos(e, k) == p,
{
    assert(exists|i: int| 0 <= i < e.len() && (#[trigger] e[i]).0@ == k);
    let c = choose|i: int| 0 <= i < e.len() && (#[trigger] e[i]).0@ == k;
    if c != p {
        assert(e[c].0@ != e[p].0@);
    }
}

proof fn lemma_key_pos_missing<K: View, V>(e: Seq<LruEntry<K, V>>, k: K::V)
    requires
        forall|i: int| 0 <= i < e.len() ==> (#[trigger] e[i]).0@ != k,
    ensures
        key_pos(e, k) == -1,
{
}

/// What is left of `e` after dropping least recently used entries until the
/// total cost is at most `target`, or nothing is left.
pub open spec fn shrink_result<K, V>(e: Seq<LruEntry<K, V>>, target: int) -> Seq<LruEntry<K, V>>
    decreases e.len(),
{
    if e.len() == 0 || cost_sum(e) <= target {
        e
    } else {
        shrink_result(e.drop_last(), target)
    }
}

proof fn lemma_shrink_result_len<K, V>(e: Seq<LruEntry<K, V>>, target: int)
    ensures
        shrink_result(e, target).len() <= e.len(),
    decreases e.len(),
{
    if e.len() == 0 || cost_sum(e) <= target {
    } else {
        lemma_shrink_result_len(e.drop_last(), target);
    }
}

proof fn lemma_evict_result_prefix<K, V>(e: Seq<LruEntry<K, V>>, req: int, max: int)
    ensures
        evict_result(e, req, max).len() <= e.len(),
        forall|i: int| 0 <= i < evict_result(e, req, max).len() ==> #[trigger] evict_result(e, req, max)[i] == e[i],
    decreases e.len(),
{
    if max == 0 || e.len() == 0 || cost_sum(e) + req <= max {
    } else {
        lemma_evict_result_prefix(e.drop_last(), req, max);
    }
}

proof fn lemma_without_key<K: View, V>(e: Seq<LruEntry<K, V>>, k: K::V)
    requires
        keys_distinct(e),
    ensures
        keys_distinct(without_key(e, k)),
        forall|i: int| 0 <= i < without_key(e, k).len() ==> (#[trigger] without_key(e, k)[i]).0@ != k,
        key_pos(e, k) >= 0 ==> cost_sum(without_key(e, k)) + e[key_pos(e, k)].2 == cost_sum(e),
        key_pos(e, k) < 0 ==> without_key(e, k) == e,
{
    let p = key_pos(e, k);
    if p >= 0 {
        lemma_keys_distinct_remove(e, p);
        lemma_cost_sum_remove(e, p);
    }
}

proof fn lemma_map_remove<A, B>(s: Seq<A>, f: spec_fn(A) -> B, p: int)
    requires
        0 <= p < s.len(),
    ensures
        s.remove(p).map_values(f) == s.map_values(f).remove(p),
{
    assert(s.remove(p).map_values(f) =~= s.map_values(f).remove(p));
}

proof fn lemma_map_front<A, B>(x: A, s: Seq<A>, f: spec_fn(A) -> B)
    ensures
        (seq![x] + s).map_values(f) == seq![f(x)] + s.map_values(f),
{
    assert((seq![x] + s).map_values(f) =~= seq![f(x)] + s.map_values(f));
}

proof fn lemma_cost_sum_move_to_front<K, V>(e: Seq<LruEntry<K, V>>, p: int)
    requires
        0 <= p < e.len(),
    ensures
        cost_sum(move_to_front(e, p)) == cost_sum(e),
{
    lemma_cost_sum_front(e[p], e.remove(p));
    lemma_cost_sum_remove(e, p);
}

proof fn lemma_cost_sum_drop_last<K, V>(e: Seq<LruEntry<K, V>>)
    requires
        e.len() > 0,
    ensures
        cost_sum(e.drop_last()) + e.last().2 == cost_sum(e),
{
}

spec fn slot_node<K, V>(nodes: Seq<Option<LruNode<K, V>>>, i: int) -> LruNode<K, V> {
    nodes[i]->Some_0
}

/// A least-recently-used cache whose capacity is a budget of "cost" bytes.
///
/// Entries are kept in a slab of nodes linked from most to least recently
/// used; freed slots are recycled.
pub struct LruCache<K, V> {
    nodes: Vec<Option<LruNode<K, V>>>,
    free_indices: Vec<usize>,
    head: Option<usize>,
    tail: Option<usize>,
    max_cost_bytes: usize,
    total_cost_bytes: usize,
    stats: LruStats,
    live: usize,
    order: Ghost<Seq<usize>>,
}

impl<K: View, V> LruCache<K, V> {
    #[verifier::inline]
    spec fn node(&self, i: int) -> LruNode<K, V> {
        slot_node(self.nodes@, i)
    }

    spec fn slot_some(&self, i: int) -> bool {
        0 <= i < self.nodes@.len() && self.nodes@[i] is Some
    }

    /// The slots on the recency list form a well-linked list from `head` to `tail`.
    spec fn links_ok(&self) -> bool {
        let order = self.order@;
        &&& order.no_duplicates()
        &&& forall|k: int| 0 <= k < order.len() ==> self.slot_some(#[trigger] order[k] as int)
        &&& self.head == (if order.len() == 0 {
            None::<usize>
        } else {
            Some(order[0])
        })
        &&& self.tail == (if order.len() == 0 {
            None::<usize>
        } else {
            Some(order[order.len() - 1])
        })
        &&& forall|k: int|
            0 <= k < order.len() ==> (#[trigger] self.node(order[k] as int)).prev == (if k == 0 {
                None::<usize>
            } else {
                Some(order[k - 1])
            })
        &&& forall|k: int|
            0 <= k < order.len() ==> (#[trigger] self.node(order[k] as int)).next == (if k + 1
                == order.len() {
                None::<usize>
            } else {
                Some(order[k + 1])
            })
    }

    /// The cache's contents, most recently used first.
    pub closed spec fn entries(&self) -> Seq<LruEntry<K, V>> {
        self.order@.map_values(self.payload_fn())
    }

    spec fn payload_fn(&self) -> spec_fn(usize) -> LruEntry<K, V> {
        |i: usize| (self.node(i as int).key, self.node(i as int).value, self.node(i as int).cost)
    }

    pub closed spec fn spec_max_cost(&self) -> nat {
        self.max_cost_bytes as nat
    }

    pub closed spec fn spec_stats(&self) -> LruStats {
        self.stats
    }

    /// Internal consistency: the linked list, the slot bookkeeping, distinct
    /// keys and the running cost total.
    pub closed spec fn wf(&self) -> bool {
        &&& self.links_ok()
        &&& self.nodes@.len() <= usize::MAX
        &&& forall|j: int| #![trigger self.nodes@[j]]
            0 <= j < self.nodes@.len() && self.nodes@[j] is Some ==> self.order@.contains(
                j as usize,
            )
        &&& self.free_indices@.no_duplicates()
        &&& forall|k: int|
            0 <= k < self.free_indices@.len() ==> {
                let f = #[trigger] self.free_indices@[k];
                &&& f < self.nodes@.len()
                &&& self.nodes@[f as int] is None
            }
        &&& keys_distinct(self.entries())
        &&& self.total_cost_bytes == cost_sum(self.entries())
        &&& self.live == self.order@.len()
        &&& self.order@.len() + self.free_indices@.len() <= self.nodes@.len()
    }

    /// A well-formed cache never holds two entries with the same key.
    pub proof fn lemma_wf_keys_distinct(&self)
        requires
            self.wf(),
        ensures
            keys_distinct(self.entries()),
    {
    }

    fn set_prev(&mut self, i: usize, p: Option<usize>)
        requires
            old(self).slot_some(i as int),
        ensures
            final(self).nodes@.len() == old(self).nodes@.len(),
            final(self).nodes@[i as int] is Some,
            final(self).node(i as int).prev == p,
            final(self).node(i as int).next == old(self).node(i as int).next,
            final(self).node(i as int).key == old(self).node(i as int).key,
            final(self).node(i as int).value == old(self).node(i as int).value,
            final(self).node(i as int).cost == old(self).node(i as int).cost,
            forall|j: int|
                0 <= j < old(self).nodes@.len() && j != i ==> final(self).nodes@[j] == old(
                    self,
                ).nodes@[j],
            final(self).free_indices == old(self).free_indices,
            final(self).head == old(self).head,
            final(self).tail == old(self).tail,
            final(self).max_cost_bytes == old(self).max_cost_bytes,
            final(self).total_cost_bytes == old(self).total_cost_bytes,
            final(self).stats == old(self).stats,
            final(self).live == old(self).live,
            final(self).order == old(self).order,
    {
        let mut slot: Option<LruNode<K, V>> = None;
        std::mem::swap(&mut slot, &mut self.nodes[i]);
        match slot {
            Some(n) => {
                self.nodes.set(
                    i,
                    Some(LruNode { key: n.key, value: n.value, cost: n.cost, prev: p, next: n.next }),
                );
            },
            None => {},
        }
    }

    fn set_next(&mut self, i: usize, nx: Option<usize>)
        requires
            old(self).slot_some(i as int),
        ensures
            final(self).nodes@.len() == old(self).nodes@.len(),
            final(self).nodes@[i as int] is Some,
            final(self).node(i as int).next == nx,
            final(self).node(i as int).prev == old(self).node(i as int).prev,
            final(self).node(i as int).key == old(self).node(i as int).key,
            final(self).node(i as int).value == old(self).node(i as int).value,
            final(self).node(i as int).cost == old(self).node(i as int).cost,
            forall|j: int|
                0 <= j < old(self).nodes@.len() && j != i ==> final(self).nodes@[j] == old(
                    self,
                ).nodes@[j],
            final(self).free_indices == old(self).free_indices,
            final(self).head == old(self).head,
            final(self).tail == old(self).tail,
            final(self).max_cost_bytes == old(self).max_cost_bytes,
            final(self).total_cost_bytes == old(self).total_cost_bytes,
            final(self).stats == old(self).stats,
            final(self).live == old(self).live,
            final(self).order == old(self).order,
    {
        let mut slot: Option<LruNode<K, V>> = None;
        std::mem::swap(&mut slot, &mut self.nodes[i]);
        match slot {
            Some(n) => {
                self.nodes.set(
                    i,
                    Some(LruNode { key: n.key, value: n.value, cost: n.cost, prev: n.prev, next: nx }),
                );
            },
            None => {},
        }
    }
}


impl<K: View, V> LruCache<K, V> {
    /// `self` and `other` hold the same entries in the same slots (links may differ).
    spec fn payload_frame(&self, other: &Self) -> bool {
        &&& self.nodes@.len() == other.nodes@.len()
        &&& forall|j: int|
            0 <= j < self.nodes@.len() ==> {
                &&& (self.nodes@[j] is Some <==> other.nodes@[j] is Some)
                &&& (#[trigger] self.nodes@[j] is Some ==> {
                    &&& self.node(j).key == other.node(j).key
                    &&& self.node(j).value == other.node(j).value
                    &&& self.node(j).cost == other.node(j).cost
                })
            }
        &&& self.free_indices == other.free_indices
        &&& self.live == other.live
        &&& self.max_cost_bytes == other.max_cost_bytes
        &&& self.total_cost_bytes == other.total_cost_bytes
        &&& self.stats == other.stats
    }

    /// Takes slot `idx` (at position `p` of the recency list) out of the list.
    fn unlink(&mut self, idx: usize, Ghost(p): Ghost<int>)
        requires
            old(self).links_ok(),
            0 <= p < old(self).order@.len(),
            old(self).order@[p] == idx,
        ensures
            final(self).links_ok(),
            final(self).order@ == old(self).order@.remove(p),
            final(self).payload_frame(old(self)),
            final(self).nodes@[idx as int] is Some,
            final(self).node(idx as int).prev is None,
            final(self).node(idx as int).next is None,
    {
        let ghost old_order = self.order@;
        let ghost s0 = *self;
        proof {
            assert(self.node(old_order[p] as int).prev == (if p == 0 { None::<usize> } else { Some(old_order[p - 1]) }));
            assert(self.node(old_order[p] as int).next == (if p + 1 == old_order.len() { None::<usize> } else { Some(old_order[p + 1]) }));
        }
        let prev = match &self.nodes[idx] {
            Some(n) => n.prev,
            None => None,
        };
        let next = match &self.nodes[idx] {
            Some(n) => n.next,
            None => None,
        };
        proof {
            if p > 0 {
                assert(self.slot_some(old_order[p - 1] as int));
            }
            if p + 1 < old_order.len() {
                assert(self.slot_some(old_order[p + 1] as int));
            }
        }
        match prev {
            Some(pi) => {
                self.set_next(pi, next);
            },
            None => {
                self.head = next;
            },
        }
        match next {
            Some(ni) => {
                self.set_prev(ni, prev);
            },
            None => {
                self.tail = prev;
            },
        }
        self.set_prev(idx, None);
        self.set_next(idx, None);
        self.order = Ghost(old_order.remove(p));
        proof {
            let new_order = self.order@;
            assert forall|j: int| 0 <= j < old_order.len() && j != p - 1 && j != p && j != p + 1 implies
                self.nodes@[old_order[j] as int] == s0.nodes@[old_order[j] as int] by {
                assert(old_order[j] != old_order[p]);
                if p > 0 {
                    assert(old_order[j] != old_order[p - 1]);
                }
                if p + 1 < old_order.len() {
                    assert(old_order[j] != old_order[p + 1]);
                }
            }
            assert forall|a: int, b: int|
                0 <= a < new_order.len() && 0 <= b < new_order.len() && a != b implies new_order[a]
                != new_order[b] by {
                let oa = if a < p { a } else { a + 1 };
                let ob = if b < p { b } else { b + 1 };
                assert(new_order[a] == old_order[oa]);
                assert(new_order[b] == old_order[ob]);
            }
            assert forall|k: int| 0 <= k < new_order.len() implies self.slot_some(#[trigger] new_order[k] as int) by {
                let ok = if k < p { k } else { k + 1 };
                assert(new_order[k] == old_order[ok]);
                assert(s0.slot_some(old_order[ok] as int));
            }
            assert forall|k: int| 0 <= k < new_order.len() implies (#[trigger] self.node(new_order[k] as int)).prev == (if k == 0 {
                None::<usize>
            } else {
                Some(new_order[k - 1])
            }) by {
                let ok = if k < p { k } else { k + 1 };
                assert(new_order[k] == old_order[ok]);
                assert(s0.node(old_order[ok] as int).prev == (if ok == 0 { None::<usize> } else { Some(old_order[ok - 1]) }));
                if k > 0 {
                    if k < p {
                        assert(new_order[k - 1] == old_order[k - 1]);
                    } else if k == p {
                        assert(new_order[k - 1] == old_order[p - 1]);
                    } else {
                        assert(new_order[k - 1] == old_order[k]);
                    }
                }
                assert(old_order[ok] != old_order[p]);
                if p > 0 && ok != p - 1 {
                    assert(old_order[ok] != old_order[p - 1]);
                }
            }
            assert forall|k: int| 0 <= k < new_order.len() implies (#[trigger] self.node(new_order[k] as int)).next == (if k + 1
                == new_order.len() {
                None::<usize>
            } else {
                Some(new_order[k + 1])
            }) by {
                let ok = if k < p { k } else { k + 1 };
                assert(new_order[k] == old_order[ok]);
                assert(s0.node(old_order[ok] as int).next == (if ok + 1 == old_order.len() { None::<usize> } else { Some(old_order[ok + 1]) }));
                if k + 1 < new_order.len() {
                    if k + 1 < p {
                        assert(new_order[k + 1] == old_order[k + 1]);
                    } else {
                        assert(new_order[k + 1] == old_order[k + 2]);
                    }
                }
                assert(old_order[ok] != old_order[p]);
                if p + 1 < old_order.len() && ok != p + 1 {
                    assert(old_order[ok] != old_order[p + 1]);
                }
            }
            if new_order.len() > 0 {
                if p == 0 {
                    assert(new_order[0] == old_order[1]);
                } else {
                    assert(new_order[0] == old_order[0]);
                    assert(old_order[0] != old_order[p]);
                }
                let last = new_order.len() - 1;
                if p == old_order.len() - 1 {
                    assert(new_order[last] == old_order[p - 1]);
                } else {
                    assert(new_order[last] == old_order[last + 1]);
                }
            }
        }
    }
}


impl<K: View, V> LruCache<K, V> {
    /// Puts slot `idx`, which is not on the recency list, at its front.
    fn push_front(&mut self, idx: usize)
        requires
            old(self).links_ok(),
            old(self).slot_some(idx as int),
            !old(self).order@.contains(idx),
        ensures
            final(self).links_ok(),
            final(self).order@ == seq![idx] + old(self).order@,
            final(self).payload_frame(old(self)),
    {
        let ghost old_order = self.order@;
        let ghost s0 = *self;
        let old_head = self.head;
        match old_head {
            Some(h) => {
                proof {
                    assert(self.slot_some(old_order[0] as int));
                }
                self.set_prev(h, Some(idx));
            },
            None => {},
        }
        self.set_prev(idx, None);
        self.set_next(idx, old_head);
        self.head = Some(idx);
        if self.tail.is_none() {
            self.tail = Some(idx);
        }
        self.order = Ghost(seq![idx] + old_order);
        proof {
            let new_order = self.order@;
            assert(new_order[0] == idx);
            assert forall|k: int| 0 < k < new_order.len() implies new_order[k] == old_order[k - 1] by {}
            assert forall|a: int, b: int|
                0 <= a < new_order.len() && 0 <= b < new_order.len() && a != b implies new_order[a]
                != new_order[b] by {
                if a > 0 && b > 0 {
                    assert(old_order[a - 1] != old_order[b - 1]);
                } else if a == 0 {
                    assert(old_order[b - 1] != idx);
                } else {
                    assert(old_order[a - 1] != idx);
                }
            }
            assert forall|k: int| 0 <= k < new_order.len() implies self.slot_some(#[trigger] new_order[k] as int) by {
                if k > 0 {
                    assert(s0.slot_some(old_order[k - 1] as int));
                }
            }
            assert forall|k: int| 0 <= k < new_order.len() implies (#[trigger] self.node(new_order[k] as int)).prev == (if k == 0 {
                None::<usize>
            } else {
                Some(new_order[k - 1])
            }) by {
                if k > 0 {
                    assert(old_order[k - 1] != idx);
                    assert(s0.node(old_order[k - 1] as int).prev == (if k - 1 == 0 { None::<usize> } else { Some(old_order[k - 2]) }));
                    if k > 1 {
                        assert(old_order[k - 1] != old_order[0]);
                    }
                }
            }
            assert forall|k: int| 0 <= k < new_order.len() implies (#[trigger] self.node(new_order[k] as int)).next == (if k + 1
                == new_order.len() {
                None::<usize>
            } else {
                Some(new_order[k + 1])
            }) by {
                if k > 0 {
                    assert(old_order[k - 1] != idx);
                    assert(s0.node(old_order[k - 1] as int).next == (if k == old_order.len() { None::<usize> } else { Some(old_order[k]) }));
                }
            }
        }
    }

    /// Marks slot `idx` (at position `p`) as most recently used.
    fn touch(&mut self, idx: usize, Ghost(p): Ghost<int>)
        requires
            old(self).links_ok(),
            0 <= p < old(self).order@.len(),
            old(self).order@[p] == idx,
        ensures
            final(self).links_ok(),
            final(self).order@ == move_to_front(old(self).order@, p),
            final(self).payload_frame(old(self)),
    {
        if self.head == Some(idx) {
            proof {
                assert(self.order@[0] == idx);
                assert(p == 0);
                assert(move_to_front(self.order@, p) =~= self.order@);
            }
            return;
        }
        let ghost s0 = *self;
        self.unlink(idx, Ghost(p));
        proof {
            assert forall|k: int| 0 <= k < self.order@.len() implies self.order@[k] != idx by {
                let ok = if k < p { k } else { k + 1 };
                assert(self.order@[k] == s0.order@[ok]);
            }
            assert(!self.order@.contains(idx));
        }
        self.push_front(idx);
    }

}


impl<K: View, V> LruCache<K, V> {
    proof fn lemma_entries_frame(&self, old_self: &Self)
        requires
            self.payload_frame(old_self),
            forall|k: int| 0 <= k < self.order@.len() ==> old_self.slot_some(#[trigger] self.order@[k] as int),
        ensures
            self.entries() == self.order@.map_values(old_self.payload_fn()),
    {
        assert forall|k: int| 0 <= k < self.order@.len() implies #[trigger] self.entries()[k] == self.order@.map_values(old_self.payload_fn())[k] by {
            assert(old_self.slot_some(self.order@[k] as int));
        }
        assert(self.entries() =~= self.order@.map_values(old_self.payload_fn()));
    }

    /// Every slot on the recency list is occupied.
    proof fn lemma_order_some(&self, k: int)
        requires
            self.links_ok(),
            0 <= k < self.order@.len(),
        ensures
            self.slot_some(self.order@[k] as int),
    {
    }

    /// Finds the slot holding the key that `q` stands for.
    fn find<Q: ?Sized + KeyQuery<K>>(&self, q: &Q) -> (r: Option<usize>)
        requires
            self.wf(),
        ensures
            match r {
                Some(i) => {
                    &&& self.slot_some(i as int)
                    &&& self.order@.contains(i)
                    &&& self.node(i as int).key@ == q.key_view()
                    &&& key_pos(self.entries(), q.key_view()) >= 0
                    &&& self.order@[key_pos(self.entries(), q.key_view())] == i
                },
                None => key_pos(self.entries(), q.key_view()) == -1,
            },
    {
        let mut j: usize = 0;
        while j < self.nodes.len()
            invariant
                self.wf(),
                j <= self.nodes@.len(),
                forall|t: int| 0 <= t < j && self.nodes@[t] is Some ==> self.node(t).key@ != q.key_view(),
            decreases self.nodes@.len() - j,
        {
            match &self.nodes[j] {
                Some(n) => {
                    if q.matches_key(&n.key) {
                        proof {
                            assert(self.nodes@[j as int] is Some);
                            assert(self.order@.contains(j));
                            let p = choose|p: int| 0 <= p < self.order@.len() && self.order@[p] == j;
                            assert(self.entries()[p].0 == self.node(j as int).key);
                            lemma_key_pos_found(self.entries(), p, q.key_view());
                        }
                        return Some(j);
                    }
                },
                None => {},
            }
            j = j + 1;
        }
        proof {
            assert forall|i: int| 0 <= i < self.entries().len() implies (#[trigger] self.entries()[i]).0@ != q.key_view() by {
                self.lemma_order_some(i);
                let s = self.order@[i] as int;
                assert(self.nodes@[s] is Some);
            }
            lemma_key_pos_missing(self.entries(), q.key_view());
        }
        None
    }

    pub fn new(max_cost_bytes: usize) -> (c: Self)
        ensures
            c.wf(),
            c.entries() == Seq::<LruEntry<K, V>>::empty(),
            c.spec_max_cost() == max_cost_bytes,
            c.spec_stats().hits == 0,
            c.spec_stats().misses == 0,
            c.spec_stats().evictions == 0,
    {
        let c = LruCache {
            nodes: Vec::new(),
            free_indices: Vec::new(),
            head: None,
            tail: None,
            max_cost_bytes,
            total_cost_bytes: 0,
            stats: LruStats { hits: 0, misses: 0, evictions: 0, total_cost_bytes: 0, item_count: 0 },
            live: 0,
            order: Ghost(Seq::empty()),
        };
        proof {
            assert(c.entries() =~= Seq::<LruEntry<K, V>>::empty());
        }
        c
    }

    pub fn max_cost_bytes(&self) -> (m: usize)
        ensures
            m == self.spec_max_cost(),
    {
        self.max_cost_bytes
    }

    pub fn total_cost_bytes(&self) -> (t: usize)
        requires
            self.wf(),
        ensures
            t == cost_sum(self.entries()),
    {
        self.total_cost_bytes
    }

    pub fn len(&self) -> (n: usize)
        requires
            self.wf(),
        ensures
            n == self.entries().len(),
    {
        self.live
    }

    pub fn is_empty(&self) -> (b: bool)
        requires
            self.wf(),
        ensures
            b == (self.entries().len() == 0),
    {
        self.live == 0
    }

    /// Activity counters together with the current size.
    pub fn stats(&self) -> (s: LruStats)
        requires
            self.wf(),
        ensures
            s.hits == self.spec_stats().hits,
            s.misses == self.spec_stats().misses,
            s.evictions == self.spec_stats().evictions,
            s.total_cost_bytes == cost_sum(self.entries()),
            s.item_count == self.entries().len(),
    {
        LruStats {
            hits: self.stats.hits,
            misses: self.stats.misses,
            evictions: self.stats.evictions,
            total_cost_bytes: self.total_cost_bytes,
            item_count: self.live,
        }
    }

    pub fn contains_key<Q: ?Sized + KeyQuery<K>>(&self, key: &Q) -> (b: bool)
        requires
            self.wf(),
        ensures
            b == (key_pos(self.entries(), key.key_view()) >= 0),
    {
        self.find(key).is_some()
    }

    /// The value for `key`, without marking it as used.
    pub fn peek<Q: ?Sized + KeyQuery<K>>(&self, key: &Q) -> (r: Option<&V>)
        requires
            self.wf(),
        ensures
            match r {
                Some(v) => key_pos(self.entries(), key.key_view()) >= 0 && *v == self.entries()[key_pos(
                    self.entries(),
                    key.key_view(),
                )].1,
                None => key_pos(self.entries(), key.key_view()) == -1,
            },
    {
        match self.find(key) {
            Some(idx) => {
                proof {
                    let p = key_pos(self.entries(), key.key_view());
                    assert(self.entries()[p].1 == self.node(idx as int).value);
                }
                match &self.nodes[idx] {
                    Some(n) => Some(&n.value),
                    None => None,
                }
            },
            None => None,
        }
    }

    /// The value for `key`; a hit makes the entry the most recently used.
    pub fn get<Q: ?Sized + KeyQuery<K>>(&mut self, key: &Q) -> (r: Option<&V>)
        requires
            old(self).wf(),
            old(self).spec_stats().hits < u64::MAX,
            old(self).spec_stats().misses < u64::MAX,
        ensures
            final(self).wf(),
            final(self).spec_max_cost() == old(self).spec_max_cost(),
            ({
                let e = old(self).entries();
                let p = key_pos(e, key.key_view());
                match r {
                    Some(v) => {
                        &&& p >= 0
                        &&& *v == e[p].1
                        &&& final(self).entries() == move_to_front(e, p)
                        &&& final(self).spec_stats() == (LruStats { hits: (old(self).spec_stats().hits + 1) as u64, ..old(self).spec_stats() })
                    },
                    None => {
                        &&& p == -1
                        &&& final(self).entries() == e
                        &&& final(self).spec_stats() == (LruStats { misses: (old(self).spec_stats().misses + 1) as u64, ..old(self).spec_stats() })
                    },
                }
            }),
    {
        match self.find(key) {
            Some(idx) => {
                let ghost s0 = *self;
                let ghost p = key_pos(self.entries(), key.key_view());
                self.touch(idx, Ghost(p));
                self.stats.hits = self.stats.hits + 1;
                proof {
                    self.lemma_after_touch(&s0, p);
                    assert(self.wf());
                }
                match &self.nodes[idx] {
                    Some(n) => Some(&n.value),
                    None => None,
                }
            },
            None => {
                let ghost s1 = *self;
                assert(s1.wf());
                self.stats.misses = self.stats.misses + 1;
                proof {
                    assert(self.nodes == s1.nodes);
                    assert(self.links_ok());
                    assert(self.entries() == s1.entries()) by {
                        assert(self.entries() =~= s1.entries());
                    }
                    assert(self.wf());
                }
                None
            },
        }
    }

    /// Changing only the value held in the slot at the head of the list keeps
    /// the cache well formed and changes only the first entry's value.
    proof fn lemma_value_only(&self, s: &Self, idx: usize, w: V)
        requires
            s.wf(),
            s.order@.len() > 0,
            s.order@[0] == idx,
            self.nodes@ == s.nodes@.update(idx as int, Some(LruNode { value: w, ..s.node(idx as int) })),
            self.free_indices == s.free_indices,
            self.head == s.head,
            self.tail == s.tail,
            self.max_cost_bytes == s.max_cost_bytes,
            self.total_cost_bytes == s.total_cost_bytes,
            self.stats == s.stats,
            self.live == s.live,
            self.order == s.order,
        ensures
            self.wf(),
            self.entries() == s.entries().update(0, (s.node(idx as int).key, w, s.node(idx as int).cost)),
    {
        s.lemma_order_some(0);
        assert forall|j: int| 0 <= j < self.nodes@.len() implies (self.nodes@[j] is Some <==> s.nodes@[j] is Some) && (
            #[trigger] self.nodes@[j] is Some ==> {
                &&& self.node(j).key == s.node(j).key
                &&& self.node(j).cost == s.node(j).cost
                &&& self.node(j).prev == s.node(j).prev
                &&& self.node(j).next == s.node(j).next
                &&& (j != idx ==> self.node(j).value == s.node(j).value)
            }) by {}
        assert(self.links_ok());
        assert(self.entries() =~= s.entries().update(0, (s.node(idx as int).key, w, s.node(idx as int).cost))) by {
            assert forall|k: int| 0 <= k < self.order@.len() implies #[trigger] self.entries()[k] == s.entries().update(
                0,
                (s.node(idx as int).key, w, s.node(idx as int).cost),
            )[k] by {
                if k > 0 {
                    assert(self.order@[k] != idx) by {
                        assert(self.order@.no_duplicates());
                    }
                }
            }
        }
        assert(keys_distinct(self.entries())) by {
            assert forall|a: int, b: int| 0 <= a < self.entries().len() && 0 <= b < self.entries().len() && a != b implies (
                #[trigger] self.entries()[a]).0@ != (#[trigger] self.entries()[b]).0@ by {
                assert(self.entries()[a].0 == s.entries()[a].0);
                assert(self.entries()[b].0 == s.entries()[b].0);
            }
        }
        lemma_cost_sum_same_costs(self.entries(), s.entries());
    }

    /// Looks up `key` for changing its value; a hit makes it the most
    /// recently used entry.
    pub fn get_mut<Q: ?Sized + KeyQuery<K>>(&mut self, key: &Q) -> (r: Option<&mut V>)
        requires
            old(self).wf(),
            old(self).spec_stats().hits < u64::MAX,
            old(self).spec_stats().misses < u64::MAX,
        ensures
            final(self).wf(),
            final(self).spec_max_cost() == old(self).spec_max_cost(),
            ({
                let e = old(self).entries();
                let p = key_pos(e, key.key_view());
                match r {
                    Some(v) => {
                        &&& p >= 0
                        &&& *v == e[p].1
                        &&& final(self).entries() == move_to_front(e, p).update(0, (e[p].0, *final(v), e[p].2))
                        &&& final(self).spec_stats() == (LruStats { hits: (old(self).spec_stats().hits + 1) as u64, ..old(self).spec_stats() })
                    },
                    None => {
                        &&& p == -1
                        &&& final(self).entries() == e
                        &&& final(self).spec_stats() == (LruStats { misses: (old(self).spec_stats().misses + 1) as u64, ..old(self).spec_stats() })
                    },
                }
            }),
    {
        match self.find(key) {
            Some(idx) => {
                let ghost s0 = *self;
                let ghost p = key_pos(self.entries(), key.key_view());
                self.touch(idx, Ghost(p));
                self.stats.hits = self.stats.hits + 1;
                proof {
                    self.lemma_after_touch(&s0, p);
                }
                let ghost s2 = *self;
                proof {
                    assert(s2.order@[0] == idx);
                    s2.lemma_order_some(0);
                    assert forall|t: Self|
                        #![trigger t.wf()]
                        #![trigger t.entries()]
                        t.nodes@ == s2.nodes@.update(idx as int, Some(LruNode { value: t.node(idx as int).value, ..s2.node(idx as int) }))
                            && t.free_indices == s2.free_indices && t.head == s2.head && t.tail == s2.tail
                            && t.max_cost_bytes == s2.max_cost_bytes && t.total_cost_bytes == s2.total_cost_bytes
                            && t.stats == s2.stats && t.live == s2.live && t.order == s2.order
                        implies t.wf() && t.entries() == s2.entries().update(
                            0,
                            (s2.node(idx as int).key, t.node(idx as int).value, s2.node(idx as int).cost),
                        ) by {
                        t.lemma_value_only(&s2, idx, t.node(idx as int).value);
                    }
                }
                match &mut self.nodes[idx] {
                    Some(n) => {
                        let v = &mut n.value;
                        Some(v)
                    },
                    None => {
                        proof {
                            assert(false);
                        }
                        None
                    },
                }
            },
            None => {
                let ghost s1 = *self;
                self.stats.misses = self.stats.misses + 1;
                proof {
                    assert(self.entries() =~= s1.entries());
                }
                None
            },
        }
    }

    proof fn lemma_after_touch(&self, s0: &Self, p: int)
        requires
            s0.wf(),
            0 <= p < s0.order@.len(),
            self.links_ok(),
            self.order@ == move_to_front(s0.order@, p),
            self.nodes@.len() == s0.nodes@.len(),
            forall|j: int| 0 <= j < self.nodes@.len() ==> {
                &&& (self.nodes@[j] is Some <==> s0.nodes@[j] is Some)
                &&& (#[trigger] self.nodes@[j] is Some ==> {
                    &&& self.node(j).key == s0.node(j).key
                    &&& self.node(j).value == s0.node(j).value
                    &&& self.node(j).cost == s0.node(j).cost
                })
            },
            self.free_indices == s0.free_indices,
            self.live == s0.live,
            self.total_cost_bytes == s0.total_cost_bytes,
        ensures
            self.wf(),
            self.entries() == move_to_front(s0.entries(), p),
            self.node(s0.order@[p] as int).value == s0.entries()[p].1,
    {
        let e = s0.entries();
        let order0 = s0.order@;
        assert forall|k: int| 0 <= k < self.order@.len() implies s0.slot_some(#[trigger] self.order@[k] as int) by {
            if k == 0 {
                s0.lemma_order_some(p);
            } else if k - 1 < p {
                assert(self.order@[k] == order0[k - 1]);
                s0.lemma_order_some(k - 1);
            } else {
                assert(self.order@[k] == order0[k]);
                s0.lemma_order_some(k);
            }
        }
        assert(self.entries() =~= self.order@.map_values(s0.payload_fn())) by {
            assert forall|k: int| 0 <= k < self.order@.len() implies #[trigger] self.entries()[k] == self.order@.map_values(s0.payload_fn())[k] by {
                assert(s0.slot_some(self.order@[k] as int));
            }
        }
        lemma_map_front(order0[p], order0.remove(p), s0.payload_fn());
        lemma_map_remove(order0, s0.payload_fn(), p);
        assert(self.entries() == move_to_front(e, p));
        lemma_cost_sum_move_to_front(e, p);
        lemma_keys_distinct_remove(e, p);
        lemma_keys_distinct_front(e[p], e.remove(p));
        assert forall|j: int| #![trigger self.nodes@[j]]
            0 <= j < self.nodes@.len() && self.nodes@[j] is Some implies self.order@.contains(j as usize) by {
            assert(order0.contains(j as usize));
            let a = choose|a: int| 0 <= a < order0.len() && order0[a] == j as usize;
            if a == p {
                assert(self.order@[0] == j as usize);
            } else if a < p {
                assert(self.order@[a + 1] == j as usize);
            } else {
                assert(self.order@[a] == j as usize);
            }
        }
    }
}


impl<K: View, V> LruCache<K, V> {
    /// Takes the entry in slot `idx` (position `p`) out of the cache and
    /// recycles the slot.
    fn detach(&mut self, idx: usize, Ghost(p): Ghost<int>) -> (n: LruNode<K, V>)
        requires
            old(self).wf(),
            0 <= p < old(self).order@.len(),
            old(self).order@[p] == idx,
        ensures
            final(self).wf(),
            final(self).entries() == old(self).entries().remove(p),
            (n.key, n.value, n.cost) == old(self).entries()[p],
            final(self).stats == old(self).stats,
            final(self).max_cost_bytes == old(self).max_cost_bytes,
    {
        let ghost s0 = *self;
        let ghost e = self.entries();
        proof {
            s0.lemma_order_some(p);
            assert(e[p] == (s0.node(idx as int).key, s0.node(idx as int).value, s0.node(idx as int).cost));
            lemma_cost_sum_remove(e, p);
        }
        self.unlink(idx, Ghost(p));
        let ghost s1 = *self;
        let mut slot: Option<LruNode<K, V>> = None;
        std::mem::swap(&mut slot, &mut self.nodes[idx]);
        self.free_indices.push(idx);
        self.live = self.live - 1;
        let n = match slot {
            Some(n) => n,
            None => vstd::pervasive::unreached(),
        };
        self.total_cost_bytes = self.total_cost_bytes.saturating_sub(n.cost);
        proof {
            self.lemma_detach(&s0, &s1, idx, p);
        }
        n
    }

    /// Removes `key`, returning its value if it was present.
    pub fn remove<Q: ?Sized + KeyQuery<K>>(&mut self, key: &Q) -> (r: Option<V>)
        requires
            old(self).wf(),
        ensures
            final(self).wf(),
            final(self).spec_max_cost() == old(self).spec_max_cost(),
            final(self).spec_stats() == old(self).spec_stats(),
            final(self).entries() == without_key(old(self).entries(), key.key_view()),
            key_pos(final(self).entries(), key.key_view()) == -1,
            ({
                let p = key_pos(old(self).entries(), key.key_view());
                match r {
                    Some(v) => p >= 0 && v == old(self).entries()[p].1,
                    None => p == -1,
                }
            }),
    {
        proof {
            lemma_without_key(self.entries(), key.key_view());
            lemma_key_pos_missing(without_key(self.entries(), key.key_view()), key.key_view());
        }
        match self.find(key) {
            Some(idx) => {
                let ghost p = key_pos(self.entries(), key.key_view());
                let n = self.detach(idx, Ghost(p));
                Some(n.value)
            },
            None => None,
        }
    }

    /// Drops the least recently used entry and returns its key and value.
    pub fn evict_lru(&mut self) -> (r: Option<(K, V)>)
        requires
            old(self).wf(),
            old(self).entries().len() > 0 ==> old(self).spec_stats().evictions < u64::MAX,
        ensures
            final(self).wf(),
            final(self).spec_max_cost() == old(self).spec_max_cost(),
            ({
                let e = old(self).entries();
                match r {
                    Some(kv) => {
                        &&& e.len() > 0
                        &&& kv.0 == e.last().0
                        &&& kv.1 == e.last().1
                        &&& final(self).entries() == e.drop_last()
                        &&& key_pos(final(self).entries(), kv.0@) == -1
                        &&& final(self).spec_stats() == (LruStats { evictions: (old(self).spec_stats().evictions + 1) as u64, ..old(self).spec_stats() })
                    },
                    None => {
                        &&& e.len() == 0
                        &&& final(self).entries() == e
                        &&& final(self).spec_stats() == old(self).spec_stats()
                    },
                }
            }),
    {
        let tail_idx = match self.tail {
            Some(t) => t,
            None => {
                return None;
            },
        };
        let ghost p = self.order@.len() - 1;
        let n = self.detach(tail_idx, Ghost(p));
        proof {
            assert(old(self).entries().remove(p) =~= old(self).entries().drop_last());
        }
        self.stats.evictions = self.stats.evictions + 1;
        proof {
            assert(self.entries() =~= old(self).entries().drop_last());
            let e = old(self).entries();
            assert forall|i: int| 0 <= i < self.entries().len() implies (#[trigger] self.entries()[i]).0@ != n.key@ by {
                assert(self.entries()[i] == e[i]);
                assert(e[i].0@ != e[e.len() - 1].0@);
            }
            lemma_key_pos_missing(self.entries(), n.key@);
        }
        Some((n.key, n.value))
    }
}


impl<K: View, V> LruCache<K, V> {
    #[verifier::rlimit(50)]
    proof fn lemma_detach(&self, s0: &Self, s1: &Self, idx: usize, p: int)
        requires
            s0.wf(),
            0 <= p < s0.order@.len(),
            s0.order@[p] == idx,
            s1.links_ok(),
            s1.order@ == s0.order@.remove(p),
            s1.payload_frame(s0),
            s1.nodes@[idx as int] is Some,
            self.nodes@ == s1.nodes@.update(idx as int, None),
            self.order@ == s1.order@,
            self.head == s1.head,
            self.tail == s1.tail,
            self.free_indices@ == s0.free_indices@.push(idx),
            self.live == s0.live - 1,
            self.total_cost_bytes == s0.total_cost_bytes - s0.node(idx as int).cost,
        ensures
            self.wf(),
            self.entries() == s0.entries().remove(p),
    {
        let e = s0.entries();
        let order1 = self.order@;
        assert(self.nodes@.len() == s0.nodes@.len());
        s0.lemma_order_some(p);
        lemma_cost_sum_remove(e, p);
        assert forall|k: int| 0 <= k < order1.len() implies order1[k] != idx by {
            let ok = if k < p { k } else { k + 1 };
            assert(order1[k] == s0.order@[ok]);
        }
        assert(self.links_ok()) by {
            assert forall|k: int| 0 <= k < order1.len() implies self.slot_some(#[trigger] order1[k] as int) by {
                assert(s1.slot_some(order1[k] as int));
            }
            assert forall|k: int| 0 <= k < order1.len() implies (#[trigger] self.node(order1[k] as int)).prev == (if k == 0 {
                None::<usize>
            } else {
                Some(order1[k - 1])
            }) by {
                assert(s1.node(order1[k] as int).prev == (if k == 0 { None::<usize> } else { Some(order1[k - 1]) }));
            }
            assert forall|k: int| 0 <= k < order1.len() implies (#[trigger] self.node(order1[k] as int)).next == (if k + 1
                == order1.len() {
                None::<usize>
            } else {
                Some(order1[k + 1])
            }) by {
                assert(s1.node(order1[k] as int).next == (if k + 1 == order1.len() { None::<usize> } else { Some(order1[k + 1]) }));
            }
        }
        assert(self.entries() =~= order1.map_values(s0.payload_fn())) by {
            assert forall|k: int| 0 <= k < order1.len() implies #[trigger] self.entries()[k] == order1.map_values(s0.payload_fn())[k] by {
                let ok = if k < p { k } else { k + 1 };
                assert(order1[k] == s0.order@[ok]);
                s0.lemma_order_some(ok);
                assert(s1.slot_some(order1[k] as int));
            }
        }
        lemma_map_remove(s0.order@, s0.payload_fn(), p);
        lemma_keys_distinct_remove(e, p);
        assert forall|j: int| #![trigger self.nodes@[j]]
            0 <= j < self.nodes@.len() && self.nodes@[j] is Some implies self.order@.contains(j as usize) by {
            assert(j != idx);
            assert(s0.nodes@[j] is Some);
            assert(s0.order@.contains(j as usize));
            let a = choose|a: int| 0 <= a < s0.order@.len() && s0.order@[a] == j as usize;
            assert(a != p);
            if a < p {
                assert(order1[a] == j as usize);
            } else {
                assert(order1[a - 1] == j as usize);
            }
        }
        assert forall|k: int| 0 <= k < s0.free_indices@.len() implies s0.free_indices@[k] != idx by {
            let f = s0.free_indices@[k];
            assert(s0.nodes@[f as int] is None);
        }
        assert forall|k: int| 0 <= k < self.free_indices@.len() implies {
            let f = #[trigger] self.free_indices@[k];
            &&& f < self.nodes@.len()
            &&& self.nodes@[f as int] is None
        } by {
            if k < s0.free_indices@.len() {
                assert(self.free_indices@[k] == s0.free_indices@[k]);
            }
        }
        assert forall|a: int, b: int| 0 <= a < self.free_indices@.len() && 0 <= b < self.free_indices@.len() && a != b
            implies self.free_indices@[a] != self.free_indices@[b] by {
            if a < s0.free_indices@.len() && b < s0.free_indices@.len() {
            } else if a < s0.free_indices@.len() {
                assert(s0.free_indices@[a] != idx);
            } else if b < s0.free_indices@.len() {
                assert(s0.free_indices@[b] != idx);
            }
        }
    }
}


impl<K: View, V> LruCache<K, V> {
    /// Evicts least recently used entries until `required_cost` more bytes
    /// fit under the budget (or the cache is empty). Unbounded caches keep
    /// everything.
    pub fn evict_to_fit(&mut self, required_cost: usize)
        requires
            old(self).wf(),
            cost_sum(old(self).entries()) + required_cost <= usize::MAX,
            old(self).spec_stats().evictions + old(self).entries().len() <= u64::MAX,
        ensures
            final(self).wf(),
            final(self).spec_max_cost() == old(self).spec_max_cost(),
            final(self).entries() == evict_result(
                old(self).entries(),
                required_cost as int,
                old(self).spec_max_cost() as int,
            ),
            final(self).spec_stats() == (LruStats {
                evictions: (old(self).spec_stats().evictions + old(self).entries().len()
                    - final(self).entries().len()) as u64,
                ..old(self).spec_stats()
            }),
    {
        if self.max_cost_bytes == 0 {
            return;
        }
        let ghost e0 = self.entries();
        let ghost st0 = self.stats;
        while self.total_cost_bytes + required_cost > self.max_cost_bytes && self.tail.is_some()
            invariant
                self.wf(),
                self.max_cost_bytes == old(self).max_cost_bytes,
                self.max_cost_bytes > 0,
                evict_result(self.entries(), required_cost as int, self.max_cost_bytes as int)
                    == evict_result(e0, required_cost as int, self.max_cost_bytes as int),
                self.total_cost_bytes + required_cost <= usize::MAX,
                self.stats.evictions + self.entries().len() == st0.evictions + e0.len(),
                self.entries().len() <= e0.len(),
                self.stats == (LruStats { evictions: self.stats.evictions, ..st0 }),
                e0 == old(self).entries(),
                st0 == old(self).stats,
                st0.evictions + e0.len() <= u64::MAX,
            decreases self.entries().len(),
        {
            let ghost e = self.entries();
            proof {
                assert(self.entries().len() > 0);
                assert(evict_result(e, required_cost as int, self.max_cost_bytes as int)
                    == evict_result(e.drop_last(), required_cost as int, self.max_cost_bytes as int));
                lemma_cost_sum_drop_last(e);
            }
            let _ = self.evict_lru();
        }
    }

    /// Inserts `key` with `value` and `cost_bytes`, replacing any previous
    /// entry for the key (whose value is returned), after evicting what is
    /// needed to make room. The new entry becomes the most recently used.
    pub fn insert(&mut self, key: K, value: V, cost_bytes: usize) -> (r: Option<V>)
        where K: CacheKey
        requires
            old(self).wf(),
            cost_sum(without_key(old(self).entries(), key@)) + cost_bytes <= usize::MAX,
            old(self).spec_stats().evictions + old(self).entries().len() <= u64::MAX,
        ensures
            final(self).wf(),
            final(self).spec_max_cost() == old(self).spec_max_cost(),
            ({
                let e = old(self).entries();
                let rest = evict_result(without_key(e, key@), cost_bytes as int, old(self).spec_max_cost() as int);
                &&& final(self).entries() == seq![(key, value, cost_bytes)] + rest
                &&& key_pos(final(self).entries(), key@) == 0
                &&& final(self).spec_stats() == (LruStats {
                    evictions: (old(self).spec_stats().evictions + without_key(e, key@).len() - rest.len()) as u64,
                    ..old(self).spec_stats()
                })
                &&& match r {
                    Some(v) => key_pos(e, key@) >= 0 && v == e[key_pos(e, key@)].1,
                    None => key_pos(e, key@) == -1,
                }
            }),
    {
        proof {
            key.lemma_key_view();
            lemma_without_key(self.entries(), key@);
        }
        let old_value = self.remove(&key);
        proof {
            assert(without_key(old(self).entries(), key@).len() <= old(self).entries().len());
        }
        self.evict_to_fit(cost_bytes);
        let ghost s1 = *self;
        let ghost rest = self.entries();
        proof {
            lemma_evict_result_prefix(without_key(old(self).entries(), key@), cost_bytes as int, self.max_cost_bytes as int);
            lemma_cost_sum_prefix_le(without_key(old(self).entries(), key@), rest.len() as int);
            assert(rest =~= without_key(old(self).entries(), key@).take(rest.len() as int));
        }
        proof {
            law_insert_then_lookup(old(self).entries(), key, value, cost_bytes, self.max_cost_bytes);
        }
        let node = LruNode { key, value, cost: cost_bytes, prev: None, next: None };
        let popped = self.free_indices.pop();
        let idx = match popped {
            Some(f) => {
                proof {
                    assert(s1.free_indices@[s1.free_indices@.len() - 1] == f);
                }
                self.nodes.set(f, Some(node));
                f
            },
            None => {
                let i = self.nodes.len();
                self.nodes.push(Some(node));
                i
            },
        };
        self.total_cost_bytes = self.total_cost_bytes + cost_bytes;
        proof {
            assert(self.nodes.len() as int == self.nodes@.len());
        }
        self.live = self.live + 1;
        let ghost s2 = *self;
        proof {
            self.lemma_insert_slot(&s1, idx);
        }
        self.push_front(idx);
        proof {
            self.lemma_after_insert(&s1, &s2, idx);
        }
        old_value
    }

    proof fn lemma_insert_slot(&self, s1: &Self, idx: usize)
        requires
            s1.wf(),
            self.order@ == s1.order@,
            self.head == s1.head,
            self.tail == s1.tail,
            (self.nodes@.len() == s1.nodes@.len() && idx < s1.nodes@.len() && s1.nodes@[idx as int] is None
                && self.nodes@ == s1.nodes@.update(idx as int, self.nodes@[idx as int])
                && s1.free_indices@.len() > 0 && s1.free_indices@.last() == idx
                && self.free_indices@ == s1.free_indices@.drop_last())
            || (idx == s1.nodes@.len() && self.nodes@ == s1.nodes@.push(self.nodes@[idx as int])
                && self.free_indices@ == s1.free_indices@ && s1.free_indices@.len() == 0),
            self.nodes@[idx as int] is Some,
            self.nodes@.len() <= usize::MAX,
        ensures
            self.links_ok(),
            self.slot_some(idx as int),
            !self.order@.contains(idx),
            forall|k: int| 0 <= k < self.order@.len() ==> #[trigger] self.nodes@[self.order@[k] as int] == s1.nodes@[self.order@[k] as int],
    {
        assert forall|k: int| 0 <= k < self.order@.len() implies self.order@[k] != idx by {
            s1.lemma_order_some(k);
        }
        assert forall|k: int| 0 <= k < self.order@.len() implies #[trigger] self.nodes@[self.order@[k] as int] == s1.nodes@[self.order@[k] as int] by {
            s1.lemma_order_some(k);
        }
        let order = self.order@;
        assert forall|k: int| 0 <= k < order.len() implies self.slot_some(#[trigger] order[k] as int) by {
            s1.lemma_order_some(k);
        }
        assert forall|k: int| 0 <= k < order.len() implies (#[trigger] self.node(order[k] as int)).prev == (if k == 0 {
            None::<usize>
        } else {
            Some(order[k - 1])
        }) by {
            assert(self.nodes@[order[k] as int] == s1.nodes@[order[k] as int]);
            assert(s1.node(order[k] as int).prev == (if k == 0 { None::<usize> } else { Some(order[k - 1]) }));
        }
        assert forall|k: int| 0 <= k < order.len() implies (#[trigger] self.node(order[k] as int)).next == (if k + 1
            == order.len() {
            None::<usize>
        } else {
            Some(order[k + 1])
        }) by {
            assert(self.nodes@[order[k] as int] == s1.nodes@[order[k] as int]);
            assert(s1.node(order[k] as int).next == (if k + 1 == order.len() { None::<usize> } else { Some(order[k + 1]) }));
        }
    }

    proof fn lemma_after_insert(&self, s1: &Self, s2: &Self, idx: usize)
        requires
            s1.wf(),
            s2.links_ok(),
            s2.slot_some(idx as int),
            !s2.order@.contains(idx),
            s2.order@ == s1.order@,
            forall|k: int| 0 <= k < s2.order@.len() ==> #[trigger] s2.nodes@[s2.order@[k] as int] == s1.nodes@[s2.order@[k] as int],
            (s2.nodes@.len() == s1.nodes@.len() && idx < s1.nodes@.len() && s1.nodes@[idx as int] is None
                && s2.nodes@ == s1.nodes@.update(idx as int, s2.nodes@[idx as int])
                && s1.free_indices@.len() > 0 && s1.free_indices@.last() == idx
                && s2.free_indices@ == s1.free_indices@.drop_last())
            || (idx == s1.nodes@.len() && s2.nodes@ == s1.nodes@.push(s2.nodes@[idx as int])
                && s2.free_indices@ == s1.free_indices@ && s1.free_indices@.len() == 0),
            s2.nodes@.len() <= usize::MAX,
            forall|k: int| 0 <= k < s1.entries().len() ==> (#[trigger] s1.entries()[k]).0@ != s2.node(idx as int).key@,
            s2.total_cost_bytes == s1.total_cost_bytes + s2.node(idx as int).cost,
            s2.live == s1.live + 1,
            self.links_ok(),
            self.order@ == seq![idx] + s2.order@,
            self.payload_frame(s2),
        ensures
            self.wf(),
            self.entries() == seq![(s2.node(idx as int).key, s2.node(idx as int).value, s2.node(idx as int).cost)] + s1.entries(),
    {
        let order = self.order@;
        assert forall|k: int| 0 <= k < order.len() implies s2.slot_some(#[trigger] order[k] as int) by {
            if k > 0 {
                assert(order[k] == s2.order@[k - 1]);
                assert(s2.slot_some(s2.order@[k - 1] as int));
            }
        }
        self.lemma_entries_frame(s2);
        assert(s2.order@.map_values(s2.payload_fn()) =~= s1.entries()) by {
            assert forall|k: int| 0 <= k < s2.order@.len() implies #[trigger] s2.order@.map_values(s2.payload_fn())[k] == s1.entries()[k] by {
                assert(s2.nodes@[s2.order@[k] as int] == s1.nodes@[s2.order@[k] as int]);
            }
        }
        lemma_map_front(idx, s2.order@, s2.payload_fn());
        assert(self.entries() == seq![(s2.node(idx as int).key, s2.node(idx as int).value, s2.node(idx as int).cost)] + s1.entries());
        lemma_keys_distinct_front((s2.node(idx as int).key, s2.node(idx as int).value, s2.node(idx as int).cost), s1.entries());
        lemma_cost_sum_front((s2.node(idx as int).key, s2.node(idx as int).value, s2.node(idx as int).cost), s1.entries());
        assert forall|j: int| #![trigger self.nodes@[j]]
            0 <= j < self.nodes@.len() && self.nodes@[j] is Some implies self.order@.contains(j as usize) by {
            if j == idx {
                assert(order[0] == idx);
            } else {
                assert(s1.nodes@[j] is Some);
                assert(s1.order@.contains(j as usize));
                let a = choose|a: int| 0 <= a < s1.order@.len() && s1.order@[a] == j as usize;
                assert(order[a + 1] == j as usize);
            }
        }
        assert forall|k: int| 0 <= k < self.free_indices@.len() implies {
            let f = #[trigger] self.free_indices@[k];
            &&& f < self.nodes@.len()
            &&& self.nodes@[f as int] is None
        } by {
            assert(self.free_indices@[k] == s1.free_indices@[k]);
            if idx < s1.nodes@.len() {
                assert(s1.free_indices@[k] != s1.free_indices@[s1.free_indices@.len() - 1]);
            }
        }
        assert forall|a: int, b: int| 0 <= a < self.free_indices@.len() && 0 <= b < self.free_indices@.len() && a != b
            implies self.free_indices@[a] != self.free_indices@[b] by {
            assert(self.free_indices@[a] == s1.free_indices@[a]);
            assert(self.free_indices@[b] == s1.free_indices@[b]);
        }
    }
}


impl<K: View, V> LruCache<K, V> {
    /// Empties the cache. The activity counters are kept.
    pub fn clear(&mut self)
        requires
            old(self).wf(),
        ensures
            final(self).wf(),
            final(self).entries() == Seq::<LruEntry<K, V>>::empty(),
            final(self).spec_max_cost() == old(self).spec_max_cost(),
            final(self).spec_stats() == old(self).spec_stats(),
    {
        self.nodes.clear();
        self.free_indices.clear();
        self.head = None;
        self.tail = None;
        self.total_cost_bytes = 0;
        self.live = 0;
        self.order = Ghost(Seq::empty());
        proof {
            assert(self.entries() =~= Seq::<LruEntry<K, V>>::empty());
        }
    }

    /// Changes the budget and evicts until the cache fits it.
    pub fn set_max_cost_bytes(&mut self, max_bytes: usize)
        requires
            old(self).wf(),
            old(self).spec_stats().evictions + old(self).entries().len() <= u64::MAX,
        ensures
            final(self).wf(),
            final(self).spec_max_cost() == max_bytes,
            final(self).entries() == evict_result(old(self).entries(), 0, max_bytes as int),
            final(self).spec_stats() == (LruStats {
                evictions: (old(self).spec_stats().evictions + old(self).entries().len()
                    - final(self).entries().len()) as u64,
                ..old(self).spec_stats()
            }),
    {
        self.max_cost_bytes = max_bytes;
        self.evict_to_fit(0);
    }

    /// Evicts least recently used entries until the total cost is at most
    /// `target_cost`; returns how many were evicted.
    pub fn evict_to_cost(&mut self, target_cost: usize) -> (count: usize)
        requires
            old(self).wf(),
            old(self).spec_stats().evictions + old(self).entries().len() <= u64::MAX,
        ensures
            final(self).wf(),
            final(self).spec_max_cost() == old(self).spec_max_cost(),
            final(self).entries() == shrink_result(old(self).entries(), target_cost as int),
            count == old(self).entries().len() - final(self).entries().len(),
            final(self).spec_stats() == (LruStats {
                evictions: (old(self).spec_stats().evictions + count) as u64,
                ..old(self).spec_stats()
            }),
    {
        let ghost e0 = self.entries();
        let ghost st0 = self.stats;
        let mut count: usize = 0;
        proof {
            assert(self.nodes.len() as int == self.nodes@.len());
        }
        while self.total_cost_bytes > target_cost && self.tail.is_some()
            invariant
                self.wf(),
                self.max_cost_bytes == old(self).max_cost_bytes,
                shrink_result(self.entries(), target_cost as int) == shrink_result(e0, target_cost as int),
                count + self.entries().len() == e0.len(),
                self.stats == (LruStats { evictions: (st0.evictions + count) as u64, ..st0 }),
                e0 == old(self).entries(),
                st0 == old(self).stats,
                st0.evictions + e0.len() <= u64::MAX,
                e0.len() <= usize::MAX,
            decreases self.entries().len(),
        {
            let ghost e = self.entries();
            proof {
                assert(self.entries().len() > 0);
                assert(shrink_result(e, target_cost as int) == shrink_result(e.drop_last(), target_cost as int));
            }
            if self.evict_lru().is_some() {
                count = count + 1;
            }
        }
        count
    }
}

proof fn lemma_cost_sum_same_costs<K, V>(a: Seq<LruEntry<K, V>>, b: Seq<LruEntry<K, V>>)
    requires
        a.len() == b.len(),
        forall|i: int| 0 <= i < a.len() ==> (#[trigger] a[i]).2 == b[i].2,
    ensures
        cost_sum(a) == cost_sum(b),
    decreases a.len(),
{
    if a.len() > 0 {
        lemma_cost_sum_same_costs(a.drop_last(), b.drop_last());
        assert(a.last().2 == b[b.len() - 1].2);
    }
}

/// What a lookup sees right after an insert: the inserted value, as the most
/// recently used entry.
pub proof fn law_insert_then_lookup<K: View, V>(
    e: Seq<LruEntry<K, V>>,
    key: K,
    value: V,
    cost: usize,
    max: usize,
)
    requires
        keys_distinct(e),
    ensures
        ({
            let after = seq![(key, value, cost)] + evict_result(without_key(e, key@), cost as int, max as int);
            &&& key_pos(after, key@) == 0
            &&& after[0].1 == value
            &&& keys_distinct(after)
        }),
{
    lemma_without_key(e, key@);
    let w = without_key(e, key@);
    lemma_evict_result_prefix(w, cost as int, max as int);
    lemma_keys_distinct_prefix(w, evict_result(w, cost as int, max as int).len() as int);
    let rest = evict_result(w, cost as int, max as int);
    assert(rest =~= w.take(rest.len() as int));
    assert forall|k: int| 0 <= k < rest.len() implies (#[trigger] rest[k]).0@ != key@ by {
        assert(rest[k] == w[k]);
    }
    lemma_keys_distinct_front((key, value, cost), rest);
    lemma_key_pos_found(seq![(key, value, cost)] + rest, 0, key@);
}

/// With a bounded budget, an insert whose own cost fits leaves the cache
/// within the budget.
pub proof fn law_insert_respects_budget<K: View, V>(
    e: Seq<LruEntry<K, V>>,
    key: K,
    value: V,
    cost: usize,
    max: usize,
)
    requires
        0 < max,
        cost <= max,
    ensures
        cost_sum(seq![(key, value, cost)] + evict_result(without_key(e, key@), cost as int, max as int))
            <= max,
{
    lemma_evict_result_fits(without_key(e, key@), cost as int, max as int);
    lemma_cost_sum_front((key, value, cost), evict_result(without_key(e, key@), cost as int, max as int));
}

proof fn lemma_evict_result_fits<K, V>(e: Seq<LruEntry<K, V>>, req: int, max: int)
    requires
        0 < max,
        0 <= req <= max,
    ensures
        cost_sum(evict_result(e, req, max)) + req <= max,
    decreases e.len(),
{
    if e.len() == 0 {
    } else if cost_sum(e) + req <= max {
    } else {
        lemma_evict_result_fits(e.drop_last(), req, max);
    }
}

/// After removing a key, lookups of it miss.
pub proof fn law_remove_then_lookup<K: View, V>(e: Seq<LruEntry<K, V>>, k: K::V)
    requires
        keys_distinct(e),
    ensures
        key_pos(without_key(e, k), k) == -1,
{
    lemma_without_key(e, k);
    lemma_key_pos_missing(without_key(e, k), k);
}

} // verus!
