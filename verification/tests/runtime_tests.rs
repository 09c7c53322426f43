use vitadeck::runtime::arena::{StringArena, StringRef};
use vitadeck::runtime::budget::{Subsystem, SubsystemBudgets};
use vitadeck::runtime::governor::{MemoryGovernor, MemoryPressure};
use vitadeck::runtime::lru::LruCache;
use vitadeck::runtime::pool::{BufferPool, TIER_SMALL};
use vitadeck::runtime::VitaRuntime;

#[test]
fn test_string_arena_push_and_get() {
    let mut arena = StringArena::new();
    let ref1 = arena.push("PCSF00001");
    let ref2 = arena.push("Killzone: Mercenary");
    let ref3 = arena.push("");

    assert_eq!(arena.get(ref1), "PCSF00001");
    assert_eq!(arena.get(ref2), "Killzone: Mercenary");
    assert_eq!(arena.get(ref3), "");
    assert_eq!(arena.get(StringRef::empty()), "");
}

#[test]
fn test_string_arena_intern_dedup() {
    let mut arena = StringArena::new();
    let ref1 = arena.intern("Sony Interactive Entertainment");
    let ref2 = arena.intern("Sony Interactive Entertainment");
    let ref3 = arena.intern("Ubisoft");

    assert_eq!(ref1, ref2);
    assert_ne!(ref1, ref3);
    assert_eq!(arena.get(ref1), "Sony Interactive Entertainment");
    assert_eq!(arena.get(ref3), "Ubisoft");
}

#[test]
fn test_string_arena_overflow_chunks() {
    let mut arena = StringArena::new();
    let large_string = "X".repeat(40 * 1024);
    let ref1 = arena.push(&large_string);
    let ref2 = arena.push(&large_string);

    assert_eq!(arena.chunk_count(), 2);
    assert_eq!(arena.get(ref1), &large_string);
    assert_eq!(arena.get(ref2), &large_string);
}

#[test]
fn arena_clips_long_strings_at_a_char_boundary() {
    let mut arena = StringArena::new();
    let mut text = "a".repeat(65534);
    text.push('é');
    let r = arena.push(&text);
    assert_eq!(r.len, 65534);
    assert_eq!(arena.get(r), &text[..65534]);
    assert_eq!(arena.total_bytes_stored(), 65534);
}

#[test]
fn arena_clear_and_capacity() {
    let mut arena = StringArena::with_capacity(10);
    assert_eq!(arena.chunk_count(), 1);
    assert_eq!(arena.allocated_bytes(), 65536);
    let r = arena.push("abc");
    assert_eq!(arena.get(r), "abc");
    arena.clear();
    assert_eq!(arena.total_bytes_stored(), 0);
    assert_eq!(arena.get(r), "");
    assert_eq!(arena.chunk_count(), 1);
}

#[test]
fn test_budget_tracking() {
    let mut budgets = SubsystemBudgets::default();
    assert!(budgets.get(Subsystem::Textures).has_headroom(10 * 1024 * 1024));

    budgets.record_alloc(Subsystem::Textures, 50 * 1024 * 1024);
    assert_eq!(budgets.get(Subsystem::Textures).used_bytes, 50 * 1024 * 1024);
    assert_eq!(budgets.get(Subsystem::Textures).peak_bytes, 50 * 1024 * 1024);
    assert!(!budgets.get(Subsystem::Textures).has_headroom(15 * 1024 * 1024));

    budgets.record_free(Subsystem::Textures, 20 * 1024 * 1024);
    assert_eq!(budgets.get(Subsystem::Textures).used_bytes, 30 * 1024 * 1024);
    assert_eq!(budgets.get(Subsystem::Textures).peak_bytes, 50 * 1024 * 1024);
}

#[test]
fn budget_totals_and_remaining() {
    let mut budgets = SubsystemBudgets::default();
    assert_eq!(budgets.total_limit_bytes(), 130 * 1024 * 1024);
    budgets.record_alloc(Subsystem::Audio, 5);
    budgets.record_alloc(Subsystem::Network, 7);
    assert_eq!(budgets.total_used_bytes(), 12);
    budgets.record_free(Subsystem::Audio, 100);
    assert_eq!(budgets.get(Subsystem::Audio).used_bytes, 0);
    assert_eq!(budgets.get(Subsystem::Audio).remaining_bytes(), 12 * 1024 * 1024);
    assert_eq!(budgets.get(Subsystem::Network).remaining_bytes(), 8 * 1024 * 1024 - 7);
    assert_eq!(Subsystem::Ui.name(), "UI & Meshes");
}

#[test]
fn test_memory_pressure_transitions() {
    let mut gov = MemoryGovernor::new();

    gov.set_simulated_free_bytes(Some(150 * 1024 * 1024));
    let (pressure, _changed) = gov.tick();
    assert_eq!(pressure, MemoryPressure::Normal);

    gov.set_simulated_free_bytes(Some(60 * 1024 * 1024));
    let (pressure, changed) = gov.tick();
    assert_eq!(pressure, MemoryPressure::Warning);
    assert!(changed);

    gov.set_simulated_free_bytes(Some(30 * 1024 * 1024));
    let (pressure, changed) = gov.tick();
    assert_eq!(pressure, MemoryPressure::Aggressive);
    assert!(changed);

    gov.set_simulated_free_bytes(Some(15 * 1024 * 1024));
    let (pressure, changed) = gov.tick();
    assert_eq!(pressure, MemoryPressure::Emergency);
    assert!(changed);
}

#[test]
fn governor_reports_unchanged_level_and_labels() {
    let mut gov = MemoryGovernor::new();
    gov.set_simulated_free_bytes(Some(96 * 1024 * 1024));
    assert_eq!(gov.tick(), (MemoryPressure::Normal, false));
    assert_eq!(gov.last_free_bytes(), 96 * 1024 * 1024);
    gov.set_simulated_free_bytes(None);
    assert_eq!(gov.poll_system_free_memory(), 192 * 1024 * 1024);
    assert_eq!(MemoryPressure::Aggressive.label(), "AGGRESSIVE EVICTION");
    assert!(MemoryPressure::Emergency.at_least(MemoryPressure::Warning));
}

#[test]
fn test_lru_basic_put_get() {
    let mut cache = LruCache::<String, i32>::new(100);
    cache.insert("a".to_string(), 10, 20);
    cache.insert("b".to_string(), 20, 30);
    assert_eq!(cache.get("a"), Some(&10));
    assert_eq!(cache.get("b"), Some(&20));
    assert_eq!(cache.total_cost_bytes(), 50);
}

#[test]
fn test_lru_eviction_on_capacity() {
    let mut cache = LruCache::<String, i32>::new(50);
    cache.insert("a".to_string(), 1, 20);
    cache.insert("b".to_string(), 2, 20);
    cache.insert("c".to_string(), 3, 20);
    assert_eq!(cache.get("a"), None);
    assert_eq!(cache.get("b"), Some(&2));
    assert_eq!(cache.get("c"), Some(&3));
    assert_eq!(cache.total_cost_bytes(), 40);
}

#[test]
fn lru_get_refreshes_recency_and_counts() {
    let mut cache = LruCache::<String, i32>::new(40);
    cache.insert("a".to_string(), 1, 20);
    cache.insert("b".to_string(), 2, 20);
    assert_eq!(cache.get("a"), Some(&1));
    cache.insert("c".to_string(), 3, 20);
    assert!(cache.contains_key("a"));
    assert!(!cache.contains_key("b"));
    assert_eq!(cache.peek("c"), Some(&3));
    let stats = cache.stats();
    assert_eq!(stats.hits, 1);
    assert_eq!(stats.evictions, 1);
    assert_eq!(stats.item_count, 2);
    assert_eq!(stats.total_cost_bytes, 40);
    assert_eq!(cache.get("zzz"), None);
    assert_eq!(cache.stats().misses, 1);
}

#[test]
fn lru_insert_replaces_and_remove() {
    let mut cache = LruCache::<String, i32>::new(0);
    assert_eq!(cache.insert("k".to_string(), 1, 5), None);
    assert_eq!(cache.insert("k".to_string(), 2, 7), Some(1));
    assert_eq!(cache.len(), 1);
    assert_eq!(cache.total_cost_bytes(), 7);
    assert_eq!(cache.remove("k"), Some(2));
    assert!(cache.is_empty());
    assert_eq!(cache.remove("k"), None);
}

#[test]
fn lru_budget_changes_and_eviction() {
    let mut cache = LruCache::<i32, i32>::new(1000);
    for i in 0..10 {
        cache.insert(i, i * 10, 100);
    }
    assert_eq!(cache.total_cost_bytes(), 1000);
    assert_eq!(cache.evict_to_cost(500), 5);
    assert_eq!(cache.len(), 5);
    assert_eq!(cache.peek(&0), None);
    assert_eq!(cache.peek(&9), Some(&90));
    cache.set_max_cost_bytes(250);
    assert_eq!(cache.len(), 2);
    assert_eq!(cache.max_cost_bytes(), 250);
    assert_eq!(cache.evict_lru(), Some((8, 80)));
    cache.clear();
    assert_eq!(cache.len(), 0);
    assert_eq!(cache.total_cost_bytes(), 0);
}

#[test]
fn test_runtime_initialization() {
    let mut runtime = VitaRuntime::new();
    let (pressure, _) = runtime.tick();
    assert_eq!(pressure, MemoryPressure::Normal);
    assert!(runtime.budgets.get(Subsystem::Textures).limit_bytes > 0);
}

#[test]
fn runtime_reports_pressure_and_free_memory() {
    let mut runtime = VitaRuntime::new();
    runtime.governor.set_simulated_free_bytes(Some(1024));
    let (pressure, changed) = runtime.tick();
    assert_eq!(pressure, MemoryPressure::Emergency);
    assert!(changed);
    assert_eq!(runtime.pressure(), MemoryPressure::Emergency);
    assert_eq!(runtime.free_memory_bytes(), 1024);
}

#[test]
fn test_buffer_pool_recycling() {
    let mut pool = BufferPool::new(4, 2, 1);
    let buf1 = pool.acquire(20 * 1024);
    assert!(buf1.capacity() >= TIER_SMALL);
    pool.release(buf1);

    assert_eq!(pool.stats().releases, 1);
    let buf2 = pool.acquire(10 * 1024);
    assert_eq!(pool.stats().hits, 1);
    assert!(buf2.capacity() >= TIER_SMALL);
}

#[test]
fn buffer_pool_tiers_and_clear() {
    let mut pool = BufferPool::new(1, 1, 1);
    let small = pool.acquire(10);
    let medium = pool.acquire(100 * 1024);
    let huge = pool.acquire(4 * 1024 * 1024);
    assert!(huge.capacity() >= 4 * 1024 * 1024);
    pool.release(small);
    pool.release(medium);
    pool.release(Vec::with_capacity(16));
    assert!(pool.total_pooled_bytes() >= 32 * 1024 + 256 * 1024);
    let again = pool.acquire(200 * 1024);
    assert!(again.is_empty());
    assert_eq!(pool.stats().hits, 1);
    assert_eq!(pool.stats().acquires, 4);
    pool.clear();
    assert_eq!(pool.total_pooled_bytes(), 0);
}

#[test]
fn lru_get_mut_changes_the_value_and_refreshes_it() {
    let mut cache = LruCache::<String, i32>::new(40);
    cache.insert("a".to_string(), 1, 20);
    cache.insert("b".to_string(), 2, 20);
    if let Some(v) = cache.get_mut("a") {
        *v = 10;
    }
    assert!(cache.get_mut("zzz").is_none());
    cache.insert("c".to_string(), 3, 20);
    assert_eq!(cache.peek("a"), Some(&10));
    assert!(!cache.contains_key("b"));
    let stats = cache.stats();
    assert_eq!((stats.hits, stats.misses), (1, 1));
}
