use vstd::prelude::*;

use crate::scanner::Game;
use crate::text::{decimal, has_key, insert_sorted, lemma_stable_start, lemma_stable_step, push_decimal, push_str, position_of, strictly_sorted, to_lowercase, unicode_lower, views};

verus! {

/// `2^e`.
pub open spec fn pow_two(e: nat) -> nat
    decreases e,
{
    if e == 0 {
        1
    } else {
        2 * pow_two((e - 1) as nat)
    }
}

/// Number of binary digits of `n` (zero for zero).
pub open spec fn bit_len(n: nat) -> nat
    decreases n,
{
    if n == 0 {
        0
    } else {
        1 + bit_len(n / 2)
    }
}

/// `num / den` rounded to the nearest integer, ties to even.
pub open spec fn round_div_even(num: nat, den: nat) -> nat {
    let q = num / den;
    let r = num % den;
    if 2 * r > den || (2 * r == den && q % 2 == 1) {
        q + 1
    } else {
        q
    }
}

/// The value a 64-bit float holds after converting `n` to it: `n` itself
/// when it has at most 53 significant bits, else `n` rounded to 53
/// significant bits (ties to even).
pub open spec fn as_f64_value(n: nat) -> nat {
    if bit_len(n) <= 53 {
        n
    } else {
        let u = pow_two((bit_len(n) - 53) as nat);
        round_div_even(n, u) * u
    }
}

/// A count of tenths written with one decimal place.
pub open spec fn one_decimal(tenths: nat) -> Seq<char> {
    decimal(tenths / 10) + seq!['.'] + decimal(tenths % 10)
}

/// A byte count for people: gigabytes and megabytes with one decimal,
/// kilobytes rounded, otherwise bytes. Rounding is to nearest, ties to even,
/// of the value a 64-bit float holds (exact below 2^53 bytes).
pub open spec fn format_bytes_spec(bytes: u64) -> Seq<char> {
    if bytes >= 1073741824 {
        one_decimal(round_div_even(as_f64_value(bytes as nat) * 10, 1073741824)) + " GB"@
    } else if bytes >= 1048576 {
        one_decimal(round_div_even(bytes as nat * 10, 1048576)) + " MB"@
    } else if bytes >= 1024 {
        decimal(round_div_even(bytes as nat, 1024)) + " KB"@
    } else {
        decimal(bytes as nat) + " B"@
    }
}

proof fn lemma_round_div_even_bound(num: nat, den: nat)
    requires
        den > 0,
    ensures
        round_div_even(num, den) * den <= num + den,
        round_div_even(num, den) <= num / den + 1,
{
    let q = num / den;
    assert(q * den <= num) by (nonlinear_arith)
        requires
            den > 0,
            q == num / den,
    ;
    assert((q + 1) * den == q * den + den) by (nonlinear_arith);
}

fn round_div_even_exec(num: u128, den: u128) -> (r: u128)
    requires
        0 < den < 0x1_0000_0000_0000_0000_0000_0000,
        num < 0x1_0000_0000_0000_0000_0000_0000,
    ensures
        r == round_div_even(num as nat, den as nat),
{
    let q = num / den;
    let r = num % den;
    if 2 * r > den || (2 * r == den && q % 2 == 1) {
        q + 1
    } else {
        q
    }
}

proof fn lemma_bit_len_small(n: nat, k: nat)
    requires
        n < pow_two(k),
    ensures
        bit_len(n) <= k,
    decreases k,
{
    if n > 0 {
        if k == 0 {
        } else {
            lemma_bit_len_small(n / 2, (k - 1) as nat);
        }
    }
}

proof fn lemma_pow_two_64()
    ensures
        pow_two(64) == 0x1_0000_0000_0000_0000,
        pow_two(53) == 0x20_0000_0000_0000,
        pow_two(11) == 2048,
{
    reveal_with_fuel(pow_two, 65);
}

/// The value `n as f64` holds.
fn f64_value(n: u64) -> (v: u128)
    ensures
        v == as_f64_value(n as nat),
        v <= n as nat + 2048,
{
    let mut m = n;
    let mut bits: u64 = 0;
    proof {
        assert(pow_two(0) == 1);
        assert(m as nat * pow_two(0) == m as nat);
    }
    while m > 0
        invariant
            bit_len(n as nat) == bits + bit_len(m as nat),
            bits <= 64,
            m as nat * pow_two(bits as nat) <= n as nat,
            bits > 0 ==> pow_two((bits - 1) as nat) <= n as nat,
        decreases m,
    {
        proof {
            assert(pow_two(bits as nat + 1) == 2 * pow_two(bits as nat));
            assert((m / 2) as nat * pow_two(bits as nat + 1) <= m as nat * pow_two(bits as nat)) by (nonlinear_arith)
                requires
                    pow_two(bits as nat + 1) == 2 * pow_two(bits as nat),
            ;
            assert(pow_two(bits as nat) <= m as nat * pow_two(bits as nat)) by (nonlinear_arith)
                requires
                    m > 0,
            ;
            lemma_pow_two_64();
            if bits == 64 {
                assert(pow_two(64) <= n as nat);
            }
        }
        m = m / 2;
        bits = bits + 1;
    }
    if bits <= 53 {
        return n as u128;
    }
    let mut unit: u128 = 1;
    let mut k: u64 = 0;
    while k < bits - 53
        invariant
            bits <= 64,
            k <= bits - 53,
            unit == pow_two(k as nat),
            1 <= unit <= 2048,
            k <= 11,
        decreases bits - 53 - k,
    {
        proof {
            assert(pow_two(k as nat + 1) == 2 * pow_two(k as nat));
            lemma_pow_two_64();
            lemma_pow_two_le(k as nat + 1, 11);
        }
        unit = unit * 2;
        k = k + 1;
    }
    let q = round_div_even_exec(n as u128, unit);
    proof {
        lemma_round_div_even_bound(n as nat, unit as nat);
    }
    q * unit
}

proof fn lemma_pow_two_le(a: nat, b: nat)
    requires
        a <= b,
    ensures
        pow_two(a) <= pow_two(b),
    decreases b,
{
    if a < b {
        lemma_pow_two_le(a, (b - 1) as nat);
    }
}

fn push_one_decimal(s: &mut String, tenths: u64)
    ensures
        final(s)@ == old(s)@ + one_decimal(tenths as nat),
{
    let ghost s0 = s@;
    push_decimal(s, tenths / 10);
    let ghost s1 = s@;
    s.push('.');
    push_decimal(s, tenths % 10);
    proof {
        assert(s@ =~= s0 + one_decimal(tenths as nat));
    }
}

/// A byte count for people, as the settings page shows cache sizes.
pub fn format_bytes(bytes: u64) -> (s: String)
    ensures
        s@ == format_bytes_spec(bytes),
{
    let mut s = String::new();
    if bytes >= 1073741824 {
        let v = f64_value(bytes);
        let tenths = round_div_even_exec(v * 10, 1073741824);
        proof {
            lemma_round_div_even_bound(v as nat * 10, 1073741824);
            assert(tenths <= 0x10_0000_0000_0000);
        }
        push_one_decimal(&mut s, tenths as u64);
        push_str(&mut s, " GB");
    } else if bytes >= 1048576 {
        let tenths = round_div_even_exec(bytes as u128 * 10, 1048576);
        proof {
            lemma_round_div_even_bound(bytes as nat * 10, 1048576);
        }
        push_one_decimal(&mut s, tenths as u64);
        push_str(&mut s, " MB");
    } else if bytes >= 1024 {
        let units = round_div_even_exec(bytes as u128, 1024);
        proof {
            lemma_round_div_even_bound(bytes as nat, 1024);
        }
        push_decimal(&mut s, units as u64);
        push_str(&mut s, " KB");
    } else {
        push_decimal(&mut s, bytes);
        push_str(&mut s, " B");
    }
    s
}

/// The stems a cached file may have while its game is installed: the
/// title id, artwork key, title and file-name-safe title, lower-cased.
pub struct KeySet {
    keys: Vec<String>,
}

/// Characters a file name cannot hold, replaced by `_` in cache names.
pub open spec fn is_unsafe_file_char(c: char) -> bool {
    c == '/' || c == '\\' || c == ':' || c == '*' || c == '?' || c == '"' || c == '<' || c == '>' || c == '|'
}

/// A title with characters a file name cannot hold replaced by `_`.
pub open spec fn file_safe_title(t: Seq<char>) -> Seq<char> {
    t.map_values(|c: char| if is_unsafe_file_char(c) { '_' } else { c })
}

/// The keys one game contributes.
pub open spec fn game_keys(g: Game) -> Set<Seq<char>> {
    set![
        unicode_lower(g.title_id@),
        unicode_lower(g.art_key@),
        unicode_lower(g.title@),
        unicode_lower(file_safe_title(g.title@)),
    ]
}

/// The keys of all games.
pub open spec fn all_game_keys(games: Seq<Game>) -> Set<Seq<char>>
    decreases games.len(),
{
    if games.len() == 0 {
        Set::empty()
    } else {
        all_game_keys(games.drop_last()).union(game_keys(games.last()))
    }
}

fn file_safe_title_exec(t: &str) -> (r: String)
    ensures
        r@ == file_safe_title(t@),
{
    let v = crate::text::chars_of(t);
    let mut out = String::new();
    let mut i: usize = 0;
    while i < v.len()
        invariant
            v@ == t@,
            i <= v@.len(),
            out@ == file_safe_title(v@.take(i as int)),
        decreases v@.len() - i,
    {
        let c = v[i];
        let d = if c == '/' || c == '\\' || c == ':' || c == '*' || c == '?' || c == '"' || c == '<' || c == '>'
            || c == '|' {
            '_'
        } else {
            c
        };
        out.push(d);
        proof {
            assert(out@ =~= file_safe_title(v@.take(i as int + 1)));
        }
        i = i + 1;
    }
    proof {
        assert(v@.take(i as int) =~= v@);
    }
    out
}

impl KeySet {
    /// The keys held.
    pub closed spec fn view_set(&self) -> Set<Seq<char>> {
        views(self.keys@).to_set()
    }

    pub closed spec fn wf(&self) -> bool {
        strictly_sorted(views(self.keys@))
    }

    fn add(&mut self, k: String)
        requires
            old(self).wf(),
        ensures
            final(self).wf(),
            final(self).view_set() == old(self).view_set().insert(k@),
    {
        let ghost kv = k@;
        insert_sorted(&mut self.keys, k);
        proof {
            assert(views(self.keys@).to_set() =~= views(old(self).keys@).to_set().insert(kv));
        }
    }

    /// Whether `key` is one of the keys.
    pub fn contains(&self, key: &str) -> (b: bool)
        ensures
            b == self.view_set().contains(key@),
    {
        position_of(&self.keys, key).is_some()
    }
}

/// The file stems that belong to installed games.
pub fn build_valid_keys(games: &[Game]) -> (ks: KeySet)
    ensures
        ks.view_set() == all_game_keys(games@),
{
    let mut ks = KeySet { keys: Vec::new() };
    proof {
        assert(views(ks.keys@).to_set() =~= Set::<Seq<char>>::empty());
    }
    let mut i: usize = 0;
    while i < games.len()
        invariant
            i <= games@.len(),
            ks.wf(),
            ks.view_set() == all_game_keys(games@.take(i as int)),
        decreases games@.len() - i,
    {
        let g = &games[i];
        proof {
            assert(games@.take(i as int + 1).drop_last() =~= games@.take(i as int));
        }
        let ghost before = ks.view_set();
        ks.add(to_lowercase(g.title_id.as_str()));
        ks.add(to_lowercase(g.art_key.as_str()));
        ks.add(to_lowercase(g.title.as_str()));
        let safe = file_safe_title_exec(g.title.as_str());
        ks.add(to_lowercase(safe.as_str()));
        proof {
            assert(ks.view_set() =~= before.union(game_keys(*g)));
        }
        i = i + 1;
    }
    proof {
        assert(games@.take(i as int) =~= games@);
    }
    ks
}

/// The artwork and music caches.
#[derive(Clone, Copy, PartialEq, Eq, Structural, Debug)]
pub enum CacheKind {
    Covers,
    Hero,
    Logo,
    Music,
}

/// A file found in one of the caches.
pub struct CacheFile {
    pub kind: CacheKind,
    pub path: String,
    pub size: u64,
    /// Modification time, in nanoseconds since the Unix epoch.
    pub modified: u128,
    /// The file name without extension, lower-cased.
    pub stem_lower: String,
}

/// Sizes of the caches and of the files no installed game needs.
#[derive(Debug, Clone, Copy, PartialEq, Eq, Structural)]
pub struct CacheStats {
    pub covers_bytes: u64,
    pub hero_bytes: u64,
    pub logo_bytes: u64,
    pub music_bytes: u64,
    pub total_bytes: u64,
    pub orphan_count: usize,
    pub orphan_bytes: u64,
}

impl Default for CacheStats {
    fn default() -> (s: Self)
        ensures
            s == (CacheStats {
                covers_bytes: 0,
                hero_bytes: 0,
                logo_bytes: 0,
                music_bytes: 0,
                total_bytes: 0,
                orphan_count: 0,
                orphan_bytes: 0,
            }),
    {
        CacheStats {
            covers_bytes: 0,
            hero_bytes: 0,
            logo_bytes: 0,
            music_bytes: 0,
            total_bytes: 0,
            orphan_count: 0,
            orphan_bytes: 0,
        }
    }
}

/// Total size of the files of one kind.
pub open spec fn kind_bytes(files: Seq<CacheFile>, k: CacheKind) -> nat
    decreases files.len(),
{
    if files.len() == 0 {
        0
    } else {
        kind_bytes(files.drop_last(), k) + if files.last().kind == k {
            files.last().size as nat
        } else {
            0
        }
    }
}

/// Total size of all files.
pub open spec fn all_bytes(files: Seq<CacheFile>) -> nat
    decreases files.len(),
{
    if files.len() == 0 {
        0
    } else {
        all_bytes(files.drop_last()) + files.last().size as nat
    }
}

/// Number and total size of the files whose stem is not a key.
pub open spec fn orphans(files: Seq<CacheFile>, keys: Set<Seq<char>>) -> (nat, nat)
    decreases files.len(),
{
    if files.len() == 0 {
        (0, 0)
    } else {
        let p = orphans(files.drop_last(), keys);
        if keys.contains(files.last().stem_lower@) {
            p
        } else {
            (p.0 + 1, p.1 + files.last().size as nat)
        }
    }
}

proof fn lemma_cache_sums(files: Seq<CacheFile>, keys: Set<Seq<char>>)
    ensures
        kind_bytes(files, CacheKind::Covers) + kind_bytes(files, CacheKind::Hero) + kind_bytes(files, CacheKind::Logo)
            + kind_bytes(files, CacheKind::Music) == all_bytes(files),
        orphans(files, keys).1 <= all_bytes(files),
        orphans(files, keys).0 <= files.len(),
    decreases files.len(),
{
    if files.len() > 0 {
        lemma_cache_sums(files.drop_last(), keys);
    }
}

/// The cache sizes of `files`, and which of them no installed game needs.
pub fn tally_cache_files(files: &[CacheFile], valid: &KeySet) -> (st: CacheStats)
    requires
        all_bytes(files@) <= u64::MAX,
    ensures
        st.covers_bytes == kind_bytes(files@, CacheKind::Covers),
        st.hero_bytes == kind_bytes(files@, CacheKind::Hero),
        st.logo_bytes == kind_bytes(files@, CacheKind::Logo),
        st.music_bytes == kind_bytes(files@, CacheKind::Music),
        st.total_bytes == all_bytes(files@),
        st.orphan_count == orphans(files@, valid.view_set()).0,
        st.orphan_bytes == orphans(files@, valid.view_set()).1,
{
    let mut st = CacheStats::default();
    let mut i: usize = 0;
    while i < files.len()
        invariant
            i <= files@.len(),
            all_bytes(files@) <= u64::MAX,
            st.covers_bytes == kind_bytes(files@.take(i as int), CacheKind::Covers),
            st.hero_bytes == kind_bytes(files@.take(i as int), CacheKind::Hero),
            st.logo_bytes == kind_bytes(files@.take(i as int), CacheKind::Logo),
            st.music_bytes == kind_bytes(files@.take(i as int), CacheKind::Music),
            st.total_bytes == all_bytes(files@.take(i as int)),
            st.orphan_count == orphans(files@.take(i as int), valid.view_set()).0,
            st.orphan_bytes == orphans(files@.take(i as int), valid.view_set()).1,
        decreases files@.len() - i,
    {
        let f = &files[i];
        let ghost pre = files@.take(i as int);
        let ghost post = files@.take(i as int + 1);
        proof {
            assert(post.drop_last() =~= pre);
            lemma_cache_sums(post, valid.view_set());
            lemma_all_bytes_prefix(files@, i as int + 1);
            lemma_cache_sums(pre, valid.view_set());
        }
        match f.kind {
            CacheKind::Covers => st.covers_bytes = st.covers_bytes + f.size,
            CacheKind::Hero => st.hero_bytes = st.hero_bytes + f.size,
            CacheKind::Logo => st.logo_bytes = st.logo_bytes + f.size,
            CacheKind::Music => st.music_bytes = st.music_bytes + f.size,
        }
        st.total_bytes = st.total_bytes + f.size;
        if !valid.contains(f.stem_lower.as_str()) {
            st.orphan_count = st.orphan_count + 1;
            st.orphan_bytes = st.orphan_bytes + f.size;
        }
        i = i + 1;
    }
    proof {
        assert(files@.take(i as int) =~= files@);
    }
    st
}

proof fn lemma_all_bytes_prefix(files: Seq<CacheFile>, i: int)
    requires
        0 <= i <= files.len(),
    ensures
        all_bytes(files.take(i)) <= all_bytes(files),
    decreases files.len() - i,
{
    if i < files.len() {
        lemma_all_bytes_prefix(files, i + 1);
        assert(files.take(i + 1).drop_last() =~= files.take(i));
    } else {
        assert(files.take(i) =~= files);
    }
}

/// Cache sizes for the settings page: the files found in the caches,
/// measured against the games installed.
pub fn compute_cache_stats(games: &[Game], files: &[CacheFile]) -> (st: CacheStats)
    requires
        all_bytes(files@) <= u64::MAX,
    ensures
        st.covers_bytes == kind_bytes(files@, CacheKind::Covers),
        st.hero_bytes == kind_bytes(files@, CacheKind::Hero),
        st.logo_bytes == kind_bytes(files@, CacheKind::Logo),
        st.music_bytes == kind_bytes(files@, CacheKind::Music),
        st.total_bytes == all_bytes(files@),
        st.orphan_count == orphans(files@, all_game_keys(games@)).0,
        st.orphan_bytes == orphans(files@, all_game_keys(games@)).1,
{
    let keys = build_valid_keys(games);
    tally_cache_files(files, &keys)
}

/// Progress of shrinking the caches under a budget: the bytes still
/// cached, the budget, and the bytes freed so far.
pub struct BudgetEviction {
    pub current_bytes: u64,
    pub budget_bytes: u64,
    pub freed_bytes: u64,
}

impl BudgetEviction {
    /// Starts shrinking caches holding `total_bytes` down to `budget_mb`
    /// megabytes; nothing to do when the budget is unlimited (zero) or
    /// already met.
    pub fn start(total_bytes: u64, budget_mb: u32) -> (r: Option<Self>)
        ensures
            budget_mb == 0 ==> r is None,
            budget_mb > 0 && total_bytes <= budget_mb as nat * 1048576 ==> r is None,
            budget_mb > 0 && total_bytes > budget_mb as nat * 1048576 ==> (r matches Some(e) && e.current_bytes
                == total_bytes && e.budget_bytes == budget_mb as nat * 1048576 && e.freed_bytes == 0),
    {
        if budget_mb == 0 {
            return None;
        }
        let budget = budget_mb as u64 * 1048576;
        if total_bytes <= budget {
            return None;
        }
        Some(BudgetEviction { current_bytes: total_bytes, budget_bytes: budget, freed_bytes: 0 })
    }

    /// Whether more files must go.
    pub fn over_budget(&self) -> (b: bool)
        ensures
            b == (self.current_bytes > self.budget_bytes),
    {
        self.current_bytes > self.budget_bytes
    }

    /// Records that a file of `size` bytes was removed.
    pub fn removed(&mut self, size: u64)
        requires
            old(self).freed_bytes + size <= u64::MAX,
        ensures
            final(self).current_bytes == if old(self).current_bytes >= size {
                old(self).current_bytes - size
            } else {
                0
            },
            final(self).freed_bytes == old(self).freed_bytes + size,
            final(self).budget_bytes == old(self).budget_bytes,
    {
        self.current_bytes = self.current_bytes.saturating_sub(size);
        self.freed_bytes = self.freed_bytes + size;
    }
}

/// The key cache files are ordered by: their modification time.
pub open spec fn file_age_key() -> spec_fn(CacheFile) -> u128 {
    |f: CacheFile| f.modified
}

/// The strict order of modification times.
pub open spec fn time_order() -> spec_fn(u128, u128) -> bool {
    |a: u128, b: u128| a < b
}

/// Orders cache files oldest first (stable), the order they are evicted in.
pub fn order_oldest_first(files: &mut Vec<CacheFile>)
    ensures
        final(files)@.to_multiset() == old(files)@.to_multiset(),
        forall|k: u128| final(files)@.filter(#[trigger] has_key(file_age_key(), k)) == old(files)@.filter(
            has_key(file_age_key(), k),
        ),
        forall|i: int, j: int| 0 <= i < j < final(files)@.len() ==> (#[trigger] final(files)@[i]).modified
            <= (#[trigger] final(files)@[j]).modified,
{
    let ghost orig = files@;
    let mut out: Vec<CacheFile> = Vec::new();
    proof {
        assert(out@ + files@ =~= files@);
        lemma_stable_start(orig, file_age_key());
        assert(out@ =~= Seq::<CacheFile>::empty());
    }
    while files.len() > 0
        invariant
            forall|a: int, b: int| 0 <= a < b < out@.len() ==> (#[trigger] out@[a]).modified <= (#[trigger] out@[b]).modified,
            (out@ + files@).to_multiset() == orig.to_multiset(),
            forall|k: u128| out@.filter(#[trigger] has_key(file_age_key(), k)) + files@.filter(has_key(file_age_key(), k))
                == orig.filter(has_key(file_age_key(), k)),
        decreases files@.len(),
    {
        let ghost before_rest = files@;
        let f = files.remove(0);
        let mut j: usize = 0;
        while j < out.len() && out[j].modified <= f.modified
            invariant
                j <= out@.len(),
                forall|k: int| 0 <= k < j ==> (#[trigger] out@[k]).modified <= f.modified,
            decreases out@.len() - j,
        {
            j = j + 1;
        }
        let ghost ob = out@;
        out.insert(j, f);
        proof {
            assert forall|a: int, b: int| 0 <= a < b < out@.len() implies (#[trigger] out@[a]).modified
                <= (#[trigger] out@[b]).modified by {
                if a < j && b == j {
                } else if a == j && b > j {
                    assert(out@[b] == ob[b - 1]);
                    assert(ob[j as int].modified > f.modified);
                } else if a < j && b > j {
                    assert(out@[a] == ob[a]);
                    assert(out@[b] == ob[b - 1]);
                } else if a > j {
                    assert(out@[a] == ob[a - 1]);
                    assert(out@[b] == ob[b - 1]);
                }
            }
            broadcast use vstd::multiset::group_multiset_axioms;
            assert(before_rest =~= seq![f] + files@);
            vstd::seq_lib::to_multiset_insert(ob, j as int, f);
            vstd::seq_lib::lemma_multiset_commutative(ob, before_rest);
            vstd::seq_lib::lemma_multiset_commutative(out@, files@);
            vstd::seq_lib::lemma_multiset_commutative(seq![f], files@);
            vstd::seq_lib::to_multiset_build(files@, f);
            assert(files@.push(f).to_multiset() == (seq![f] + files@).to_multiset()) by {
                assert(files@.push(f) =~= files@ + seq![f]);
                vstd::seq_lib::lemma_multiset_commutative(files@, seq![f]);
            }
            assert((out@ + files@).to_multiset() =~= (ob + before_rest).to_multiset());
            let kbs = ob.map_values(file_age_key());
            assert forall|m: int| 0 <= m < ob.len() implies file_age_key()(#[trigger] ob[m]) == kbs[m] by {}
            assert forall|a: int, b: int| 0 <= a < b < kbs.len() implies !time_order()(#[trigger] kbs[b], #[trigger] kbs[a]) by {
                assert(ob[a].modified <= ob[b].modified);
            }
            if j < ob.len() {
                assert(f.modified < ob[j as int].modified);
            }
            lemma_stable_step(ob, kbs, j as int, f, files@, orig, file_age_key(), time_order());
        }
    }
    proof {
        assert(out@ + files@ =~= out@);
        assert forall|k: u128| out@.filter(#[trigger] has_key(file_age_key(), k)) == orig.filter(has_key(file_age_key(), k)) by {
            crate::text::lemma_filter_none(files@, has_key(file_age_key(), k));
            assert(out@.filter(has_key(file_age_key(), k)) + Seq::<CacheFile>::empty() =~= out@.filter(has_key(file_age_key(), k)));
        }
    }
    *files = out;
}

} // verus!
