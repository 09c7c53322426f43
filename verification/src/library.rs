use vstd::prelude::*;

use crate::collections::{is_favorites_name, Collections};
use crate::config::Config;
use crate::recent::RecentlyPlayed;
use crate::scanner::{Game, ImageBytes, System};
use crate::store::{StoreItem, StoreManager, opt_view, absolute_url, absolute_url_spec, nonempty_spec, screenshots_spec};
use crate::text::{
    chars_of, concat, contains_seq, eq_ignore_ascii_case, lower_seq, push_str, replace_char, replace_char_seq,
    str_contains, str_equal, string_of, to_lowercase, trim, trim_seq, unicode_lower, upper_seq, views,
    ascii_lower, to_ascii_lower, contains_string, to_ascii_uppercase, lemma_views_push, to_uppercase,
    unicode_upper, has_key, lemma_stable_start, lemma_stable_step,
};
use crate::store::is_ascii_alnum;

verus! {

/// What a tab of the launcher shows.
#[derive(Clone, Debug, PartialEq, Eq)]
pub enum TabTarget {
    All,
    Vita,
    Psp,
    Ps1,
    Recent,
    Store,
    Collection(String),
}

/// The token a tab is remembered by in the saved tab order.
pub open spec fn tab_token_spec(t: TabTarget) -> Seq<char> {
    match t {
        TabTarget::All => "all"@,
        TabTarget::Vita => "vita"@,
        TabTarget::Psp => "psp"@,
        TabTarget::Ps1 => "ps1"@,
        TabTarget::Recent => "recent"@,
        TabTarget::Store => "store"@,
        TabTarget::Collection(name) => "collection:"@ + name@,
    }
}

/// The token a tab is remembered by in the saved tab order.
pub fn tab_token(target: &TabTarget) -> (s: String)
    ensures
        s@ == tab_token_spec(*target),
{
    match target {
        TabTarget::All => "all".to_owned(),
        TabTarget::Vita => "vita".to_owned(),
        TabTarget::Psp => "psp".to_owned(),
        TabTarget::Ps1 => "ps1".to_owned(),
        TabTarget::Recent => "recent".to_owned(),
        TabTarget::Store => "store".to_owned(),
        TabTarget::Collection(name) => concat("collection:", name.as_str()),
    }
}

/// The tabs the launcher offers before any saved order applies: the fixed
/// ones, then one per collection.
pub open spec fn default_tabs(names: Seq<Seq<char>>) -> Seq<Seq<char>> {
    seq!["all"@, "vita"@, "psp"@, "ps1"@, "recent"@, "store"@] + names.map_values(|n: Seq<char>| "collection:"@ + n)
}

/// Reorders the available tab tokens by a saved order: each saved token
/// (matched ignoring ASCII case) takes its tab out of the available ones in
/// turn; tokens without a tab are ignored; the rest follow in their order.
pub open spec fn order_tabs(available: Seq<Seq<char>>, saved: Seq<Seq<char>>) -> (Seq<Seq<char>>, Seq<Seq<char>>)
    decreases saved.len(),
{
    if saved.len() == 0 {
        (Seq::empty(), available)
    } else {
        let p = order_tabs(available, saved.drop_last());
        let rest = p.1;
        let tok = saved.last();
        let i = first_match_ci(rest, tok);
        if i >= 0 {
            (p.0.push(rest[i]), rest.remove(i))
        } else {
            p
        }
    }
}

/// Index of the first entry equal to `t` ignoring ASCII case, or -1.
pub open spec fn first_match_ci(v: Seq<Seq<char>>, t: Seq<char>) -> int
    decreases v.len(),
{
    if v.len() == 0 {
        -1
    } else if lower_seq(v[0]) == lower_seq(t) {
        0
    } else if first_match_ci(v.drop_first(), t) < 0 {
        -1
    } else {
        1 + first_match_ci(v.drop_first(), t)
    }
}

proof fn lemma_first_match_ci(v: Seq<Seq<char>>, t: Seq<char>, i: int)
    requires
        0 <= i <= v.len(),
        forall|j: int| 0 <= j < i ==> lower_seq(#[trigger] v[j]) != lower_seq(t),
    ensures
        i < v.len() && lower_seq(v[i]) == lower_seq(t) ==> first_match_ci(v, t) == i,
        i == v.len() ==> first_match_ci(v, t) == -1,
    decreases i,
{
    if i > 0 {
        lemma_first_match_ci(v.drop_first(), t, i - 1);
    } else if v.len() > 0 {
    }
}

fn find_tab(tabs: &Vec<TabTarget>, token: &str) -> (r: Option<usize>)
    ensures
        r matches Some(j) ==> j < tabs@.len() && first_match_ci(tabs@.map_values(|t: TabTarget| tab_token_spec(t)), token@) == j,
        r is None ==> first_match_ci(tabs@.map_values(|t: TabTarget| tab_token_spec(t)), token@) == -1,
{
    let ghost toks = tabs@.map_values(|t: TabTarget| tab_token_spec(t));
    let mut j: usize = 0;
    while j < tabs.len()
        invariant
            j <= tabs@.len(),
            toks == tabs@.map_values(|t: TabTarget| tab_token_spec(t)),
            forall|m: int| 0 <= m < j ==> lower_seq(#[trigger] toks[m]) != lower_seq(token@),
        decreases tabs@.len() - j,
    {
        let tok = tab_token(&tabs[j]);
        if eq_ignore_ascii_case(tok.as_str(), token) {
            proof {
                lemma_first_match_ci(toks, token@, j as int);
            }
            return Some(j);
        }
        j = j + 1;
    }
    proof {
        lemma_first_match_ci(toks, token@, j as int);
    }
    None
}

/// The tabs in display order: the saved order first, then the others.
pub fn build_tab_order(collections: &Collections, saved_order: &[String]) -> (tabs: Vec<TabTarget>)
    ensures
        tabs@.map_values(|t: TabTarget| tab_token_spec(t)) == ({
            let r = order_tabs(
                default_tabs(collections.items@.map_values(|c: crate::collections::Collection| c.name@)),
                views(saved_order@),
            );
            r.0 + r.1
        }),
{
    let mut available: Vec<TabTarget> = Vec::new();
    available.push(TabTarget::All);
    available.push(TabTarget::Vita);
    available.push(TabTarget::Psp);
    available.push(TabTarget::Ps1);
    available.push(TabTarget::Recent);
    available.push(TabTarget::Store);
    let ghost names = collections.items@.map_values(|c: crate::collections::Collection| c.name@);
    let mut k: usize = 0;
    proof {
        assert(names.take(0).map_values(|n: Seq<char>| "collection:"@ + n) =~= Seq::<Seq<char>>::empty());
        assert(available@.map_values(|t: TabTarget| tab_token_spec(t)) =~= default_tabs(names.take(0)));
    }
    while k < collections.items.len()
        invariant
            k <= collections.items@.len(),
            names == collections.items@.map_values(|c: crate::collections::Collection| c.name@),
            available@.map_values(|t: TabTarget| tab_token_spec(t)) == default_tabs(names.take(k as int)),
        decreases collections.items@.len() - k,
    {
        let ghost a0 = available@;
        let nm = collections.items[k].name.clone();
        let ghost t = TabTarget::Collection(nm);
        available.push(TabTarget::Collection(nm));
        proof {
            assert(available@ == a0.push(t));
            assert(available@.map_values(|t: TabTarget| tab_token_spec(t)) =~= a0.map_values(|t: TabTarget| tab_token_spec(t)).push(
                tab_token_spec(t),
            ));
            assert(tab_token_spec(t) == "collection:"@ + names[k as int]);
            assert(names.take(k as int + 1).map_values(|n: Seq<char>| "collection:"@ + n) =~= names.take(
                k as int,
            ).map_values(|n: Seq<char>| "collection:"@ + n).push("collection:"@ + names[k as int]));
            assert(available@.map_values(|t: TabTarget| tab_token_spec(t)) =~= default_tabs(names.take(k as int + 1)));
        }
        k = k + 1;
    }
    proof {
        assert(names.take(k as int) =~= names);
    }
    let ghost avail0 = available@.map_values(|t: TabTarget| tab_token_spec(t));
    let mut ordered: Vec<TabTarget> = Vec::new();
    let mut s: usize = 0;
    while s < saved_order.len()
        invariant
            s <= saved_order@.len(),
            ({
                let r = order_tabs(avail0, views(saved_order@).take(s as int));
                &&& ordered@.map_values(|t: TabTarget| tab_token_spec(t)) == r.0
                &&& available@.map_values(|t: TabTarget| tab_token_spec(t)) == r.1
            }),
        decreases saved_order@.len() - s,
    {
        proof {
            assert(views(saved_order@).take(s as int + 1).drop_last() =~= views(saved_order@).take(s as int));
        }
        let ghost toks = available@.map_values(|t: TabTarget| tab_token_spec(t));
        let hit = find_tab(&available, saved_order[s].as_str());
        if let Some(j) = hit {
            let ghost o0 = ordered@;
            let t = available.remove(j);
            ordered.push(t);
            proof {
                assert(ordered@.map_values(|t: TabTarget| tab_token_spec(t)) =~= o0.map_values(
                    |t: TabTarget| tab_token_spec(t),
                ).push(toks[j as int]));
                assert(available@.map_values(|t: TabTarget| tab_token_spec(t)) =~= toks.remove(j as int));
            }
        }
        s = s + 1;
    }
    proof {
        assert(views(saved_order@).take(s as int) =~= views(saved_order@));
    }
    let ghost o1 = ordered@;
    let ghost a1 = available@;
    ordered.append(&mut available);
    proof {
        assert(ordered@.map_values(|t: TabTarget| tab_token_spec(t)) =~= o1.map_values(|t: TabTarget| tab_token_spec(t))
            + a1.map_values(|t: TabTarget| tab_token_spec(t)));
    }
    ordered
}

/// The translated names of the fixed tabs, in the user's language.
pub struct TabTexts {
    pub all: String,
    pub recent: String,
    pub store: String,
    pub favorites: String,
}

/// The label of a tab: the translated name of the fixed tabs, the system
/// name of the console tabs, and a collection's name in upper case (the
/// favourites collection by its translated name).
pub open spec fn tab_label_spec(t: TabTarget, texts: TabTexts) -> Seq<char> {
    match t {
        TabTarget::All => texts.all@,
        TabTarget::Vita => "PS VITA"@,
        TabTarget::Psp => "PSP"@,
        TabTarget::Ps1 => "PS1"@,
        TabTarget::Recent => texts.recent@,
        TabTarget::Store => texts.store@,
        TabTarget::Collection(name) => if is_favorites_name(name@) {
            texts.favorites@
        } else {
            unicode_upper(name@)
        },
    }
}

/// The label shown for a tab.
pub fn tab_label(target: &TabTarget, texts: &TabTexts) -> (s: String)
    ensures
        s@ == tab_label_spec(*target, *texts),
{
    match target {
        TabTarget::All => texts.all.clone(),
        TabTarget::Vita => "PS VITA".to_owned(),
        TabTarget::Psp => "PSP".to_owned(),
        TabTarget::Ps1 => "PS1".to_owned(),
        TabTarget::Recent => texts.recent.clone(),
        TabTarget::Store => texts.store.clone(),
        TabTarget::Collection(name) => {
            if eq_ignore_ascii_case(name.as_str(), "Favorites") || eq_ignore_ascii_case(name.as_str(), "Favoritos") {
                texts.favorites.clone()
            } else {
                to_uppercase(name.as_str())
            }
        },
    }
}

/// How the selected store regions are summed up in the header.
#[derive(Clone, Debug, PartialEq, Eq)]
pub enum RegionSummary {
    /// No region chosen: the whole catalogue.
    All,
    /// One region, by its code.
    One(String),
    /// Several regions, by their number.
    Count(usize),
}

/// The summary of the selected store regions.
pub fn store_region_summary(regions: &[String]) -> (r: RegionSummary)
    ensures
        regions@.len() == 0 ==> r == RegionSummary::All,
        regions@.len() == 1 ==> (r matches RegionSummary::One(code) && code@ == regions@[0]@),
        regions@.len() > 1 ==> r == RegionSummary::Count(regions@.len() as usize),
{
    if regions.len() == 0 {
        RegionSummary::All
    } else if regions.len() == 1 {
        RegionSummary::One(regions[0].clone())
    } else {
        RegionSummary::Count(regions.len())
    }
}


/// Reading `s` left to right, splitting at every character that is not an
/// ASCII letter or digit: the words finished and the word in progress.
pub open spec fn words_fold(s: Seq<char>) -> (Seq<Seq<char>>, Seq<char>)
    decreases s.len(),
{
    if s.len() == 0 {
        (Seq::empty(), Seq::empty())
    } else {
        let p = words_fold(s.drop_last());
        let c = s.last();
        if is_ascii_alnum(c) {
            (p.0, p.1.push(c))
        } else if p.1.len() > 0 {
            (p.0.push(p.1), Seq::empty())
        } else {
            p
        }
    }
}

/// The runs of ASCII letters and digits of `s`, in order.
pub open spec fn words_of(s: Seq<char>) -> Seq<Seq<char>> {
    let p = words_fold(s);
    if p.1.len() > 0 {
        p.0.push(p.1)
    } else {
        p.0
    }
}

/// The store region a catalogue or user region name stands for, judged by
/// its words (ASCII case ignored).
pub open spec fn canonical_region_spec(region: Seq<char>) -> Option<Seq<char>> {
    let w = words_of(upper_seq(region));
    if w.contains("US"@) || w.contains("USA"@) || w.contains("UNITED"@) || w.contains("AMERICA"@) || w.contains(
        "NA"@,
    ) {
        Some("US"@)
    } else if w.contains("EU"@) || w.contains("EUR"@) || w.contains("EUROPE"@) || w.contains("EUROPEAN"@) {
        Some("EU"@)
    } else if w.contains("JP"@) || w.contains("JPN"@) || w.contains("JAPAN"@) || w.contains("JAPANESE"@) {
        Some("JP"@)
    } else if w.contains("ASIA"@) || w.contains("ASIAN"@) || w.contains("KR"@) || w.contains("KOR"@) || w.contains(
        "KOREA"@,
    ) || w.contains("CN"@) || w.contains("CHINA"@) {
        Some("ASIA"@)
    } else if w.contains("INT"@) || w.contains("INTERNATIONAL"@) || w.contains("GLOBAL"@) || w.contains("WORLD"@)
        || w.contains("WORLDWIDE"@) {
        Some("INT"@)
    } else {
        None
    }
}

fn words(s: &str) -> (w: Vec<String>)
    ensures
        views(w@) == words_of(s@),
{
    let v = chars_of(s);
    let mut done: Vec<String> = Vec::new();
    let mut cur: Vec<char> = Vec::new();
    let mut i: usize = 0;
    while i < v.len()
        invariant
            v@ == s@,
            i <= v@.len(),
            (views(done@), cur@) == words_fold(v@.take(i as int)),
        decreases v@.len() - i,
    {
        proof {
            assert(v@.take(i as int + 1).drop_last() =~= v@.take(i as int));
        }
        let c = v[i];
        if ('a' <= c && c <= 'z') || ('A' <= c && c <= 'Z') || ('0' <= c && c <= '9') {
            cur.push(c);
        } else if cur.len() > 0 {
            let word = string_of(cur.as_slice());
            let ghost d0 = done@;
            done.push(word);
            proof {
                lemma_views_push(d0, word);
            }
            cur = Vec::new();
        }
        i = i + 1;
    }
    proof {
        assert(v@.take(i as int) =~= v@);
    }
    if cur.len() > 0 {
        let word = string_of(cur.as_slice());
        let ghost d0 = done@;
        done.push(word);
        proof {
            lemma_views_push(d0, word);
        }
    }
    done
}

/// The store region a region name stands for: US, EU, JP, ASIA or INT.
pub fn canonical_store_region(region: &str) -> (r: Option<&'static str>)
    ensures
        match r {
            Some(s) => canonical_region_spec(region@) == Some(s@),
            None => canonical_region_spec(region@) is None,
        },
{
    let upper = to_ascii_uppercase(region);
    let w = words(upper.as_str());
    if contains_string(&w, "US") || contains_string(&w, "USA") || contains_string(&w, "UNITED") || contains_string(
        &w,
        "AMERICA",
    ) || contains_string(&w, "NA") {
        Some("US")
    } else if contains_string(&w, "EU") || contains_string(&w, "EUR") || contains_string(&w, "EUROPE")
        || contains_string(&w, "EUROPEAN") {
        Some("EU")
    } else if contains_string(&w, "JP") || contains_string(&w, "JPN") || contains_string(&w, "JAPAN")
        || contains_string(&w, "JAPANESE") {
        Some("JP")
    } else if contains_string(&w, "ASIA") || contains_string(&w, "ASIAN") || contains_string(&w, "KR")
        || contains_string(&w, "KOR") || contains_string(&w, "KOREA") || contains_string(&w, "CN")
        || contains_string(&w, "CHINA") {
        Some("ASIA")
    } else if contains_string(&w, "INT") || contains_string(&w, "INTERNATIONAL") || contains_string(&w, "GLOBAL")
        || contains_string(&w, "WORLD") || contains_string(&w, "WORLDWIDE") {
        Some("INT")
    } else {
        None
    }
}

/// Whether a catalogue item belongs to one of the selected regions. With no
/// selection, or an item without a region, everything matches.
pub open spec fn matches_regions_spec(item_region: Option<Seq<char>>, selected: Seq<Seq<char>>) -> bool {
    selected.len() == 0 || item_region is None || exists|i: int|
        0 <= i < selected.len() && (#[trigger] canonical_region_spec(selected[i])) is Some
            && canonical_region_spec(selected[i]) == canonical_region_spec(item_region->0)
}

/// Whether a catalogue item belongs to one of the selected store regions.
pub fn store_item_matches_regions(item: &StoreItem, selected_regions: &[String]) -> (b: bool)
    ensures
        b == matches_regions_spec(opt_view(item.region), views(selected_regions@)),
{
    if selected_regions.len() == 0 {
        return true;
    }
    let region = match &item.region {
        Some(r) => r,
        None => return true,
    };
    let actual = canonical_store_region(region.as_str());
    let mut i: usize = 0;
    while i < selected_regions.len()
        invariant
            i <= selected_regions@.len(),
            item.region == Some(*region),
            match actual {
                Some(s) => canonical_region_spec(region@) == Some(s@),
                None => canonical_region_spec(region@) is None,
            },
            forall|j: int| 0 <= j < i ==> !((#[trigger] canonical_region_spec(views(selected_regions@)[j])) is Some
                && canonical_region_spec(views(selected_regions@)[j]) == canonical_region_spec(region@)),
        decreases selected_regions@.len() - i,
    {
        let sel = canonical_store_region(selected_regions[i].as_str());
        let hit = match (sel, actual) {
            (Some(a), Some(b)) => str_equal(a, b),
            _ => false,
        };
        if hit {
            proof {
                assert(canonical_region_spec(views(selected_regions@)[i as int]) is Some);
            }
            return true;
        }
        i = i + 1;
    }
    false
}

/// Whether a text is all ASCII.
pub open spec fn all_ascii(s: Seq<char>) -> bool {
    forall|i: int| 0 <= i < s.len() ==> (#[trigger] s[i] as u32) < 0x80
}

/// Case-insensitive substring test as the search box uses it: ASCII texts
/// compare ignoring ASCII case; otherwise the lower-cased text must contain
/// the needle as given.
pub open spec fn contains_ignore_case_spec(h: Seq<char>, n: Seq<char>) -> bool {
    if n.len() == 0 {
        true
    } else if crate::store::utf8_len(h) < crate::store::utf8_len(n) {
        false
    } else if all_ascii(h) && all_ascii(n) {
        contains_seq(lower_seq(h), lower_seq(n))
    } else {
        contains_seq(unicode_lower(h), n)
    }
}

fn is_all_ascii(v: &Vec<char>) -> (b: bool)
    ensures
        b == all_ascii(v@),
{
    let mut i: usize = 0;
    while i < v.len()
        invariant
            i <= v@.len(),
            forall|j: int| 0 <= j < i ==> (#[trigger] v@[j] as u32) < 0x80,
        decreases v@.len() - i,
    {
        if (v[i] as u32) >= 0x80 {
            return false;
        }
        i = i + 1;
    }
    true
}

pub(crate) fn utf8_len_exec(v: &Vec<char>) -> (n: u128)
    ensures
        n == crate::store::utf8_len(v@),
{
    let mut n: u128 = 0;
    let mut i: usize = 0;
    proof {
        assert(v@.len() == v.len());
    }
    while i < v.len()
        invariant
            i <= v@.len(),
            v@.len() <= usize::MAX,
            n == crate::store::utf8_len(v@.take(i as int)),
            n <= 4 * i,
        decreases v@.len() - i,
    {
        proof {
            assert(v@.take(i as int + 1).drop_last() =~= v@.take(i as int));
        }
        let c = v[i] as u32;
        let w: u128 = if c < 0x80 {
            1
        } else if c < 0x800 {
            2
        } else if c < 0x10000 {
            3
        } else {
            4
        };
        n = n + w;
        i = i + 1;
    }
    proof {
        assert(v@.take(i as int) =~= v@);
    }
    n
}

fn lower_chars(v: &Vec<char>) -> (r: Vec<char>)
    ensures
        r@ == lower_seq(v@),
{
    let mut r: Vec<char> = Vec::new();
    let mut i: usize = 0;
    while i < v.len()
        invariant
            i <= v@.len(),
            r@ == lower_seq(v@.take(i as int)),
        decreases v@.len() - i,
    {
        r.push(to_ascii_lower(v[i]));
        proof {
            assert(r@ =~= lower_seq(v@.take(i as int + 1)));
        }
        i = i + 1;
    }
    proof {
        assert(v@.take(i as int) =~= v@);
    }
    r
}

/// Case-insensitive substring test as the search box uses it.
pub fn contains_ignore_case(haystack: &str, needle: &str) -> (b: bool)
    ensures
        b == contains_ignore_case_spec(haystack@, needle@),
{
    if needle.is_empty() {
        return true;
    }
    let h = chars_of(haystack);
    let n = chars_of(needle);
    if utf8_len_exec(&h) < utf8_len_exec(&n) {
        return false;
    }
    if is_all_ascii(&h) && is_all_ascii(&n) {
        let hl = lower_chars(&h);
        let nl = lower_chars(&n);
        return crate::text::contains_chars(hl.as_slice(), nl.as_slice());
    }
    let lowered = to_lowercase(haystack);
    str_contains(lowered.as_str(), needle)
}

/// The order systems are listed in: Vita, PSP, PS1.
pub fn system_sort_key(system: System) -> (k: u8)
    ensures
        k == match system {
            System::Vita => 0u8,
            System::Psp => 1u8,
            System::Psx => 2u8,
        },
{
    match system {
        System::Vita => 0,
        System::Psp => 1,
        System::Psx => 2,
    }
}

/// The catalogue item the store has for a title id, if any.
pub open spec fn store_item_for(store: StoreManager, id: Seq<char>) -> Option<StoreItem> {
    match store.index_by_title_id_spec(id) {
        Some(p) => if p < store.items@.len() {
            Some(store.items@[p as int])
        } else {
            None
        },
        None => None,
    }
}

/// Whether the store game at `g` passes the search text `q` (already
/// trimmed and lower-cased) and the region selection.
pub open spec fn store_game_shown(store: StoreManager, g: Game, q: Seq<char>, regions: Seq<Seq<char>>) -> bool {
    &&& (q.len() == 0 || contains_ignore_case_spec(g.title@, q))
    &&& (regions.len() == 0 || match store_item_for(store, g.title_id@) {
        Some(item) => matches_regions_spec(opt_view(item.region), regions),
        None => true,
    })
}

/// `r` lists, in increasing order, exactly the indices below `n` that satisfy `keep`.
pub open spec fn selects(r: Seq<usize>, n: int, keep: spec_fn(int) -> bool) -> bool {
    &&& forall|a: int, b: int| 0 <= a < b < r.len() ==> #[trigger] r[a] < #[trigger] r[b]
    &&& forall|a: int| 0 <= a < r.len() ==> #[trigger] r[a] < n && keep(r[a] as int)
    &&& forall|i: int| 0 <= i < n && #[trigger] keep(i) ==> r.contains(i as usize)
}

/// The store games shown for a search text and region selection, by index.
pub fn filter_store_games(store_games: &[Game], store: &StoreManager, search: &str, store_regions: &[String]) -> (r: Vec<usize>)
    requires
        store.wf(),
    ensures
        selects(
            r@,
            store_games@.len() as int,
            |i: int| store_game_shown(*store, store_games@[i], unicode_lower(trim_seq(search@)), views(store_regions@)),
        ),
{
    let query = to_lowercase(trim(search).as_str());
    let mut r: Vec<usize> = Vec::new();
    let mut i: usize = 0;
    while i < store_games.len()
        invariant
            i <= store_games@.len(),
            store.wf(),
            query@ == unicode_lower(trim_seq(search@)),
            forall|a: int, b: int| 0 <= a < b < r@.len() ==> r@[a] < r@[b],
            forall|a: int| 0 <= a < r@.len() ==> r@[a] < i && store_game_shown(*store, store_games@[r@[a] as int], query@, views(store_regions@)),
            forall|k: int| 0 <= k < i && store_game_shown(*store, store_games@[k], query@, views(store_regions@)) ==> r@.contains(k as usize),
        decreases store_games@.len() - i,
    {
        let game = &store_games[i];
        let matches_query = query.as_str().is_empty() || contains_ignore_case(game.title.as_str(), query.as_str());
        let matches_region = if store_regions.len() == 0 {
            true
        } else {
            match store.item_by_title_id(game.title_id.as_str()) {
                Some(item) => store_item_matches_regions(item, store_regions),
                None => true,
            }
        };
        if matches_query && matches_region {
            let ghost r0 = r@;
            r.push(i);
            proof {
                assert(r@[r@.len() - 1] == i);
                assert forall|k: int| 0 <= k < i + 1 && store_game_shown(*store, store_games@[k], query@, views(store_regions@)) implies r@.contains(k as usize) by {
                    if k < i {
                        let m = choose|m: int| 0 <= m < r0.len() && r0[m] == k as usize;
                        assert(r@[m] == k as usize);
                    } else {
                        assert(r@[r@.len() - 1] == k as usize);
                    }
                }
            }
        }
        i = i + 1;
    }
    r
}

/// Where a PSP game file lies as the emulator sees it (`ms0:/...`): the
/// part after `:pspemu/`, else after the first `pspemu/`, with back slashes
/// turned into forward ones.
pub open spec fn ms0_path_spec(path: Seq<char>) -> Option<Seq<char>> {
    let n = replace_char_seq(path, '\\', '/');
    let a = crate::text::find_from(n, ":pspemu/"@, 0);
    let b = crate::text::find_from(n, "pspemu/"@, 0);
    if a >= 0 {
        Some("ms0:/"@ + n.skip(a + 8))
    } else if b >= 0 {
        Some("ms0:/"@ + n.skip(b + 7))
    } else {
        None
    }
}

fn tail_from(v: &Vec<char>, from: usize) -> (s: String)
    requires
        from <= v@.len(),
    ensures
        s@ == v@.skip(from as int),
{
    let mut out: Vec<char> = Vec::new();
    let mut i = from;
    while i < v.len()
        invariant
            from <= i <= v@.len(),
            out@ == v@.subrange(from as int, i as int),
        decreases v@.len() - i,
    {
        out.push(v[i]);
        proof {
            assert(out@ =~= v@.subrange(from as int, i as int + 1));
        }
        i = i + 1;
    }
    proof {
        assert(out@ =~= v@.skip(from as int));
    }
    string_of(out.as_slice())
}

/// Where a PSP game file lies as the emulator sees it.
pub fn to_ms0_path(game_file_path: &str) -> (r: Option<String>)
    ensures
        opt_view(r) == ms0_path_spec(game_file_path@),
{
    let normalized = replace_char(game_file_path, '\\', '/');
    let v = chars_of(normalized.as_str());
    let p1 = chars_of(":pspemu/");
    let p2 = chars_of("pspemu/");
    proof {
        reveal_strlit(":pspemu/");
        reveal_strlit("pspemu/");
    }
    let vs = v.as_slice();
    let p1s = p1.as_slice();
    let p2s = p2.as_slice();
    let f1 = crate::text::find_chars(vs, p1s);
    proof {
        assert(vs@ == v@);
        assert(p1s@ == p1@);
        assert(p2s@ == p2@);
        assert(v@.len() == v.len());
    }
    match f1 {
        Some(a) => {
            let mut r = "ms0:/".to_owned();
            let t = tail_from(&v, a + 8);
            push_str(&mut r, t.as_str());
            return Some(r);
        },
        None => {},
    }
    let f2 = crate::text::find_chars(vs, p2s);
    match f2 {
        Some(b) => {
            let mut r = "ms0:/".to_owned();
            let t = tail_from(&v, b + 7);
            push_str(&mut r, t.as_str());
            Some(r)
        },
        None => None,
    }
}

/// Applies the user's display-name overrides to the library.
pub fn apply_library_preferences(games: &mut Vec<Game>, config: &Config)
    requires
        config.wf(),
    ensures
        final(games)@.len() == old(games)@.len(),
        forall|i: int| 0 <= i < final(games)@.len() ==> {
            let g0 = old(games)@[i];
            let g1 = #[trigger] final(games)@[i];
            &&& g1.title@ == match crate::config::override_lookup(config.title_overrides@, crate::config::title_key(g0.title_id@)) {
                Some(t) => t,
                None => g0.title@,
            }
            &&& g1.title_id == g0.title_id
            &&& g1.art_key == g0.art_key
            &&& g1.system == g0.system
        },
{
    let ghost g_old = games@;
    let mut i: usize = 0;
    while i < games.len()
        invariant
            config.wf(),
            i <= games@.len(),
            games@.len() == g_old.len(),
            forall|j: int| i <= j < games@.len() ==> games@[j] == g_old[j],
            forall|j: int| 0 <= j < i ==> {
                let g0 = g_old[j];
                let g1 = #[trigger] games@[j];
                &&& g1.title@ == match crate::config::override_lookup(config.title_overrides@, crate::config::title_key(g0.title_id@)) {
                    Some(t) => t,
                    None => g0.title@,
                }
                &&& g1.title_id == g0.title_id
                &&& g1.art_key == g0.art_key
                &&& g1.system == g0.system
            },
        decreases games@.len() - i,
    {
        let over = match config.title_override(games[i].title_id.as_str()) {
            Some(t) => Some(t.to_owned()),
            None => None,
        };
        match over {
            Some(t) => {
                let mut g = games.remove(i);
                g.title = t;
                games.insert(i, g);
            },
            None => {},
        }
        i = i + 1;
    }
}

/// Artwork already known for a catalogue item.
#[derive(Clone, Debug)]
pub struct KnownArt {
    pub cover_url: Option<String>,
    pub screenshot_url: Option<String>,
    pub logo_url: Option<String>,
    pub music_url: Option<String>,
}

/// The artwork a catalogue item already names: its cover and first screenshot.
pub fn store_known_art(item: &StoreItem) -> (k: KnownArt)
    ensures
        opt_view(k.cover_url) == match nonempty_spec(opt_view(item.cover_url)) {
            Some(u) => Some(absolute_url_spec(u)),
            None => None,
        },
        opt_view(k.screenshot_url) == if screenshots_spec(views(item.screenshot_urls@)).len() > 0 {
            Some(screenshots_spec(views(item.screenshot_urls@))[0])
        } else {
            None
        },
        k.logo_url is None,
        k.music_url is None,
{
    let cover = match &item.cover_url {
        Some(u) => {
            let t = trim(u.as_str());
            if t.as_str().is_empty() {
                None
            } else {
                Some(absolute_url(t.as_str()))
            }
        },
        None => None,
    };
    let shots = item.resolved_screenshot_urls();
    let shot = if shots.len() > 0 {
        proof {
            assert(views(shots@)[0] == shots@[0]@);
        }
        Some(shots[0].clone())
    } else {
        None
    };
    KnownArt { cover_url: cover, screenshot_url: shot, logo_url: None, music_url: None }
}

/// The download being confirmed.
#[derive(Clone, Debug)]
pub struct DownloadConfirmState {
    pub title_id: String,
    pub title: String,
    pub selected_choice: usize,
}

/// The store detail page being shown.
pub struct StoreDetailState {
    pub title_id: String,
    pub screenshot_urls: Vec<String>,
    pub screenshots: Vec<Option<ImageBytes>>,
    /// Screenshot positions being fetched.
    pub pending: Vec<usize>,
    pub lightbox: Option<usize>,
    pub selected_shot: usize,
    pub hero_bytes: Option<ImageBytes>,
    pub looking_up_heroes: bool,
}

/// Whether a game shows on one of the platform tabs (all, Vita, PSP, PS1):
/// it is not marked as a non-game and runs on the tab's platform.
pub open spec fn shown_on_platform_tab(g: Game, target: TabTarget) -> bool {
    &&& g.is_game != Some(false)
    &&& match target {
        TabTarget::Vita => g.system == System::Vita,
        TabTarget::Psp => g.system == System::Psp,
        TabTarget::Ps1 => g.system == System::Psx,
        _ => true,
    }
}

/// Index of the first game with title id `id`, or -1.
pub open spec fn first_game_with_id(games: Seq<Game>, id: Seq<char>) -> int
    decreases games.len(),
{
    if games.len() == 0 {
        -1
    } else {
        let p = first_game_with_id(games.drop_last(), id);
        if p >= 0 {
            p
        } else if games.last().title_id@ == id {
            games.len() - 1
        } else {
            -1
        }
    }
}

/// The recently played games, most recent first, by index.
pub open spec fn recent_indices(games: Seq<Game>, recent: Seq<Seq<char>>) -> Seq<int>
    decreases recent.len(),
{
    if recent.len() == 0 {
        Seq::empty()
    } else {
        let p = recent_indices(games, recent.drop_last());
        let k = first_game_with_id(games, recent.last());
        if k >= 0 {
            p.push(k)
        } else {
            p
        }
    }
}

/// Index of the first collection named `name` ignoring ASCII case, or -1.
pub open spec fn collection_named(items: Seq<crate::collections::Collection>, name: Seq<char>) -> int
    decreases items.len(),
{
    if items.len() == 0 {
        -1
    } else {
        let p = collection_named(items.drop_last(), name);
        if p >= 0 {
            p
        } else if lower_seq(items.last().name@) == lower_seq(name) {
            items.len() - 1
        } else {
            -1
        }
    }
}

/// Whether a title is in the first collection named `name` (ASCII case ignored).
pub open spec fn in_named_collection(items: Seq<crate::collections::Collection>, name: Seq<char>, id: Seq<char>) -> bool {
    let c = collection_named(items, name);
    c >= 0 && items[c].members().contains(id)
}

proof fn lemma_collection_named_bound(items: Seq<crate::collections::Collection>, name: Seq<char>)
    ensures
        -1 <= collection_named(items, name) < items.len(),
    decreases items.len(),
{
    if items.len() > 0 {
        lemma_collection_named_bound(items.drop_last(), name);
    }
}

fn find_game(games: &[Game], id: &str) -> (r: Option<usize>)
    ensures
        match r {
            Some(k) => first_game_with_id(games@, id@) == k,
            None => first_game_with_id(games@, id@) == -1,
        },
{
    let mut i: usize = 0;
    while i < games.len()
        invariant
            i <= games@.len(),
            first_game_with_id(games@.take(i as int), id@) == -1,
        decreases games@.len() - i,
    {
        proof {
            assert(games@.take(i as int + 1).drop_last() =~= games@.take(i as int));
        }
        if str_equal(games[i].title_id.as_str(), id) {
            proof {
                lemma_first_game_prefix(games@, id@, i as int + 1);
            }
            return Some(i);
        }
        i = i + 1;
    }
    proof {
        assert(games@.take(i as int) =~= games@);
    }
    None
}

proof fn lemma_first_game_prefix(games: Seq<Game>, id: Seq<char>, i: int)
    requires
        0 <= i <= games.len(),
        first_game_with_id(games.take(i), id) >= 0,
    ensures
        first_game_with_id(games, id) == first_game_with_id(games.take(i), id),
    decreases games.len() - i,
{
    if i < games.len() {
        assert(games.take(i + 1).drop_last() =~= games.take(i));
        lemma_first_game_prefix(games, id, i + 1);
    } else {
        assert(games.take(i) =~= games);
    }
}

fn find_collection(collections: &Collections, name: &str) -> (r: Option<usize>)
    ensures
        match r {
            Some(k) => collection_named(collections.items@, name@) == k,
            None => collection_named(collections.items@, name@) == -1,
        },
{
    let ghost items = collections.items@;
    let mut i: usize = 0;
    while i < collections.items.len()
        invariant
            items == collections.items@,
            i <= items.len(),
            collection_named(items.take(i as int), name@) == -1,
        decreases items.len() - i,
    {
        proof {
            assert(items.take(i as int + 1).drop_last() =~= items.take(i as int));
        }
        if eq_ignore_ascii_case(collections.items[i].name.as_str(), name) {
            proof {
                lemma_collection_prefix(items, name@, i as int + 1);
            }
            return Some(i);
        }
        i = i + 1;
    }
    proof {
        assert(items.take(i as int) =~= items);
    }
    None
}

proof fn lemma_collection_prefix(items: Seq<crate::collections::Collection>, name: Seq<char>, i: int)
    requires
        0 <= i <= items.len(),
        collection_named(items.take(i), name) >= 0,
    ensures
        collection_named(items, name) == collection_named(items.take(i), name),
    decreases items.len() - i,
{
    if i < items.len() {
        assert(items.take(i + 1).drop_last() =~= items.take(i));
        lemma_collection_prefix(items, name, i + 1);
    } else {
        assert(items.take(i) =~= items);
    }
}

/// The games a tab lists, by index: the recently played ones in play order,
/// the store games passing the search and region selection, a
/// collection's members, or the games of a platform tab.
pub fn filter_games(
    games: &[Game],
    store_games: &[Game],
    store: &StoreManager,
    collections: &Collections,
    recent: &RecentlyPlayed,
    target: Option<&TabTarget>,
    search: &str,
    store_regions: &[String],
) -> (r: Vec<usize>)
    requires
        store.wf(),
    ensures
        target is None ==> r@.len() == 0,
        target matches Some(t) ==> match *t {
            TabTarget::Recent => r@.map_values(|k: usize| k as int) == recent_indices(games@, recent.ids()),
            TabTarget::Store => selects(
                r@,
                store_games@.len() as int,
                |i: int| store_game_shown(*store, store_games@[i], unicode_lower(trim_seq(search@)), views(store_regions@)),
            ),
            TabTarget::Collection(name) => selects(
                r@,
                games@.len() as int,
                |i: int| in_named_collection(collections.items@, name@, games@[i].title_id@),
            ),
            _ => selects(r@, games@.len() as int, |i: int| shown_on_platform_tab(games@[i], *t)),
        },
{
    let t = match target {
        Some(t) => t,
        None => return Vec::new(),
    };
    match t {
        TabTarget::Recent => {
            let order = recent.order();
            let mut r: Vec<usize> = Vec::new();
            let mut k: usize = 0;
            while k < order.len()
                invariant
                    k <= order@.len(),
                    views(order@) == recent.ids(),
                    r@.map_values(|k: usize| k as int) == recent_indices(games@, recent.ids().take(k as int)),
                decreases order@.len() - k,
            {
                proof {
                    assert(recent.ids().take(k as int + 1).drop_last() =~= recent.ids().take(k as int));
                    assert(recent.ids()[k as int] == order@[k as int]@);
                }
                match find_game(games, order[k].as_str()) {
                    Some(p) => {
                        let ghost r0 = r@;
                        r.push(p);
                        proof {
                            assert(r@.map_values(|k: usize| k as int) =~= r0.map_values(|k: usize| k as int).push(p as int));
                        }
                    },
                    None => {},
                }
                k = k + 1;
            }
            proof {
                assert(recent.ids().take(k as int) =~= recent.ids());
            }
            r
        },
        TabTarget::Store => filter_store_games(store_games, store, search, store_regions),
        TabTarget::Collection(name) => {
            let idx = find_collection(collections, name.as_str());
            proof {
                lemma_collection_named_bound(collections.items@, name@);
            }
            let mut r: Vec<usize> = Vec::new();
            let mut i: usize = 0;
            while i < games.len()
                invariant
                    i <= games@.len(),
                    match idx {
                        Some(k) => collection_named(collections.items@, name@) == k,
                        None => collection_named(collections.items@, name@) == -1,
                    },
                    forall|a: int, b: int| 0 <= a < b < r@.len() ==> r@[a] < r@[b],
                    forall|a: int| 0 <= a < r@.len() ==> r@[a] < i && in_named_collection(collections.items@, name@, games@[r@[a] as int].title_id@),
                    collection_named(collections.items@, name@) < collections.items@.len(),
                    forall|k: int| 0 <= k < i && in_named_collection(collections.items@, name@, games@[k].title_id@) ==> r@.contains(k as usize),
                decreases games@.len() - i,
            {
                let inside = match idx {
                    Some(c) => collections.contains(c, games[i].title_id.as_str()),
                    None => false,
                };
                if inside {
                    let ghost r0 = r@;
                    r.push(i);
                    proof {
                        assert forall|k: int| 0 <= k < i + 1 && in_named_collection(collections.items@, name@, games@[k].title_id@) implies r@.contains(k as usize) by {
                            if k < i {
                                let m = choose|m: int| 0 <= m < r0.len() && r0[m] == k as usize;
                                assert(r@[m] == k as usize);
                            } else {
                                assert(r@[r@.len() - 1] == k as usize);
                            }
                        }
                    }
                }
                i = i + 1;
            }
            r
        },
        _ => {
            let mut r: Vec<usize> = Vec::new();
            let mut i: usize = 0;
            while i < games.len()
                invariant
                    i <= games@.len(),
                    !(*t is Recent) && !(*t is Store) && !(*t is Collection),
                    forall|a: int, b: int| 0 <= a < b < r@.len() ==> r@[a] < r@[b],
                    forall|a: int| 0 <= a < r@.len() ==> r@[a] < i && shown_on_platform_tab(games@[r@[a] as int], *t),
                    forall|k: int| 0 <= k < i && shown_on_platform_tab(games@[k], *t) ==> r@.contains(k as usize),
                decreases games@.len() - i,
            {
                let g = &games[i];
                let system_ok = match t {
                    TabTarget::Vita => g.system == System::Vita,
                    TabTarget::Psp => g.system == System::Psp,
                    TabTarget::Ps1 => g.system == System::Psx,
                    _ => true,
                };
                let not_hidden = match g.is_game {
                    Some(b) => b,
                    None => true,
                };
                if not_hidden && system_ok {
                    let ghost r0 = r@;
                    r.push(i);
                    proof {
                        assert forall|k: int| 0 <= k < i + 1 && shown_on_platform_tab(games@[k], *t) implies r@.contains(k as usize) by {
                            if k < i {
                                let m = choose|m: int| 0 <= m < r0.len() && r0[m] == k as usize;
                                assert(r@[m] == k as usize);
                            } else {
                                assert(r@[r@.len() - 1] == k as usize);
                            }
                        }
                    }
                }
                i = i + 1;
            }
            r
        },
    }
}


/// What decides whether a rescan changed a game's entry in the library:
/// its ids, title, platform, bubble and file.
pub open spec fn same_listing(a: Game, b: Game) -> bool {
    &&& a.title_id@ == b.title_id@
    &&& a.art_key@ == b.art_key@
    &&& a.title@ == b.title@
    &&& a.system == b.system
    &&& a.has_bubble == b.has_bubble
    &&& opt_view(a.file_path) == opt_view(b.file_path)
}

/// A rescan changed the library: another number of games, or a game whose
/// entry differs at the same place.
pub open spec fn listing_changed(old: Seq<Game>, new: Seq<Game>) -> bool {
    old.len() != new.len() || exists|i: int| 0 <= i < old.len() && !same_listing(old[i], #[trigger] new[i])
}

fn same_opt_string(a: &Option<String>, b: &Option<String>) -> (r: bool)
    ensures
        r == (opt_view(*a) == opt_view(*b)),
{
    match (a, b) {
        (Some(x), Some(y)) => str_equal(x.as_str(), y.as_str()),
        (None, None) => true,
        _ => false,
    }
}

/// Whether a rescan changed the library.
pub fn game_list_changed(old: &[Game], new: &[Game]) -> (b: bool)
    ensures
        b == listing_changed(old@, new@),
{
    if old.len() != new.len() {
        return true;
    }
    let mut i: usize = 0;
    while i < old.len()
        invariant
            old@.len() == new@.len(),
            i <= old@.len(),
            forall|j: int| 0 <= j < i ==> same_listing(old@[j], #[trigger] new@[j]),
        decreases old@.len() - i,
    {
        let a = &old[i];
        let b = &new[i];
        let same = str_equal(a.title_id.as_str(), b.title_id.as_str()) && str_equal(a.art_key.as_str(), b.art_key.as_str())
            && str_equal(a.title.as_str(), b.title.as_str()) && a.system == b.system && a.has_bubble == b.has_bubble
            && same_opt_string(&a.file_path, &b.file_path);
        if !same {
            assert(!same_listing(old@[i as int], new@[i as int]));
            return true;
        }
        i = i + 1;
    }
    false
}

/// Index of the first game with artwork key `key`, or -1.
pub open spec fn first_with_art_key(games: Seq<Game>, key: Seq<char>) -> int
    decreases games.len(),
{
    if games.len() == 0 {
        -1
    } else {
        let p = first_with_art_key(games.drop_last(), key);
        if p >= 0 {
            p
        } else if games.last().art_key@ == key {
            games.len() - 1
        } else {
            -1
        }
    }
}

proof fn lemma_first_with_art_key(games: Seq<Game>, key: Seq<char>)
    ensures
        -1 <= first_with_art_key(games, key) < games.len(),
        first_with_art_key(games, key) >= 0 ==> games[first_with_art_key(games, key)].art_key@ == key,
    decreases games.len(),
{
    if games.len() > 0 {
        lemma_first_with_art_key(games.drop_last(), key);
    }
}

/// The cached artwork of a rescanned game is unsafe when the game listed
/// before under its artwork key had another title that does not match it.
pub open spec fn art_mismatch(old: Seq<Game>, g: Game) -> bool {
    let p = first_with_art_key(old, g.art_key@);
    p >= 0 && old[p].title@ != g.title@ && !crate::artwork::title_match_spec(
        unicode_lower(old[p].title@),
        unicode_lower(g.title@),
    )
}

/// The positions, in order, of the first `n` rescanned games whose cached
/// artwork is unsafe.
pub open spec fn mismatch_positions(old: Seq<Game>, new: Seq<Game>, n: int) -> Seq<usize>
    decreases n,
{
    if n <= 0 {
        Seq::empty()
    } else {
        let p = mismatch_positions(old, new, n - 1);
        if art_mismatch(old, new[n - 1]) {
            p.push((n - 1) as usize)
        } else {
            p
        }
    }
}

fn find_art_key(games: &[Game], key: &str) -> (r: Option<usize>)
    ensures
        match r {
            Some(k) => first_with_art_key(games@, key@) == k,
            None => first_with_art_key(games@, key@) == -1,
        },
{
    let mut i: usize = 0;
    while i < games.len()
        invariant
            i <= games@.len(),
            first_with_art_key(games@.take(i as int), key@) == -1,
        decreases games@.len() - i,
    {
        proof {
            assert(games@.take(i as int + 1).drop_last() =~= games@.take(i as int));
        }
        if str_equal(games[i].art_key.as_str(), key) {
            proof {
                lemma_art_key_prefix(games@, key@, i as int + 1);
            }
            return Some(i);
        }
        i = i + 1;
    }
    proof {
        assert(games@.take(i as int) =~= games@);
    }
    None
}

proof fn lemma_art_key_prefix(games: Seq<Game>, key: Seq<char>, i: int)
    requires
        0 <= i <= games.len(),
        first_with_art_key(games.take(i), key) >= 0,
    ensures
        first_with_art_key(games, key) == first_with_art_key(games.take(i), key),
    decreases games.len() - i,
{
    if i < games.len() {
        assert(games.take(i + 1).drop_last() =~= games.take(i));
        lemma_art_key_prefix(games, key, i + 1);
    } else {
        assert(games.take(i) =~= games);
    }
}

/// The rescanned games whose cached artwork must go, by position: the
/// game listed before under the same artwork key had another title that
/// does not match the new one.
pub fn art_mismatches(old: &[Game], new: &[Game]) -> (r: Vec<usize>)
    ensures
        r@ == mismatch_positions(old@, new@, new@.len() as int),
{
    let mut out: Vec<usize> = Vec::new();
    let mut i: usize = 0;
    while i < new.len()
        invariant
            i <= new@.len(),
            out@ == mismatch_positions(old@, new@, i as int),
        decreases new@.len() - i,
    {
        let g = &new[i];
        let found = find_art_key(old, g.art_key.as_str());
        proof {
            lemma_first_with_art_key(old@, g.art_key@);
        }
        let bad = match found {
            Some(p) => !str_equal(old[p].title.as_str(), g.title.as_str()) && !crate::artwork::is_title_match(
                old[p].title.as_str(),
                g.title.as_str(),
            ),
            None => false,
        };
        if bad {
            out.push(i);
        }
        i = i + 1;
    }
    out
}

/// A game's entry with the artwork, music, bubble and file facts of a
/// rescan of it.
pub open spec fn with_scan_flags(g: Game, s: Game) -> Game {
    Game {
        has_box_art: s.has_box_art,
        has_hero: s.has_hero,
        has_logo: s.has_logo,
        music_resolved: s.music_resolved,
        music_path: s.music_path,
        has_bubble: s.has_bubble,
        file_path: s.file_path,
        ..g
    }
}

/// Takes, game by game, the cache and file facts of a rescan that did not
/// change the library.
pub fn refresh_scan_flags(games: &mut Vec<Game>, scanned: &[Game])
    ensures
        final(games)@.len() == old(games)@.len(),
        forall|i: int| 0 <= i < final(games)@.len() ==> #[trigger] final(games)@[i] == if i < scanned@.len() {
            with_scan_flags(old(games)@[i], scanned@[i])
        } else {
            old(games)@[i]
        },
{
    let ghost g_old = games@;
    let mut i: usize = 0;
    while i < games.len() && i < scanned.len()
        invariant
            i <= games@.len(),
            games@.len() == g_old.len(),
            forall|j: int| i <= j < games@.len() ==> games@[j] == g_old[j],
            forall|j: int| 0 <= j < i ==> #[trigger] games@[j] == with_scan_flags(g_old[j], scanned@[j]),
            i <= scanned@.len(),
        decreases games@.len() - i,
    {
        let s = &scanned[i];
        let mut g = games.remove(i);
        g.has_box_art = s.has_box_art;
        g.has_hero = s.has_hero;
        g.has_logo = s.has_logo;
        g.music_resolved = s.music_resolved;
        g.music_path = crate::scanner::clone_opt_string(&s.music_path);
        g.has_bubble = s.has_bubble;
        g.file_path = crate::scanner::clone_opt_string(&s.file_path);
        games.insert(i, g);
        i = i + 1;
    }
}

/// A title that is only an id: a Sony title id, the game's own id, or a
/// disc image file name.
pub open spec fn title_is_id(g: Game) -> bool {
    ||| crate::scanner::sanitized_id(g.title@) is Some
    ||| g.title@ == g.title_id@
    ||| crate::scanner::has_suffix(unicode_lower(g.title@), ".iso"@)
    ||| crate::scanner::has_suffix(unicode_lower(g.title@), ".cso"@)
}

/// The artwork service's title replaces the game's when the game's title
/// is only an id, or when the service's is not blank and either longer (in
/// bytes) or the game's artwork key is a Sony title id.
pub open spec fn takes_canonical(g: Game, canonical: Seq<char>) -> bool {
    title_is_id(g) || (trim_seq(canonical).len() > 0 && (crate::store::utf8_len(g.title@) < crate::store::utf8_len(
        canonical,
    ) || crate::scanner::sanitized_id(g.art_key@) is Some))
}

/// A game after what the artwork service knows of it: marked a game when
/// the service says so (unless known not to be one), and titled with the
/// service's title when that is preferred.
pub open spec fn after_lookup(g: Game, r: crate::artwork::LookupResult) -> Game {
    let is_game = if g.is_game != Some(false) && r.is_game { Some(true) } else { g.is_game };
    let title = match r.canonical_title {
        Some(c) => if takes_canonical(g, c@) { c } else { g.title },
        None => g.title,
    };
    Game { is_game, title, ..g }
}

fn is_sony_id(s: &str) -> (b: bool)
    ensures
        b == (crate::scanner::sanitized_id(s@) is Some),
{
    crate::scanner::sanitize_sony_title_id(s).is_some()
}

/// Applies what the artwork service knows of a game; tells whether its
/// title changed.
pub fn apply_lookup(game: &mut Game, result: &crate::artwork::LookupResult) -> (title_changed: bool)
    ensures
        *final(game) == after_lookup(*old(game), *result),
        title_changed == (result.canonical_title matches Some(c) && takes_canonical(*old(game), c@)),
{
    if game.is_game != Some(false) && result.is_game {
        game.is_game = Some(true);
    }
    match &result.canonical_title {
        Some(c) => {
            let lower = to_lowercase(game.title.as_str());
            let cur_is_id = is_sony_id(game.title.as_str()) || str_equal(game.title.as_str(), game.title_id.as_str())
                || crate::text::ends_with(lower.as_str(), ".iso") || crate::text::ends_with(lower.as_str(), ".cso");
            let longer = utf8_len_exec(&chars_of(game.title.as_str())) < utf8_len_exec(&chars_of(c.as_str()));
            let take = cur_is_id || (!trim(c.as_str()).as_str().is_empty() && (longer || is_sony_id(game.art_key.as_str())));
            if take {
                game.title = c.clone();
            }
            take
        },
        None => false,
    }
}


/// Orders compared by a number, then by a text.
pub open spec fn key_lt(a: (int, Seq<char>), b: (int, Seq<char>)) -> bool {
    a.0 < b.0 || (a.0 == b.0 && crate::text::seq_lt(a.1, b.1))
}

proof fn lemma_key_lt_asymmetric(a: (int, Seq<char>), b: (int, Seq<char>))
    requires
        key_lt(a, b),
    ensures
        !key_lt(b, a),
{
    if a.0 == b.0 {
        crate::text::lemma_seq_lt_asymmetric(a.1, b.1);
    }
}

proof fn lemma_key_lt_transitive(a: (int, Seq<char>), b: (int, Seq<char>), c: (int, Seq<char>))
    requires
        key_lt(a, b),
        key_lt(b, c),
    ensures
        key_lt(a, c),
{
    if a.0 == b.0 && b.0 == c.0 {
        crate::text::lemma_seq_lt_transitive(a.1, b.1, c.1);
    }
}

/// Launch count and last launch of a title, zero when never launched.
pub open spec fn launches_of(stats: crate::stats::GameStatsStore, id: Seq<char>) -> (int, int) {
    match stats.lookup(crate::stats::stats_key(id)) {
        Some(s) => (s.launch_count as int, s.last_launched_at as int),
        None => (0, 0),
    }
}

/// What a library game is ordered by under a sort: most played and most
/// recently played first, platform order, and in each case the lower-cased
/// title after that.
pub open spec fn sort_key(sort: crate::config::LibrarySort, g: Game, stats: crate::stats::GameStatsStore) -> (int, Seq<char>) {
    let (count, last) = launches_of(stats, g.title_id@);
    let primary = match sort {
        crate::config::LibrarySort::Name => 0,
        crate::config::LibrarySort::MostPlayed => -count,
        crate::config::LibrarySort::RecentlyPlayed => -last,
        crate::config::LibrarySort::System => match g.system {
            System::Vita => 0,
            System::Psp => 1,
            System::Psx => 2,
        },
    };
    (primary, unicode_lower(g.title@))
}

/// A game is listed on a local tab when it exists and is not hidden.
pub open spec fn listed(games: Seq<Game>, config: Config, i: usize) -> bool {
    i < games.len() && !crate::text::contains_ignore_case(views(config.hidden_title_ids@), trim_seq(games[i as int].title_id@))
}

fn game_sort_key(sort: crate::config::LibrarySort, g: &Game, stats: &crate::stats::GameStatsStore) -> (k: (i128, String))
    requires
        stats.wf(),
    ensures
        k.0 as int == sort_key(sort, *g, *stats).0,
        k.1@ == sort_key(sort, *g, *stats).1,
{
    let st = stats.get(g.title_id.as_str());
    let (count, last): (u32, u64) = match st {
        Some(s) => (s.launch_count, s.last_launched_at),
        None => (0, 0),
    };
    let primary: i128 = match sort {
        crate::config::LibrarySort::Name => 0,
        crate::config::LibrarySort::MostPlayed => -(count as i128),
        crate::config::LibrarySort::RecentlyPlayed => -(last as i128),
        crate::config::LibrarySort::System => system_sort_key(g.system) as i128,
    };
    (primary, to_lowercase(g.title.as_str()))
}

/// The test that picks the indices whose game has sort key `k`.
pub open spec fn key_class(
    games: Seq<Game>,
    sort: crate::config::LibrarySort,
    stats: crate::stats::GameStatsStore,
    k: (int, Seq<char>),
) -> spec_fn(usize) -> bool {
    has_key(game_key(games, sort, stats), k)
}

/// The sort key of the game at each index.
pub open spec fn game_key(
    games: Seq<Game>,
    sort: crate::config::LibrarySort,
    stats: crate::stats::GameStatsStore,
) -> spec_fn(usize) -> (int, Seq<char>) {
    |i: usize| sort_key(sort, games[i as int], stats)
}

/// The strict order of sort keys.
pub open spec fn key_order() -> spec_fn((int, Seq<char>), (int, Seq<char>)) -> bool {
    |a: (int, Seq<char>), b: (int, Seq<char>)| key_lt(a, b)
}

fn key_lt_exec(a: &(i128, String), b: &(i128, String)) -> (r: bool)
    ensures
        r == key_lt((a.0 as int, a.1@), (b.0 as int, b.1@)),
{
    a.0 < b.0 || (a.0 == b.0 && crate::text::str_lt(a.1.as_str(), b.1.as_str()))
}

/// Orders the visible games of a local tab as the library shows them:
/// hidden and unknown games dropped, then (except on the recent tab, which
/// keeps its history order) sorted by the library sort. The store keeps
/// its list as it is.
pub fn order_visible(
    visible: Vec<usize>,
    games: &[Game],
    stats: &crate::stats::GameStatsStore,
    config: &Config,
    store_tab: bool,
    recent_tab: bool,
) -> (r: Vec<usize>)
    requires
        stats.wf(),
    ensures
        store_tab ==> r@ == visible@,
        !store_tab && recent_tab ==> r@ == visible@.filter(|i: usize| listed(games@, *config, i)),
        !store_tab && !recent_tab ==> r@.to_multiset() == visible@.filter(|i: usize| listed(games@, *config, i)).to_multiset(),
        !store_tab && !recent_tab ==> forall|k: (int, Seq<char>)| r@.filter(#[trigger] key_class(games@, config.library_sort, *stats, k))
            == visible@.filter(|i: usize| listed(games@, *config, i)).filter(key_class(games@, config.library_sort, *stats, k)),
        !store_tab && !recent_tab ==> forall|a: int, b: int|
            0 <= a < b < r@.len() ==> !key_lt(
                sort_key(config.library_sort, games@[r@[b] as int], *stats),
                sort_key(config.library_sort, games@[r@[a] as int], *stats),
            ),
        !store_tab ==> forall|a: int| 0 <= a < r@.len() ==> #[trigger] r@[a] < games@.len(),
{
    if store_tab {
        return visible;
    }
    let ghost f = visible@.filter(|i: usize| listed(games@, *config, i));
    let mut kept: Vec<usize> = Vec::new();
    let mut i: usize = 0;
    while i < visible.len()
        invariant
            i <= visible@.len(),
            kept@ == visible@.take(i as int).filter(|i: usize| listed(games@, *config, i)),
            forall|a: int| 0 <= a < kept@.len() ==> #[trigger] kept@[a] < games@.len(),
        decreases visible@.len() - i,
    {
        proof {
            reveal(Seq::filter);
            assert(visible@.take(i as int + 1).drop_last() =~= visible@.take(i as int));
        }
        let k = visible[i];
        if k < games.len() && !config.title_is_hidden(games[k].title_id.as_str()) {
            kept.push(k);
        }
        i = i + 1;
    }
    proof {
        assert(visible@.take(i as int) =~= visible@);
    }
    if recent_tab {
        return kept;
    }
    let sort = config.library_sort;
    let ghost orig = kept@;
    let mut out: Vec<usize> = Vec::new();
    let mut keys: Vec<(i128, String)> = Vec::new();
    proof {
        assert(out@ + kept@ =~= kept@);
        lemma_stable_start(kept@, game_key(games@, sort, *stats));
        assert(out@ =~= Seq::<usize>::empty());
        assert forall|k: (int, Seq<char>)| out@.filter(#[trigger] key_class(games@, sort, *stats, k))
            + kept@.filter(key_class(games@, sort, *stats, k)) == orig.filter(key_class(games@, sort, *stats, k)) by {
            assert(key_class(games@, sort, *stats, k) == has_key(game_key(games@, sort, *stats), k));
        }
    }
    while kept.len() > 0
        invariant
            stats.wf(),
            sort == config.library_sort,
            keys@.len() == out@.len(),
            forall|a: int| 0 <= a < kept@.len() ==> #[trigger] kept@[a] < games@.len(),
            forall|a: int| 0 <= a < out@.len() ==> #[trigger] out@[a] < games@.len(),
            forall|k: int| 0 <= k < keys@.len() ==> ((#[trigger] keys@[k]).0 as int, keys@[k].1@) == sort_key(
                sort,
                games@[out@[k] as int],
                *stats,
            ),
            forall|a: int, b: int| 0 <= a < b < keys@.len() ==> !key_lt(
                ((#[trigger] keys@[b]).0 as int, keys@[b].1@),
                ((#[trigger] keys@[a]).0 as int, keys@[a].1@),
            ),
            (out@ + kept@).to_multiset() == orig.to_multiset(),
            forall|k: (int, Seq<char>)| out@.filter(#[trigger] key_class(games@, sort, *stats, k))
                + kept@.filter(key_class(games@, sort, *stats, k)) == orig.filter(key_class(games@, sort, *stats, k)),
        decreases kept@.len(),
    {
        let ghost before_rest = kept@;
        let g = kept.remove(0);
        let key = game_sort_key(sort, &games[g], stats);
        let ghost kv = (key.0 as int, key.1@);
        let mut j: usize = 0;
        while j < keys.len() && !key_lt_exec(&key, &keys[j])
            invariant
                j <= keys@.len(),
                kv == (key.0 as int, key.1@),
                forall|k: int| 0 <= k < j ==> !key_lt(kv, ((#[trigger] keys@[k]).0 as int, keys@[k].1@)),
            decreases keys@.len() - j,
        {
            j = j + 1;
        }
        let ghost kb = keys@;
        let ghost ob = out@;
        keys.insert(j, key);
        out.insert(j, g);
        proof {
            assert forall|a: int, b: int| 0 <= a < b < keys@.len() implies !key_lt(
                ((#[trigger] keys@[b]).0 as int, keys@[b].1@),
                ((#[trigger] keys@[a]).0 as int, keys@[a].1@),
            ) by {
                if a < j && b == j {
                    assert(keys@[a] == kb[a]);
                } else if a == j && b > j {
                    let kj = (kb[j as int].0 as int, kb[j as int].1@);
                    let kl = (kb[b - 1].0 as int, kb[b - 1].1@);
                    assert(keys@[b] == kb[b - 1]);
                    assert(key_lt(kv, kj));
                    if key_lt(kl, kv) {
                        if b - 1 > j {
                            lemma_key_lt_transitive(kl, kv, kj);
                        } else {
                            lemma_key_lt_asymmetric(kv, kj);
                        }
                    }
                } else if a < j && b > j {
                    assert(keys@[a] == kb[a]);
                    assert(keys@[b] == kb[b - 1]);
                } else if a > j {
                    assert(keys@[a] == kb[a - 1]);
                    assert(keys@[b] == kb[b - 1]);
                }
            }
            assert forall|k: int| 0 <= k < keys@.len() implies ((#[trigger] keys@[k]).0 as int, keys@[k].1@) == sort_key(
                sort,
                games@[out@[k] as int],
                *stats,
            ) by {
                if k < j {
                    assert(keys@[k] == kb[k]);
                    assert(out@[k] == ob[k]);
                } else if k > j {
                    assert(keys@[k] == kb[k - 1]);
                    assert(out@[k] == ob[k - 1]);
                }
            }
            assert forall|a: int| 0 <= a < out@.len() implies #[trigger] out@[a] < games@.len() by {
                if a < j {
                    assert(out@[a] == ob[a]);
                } else if a > j {
                    assert(out@[a] == ob[a - 1]);
                }
            }
            assert forall|a: int| 0 <= a < kept@.len() implies #[trigger] kept@[a] < games@.len() by {
                assert(kept@[a] == before_rest[a + 1]);
            }
            broadcast use vstd::multiset::group_multiset_axioms;
            assert(before_rest =~= seq![g] + kept@);
            vstd::seq_lib::to_multiset_insert(ob, j as int, g);
            vstd::seq_lib::lemma_multiset_commutative(ob, before_rest);
            vstd::seq_lib::lemma_multiset_commutative(out@, kept@);
            vstd::seq_lib::lemma_multiset_commutative(seq![g], kept@);
            vstd::seq_lib::to_multiset_build(kept@, g);
            assert(kept@.push(g).to_multiset() == (seq![g] + kept@).to_multiset()) by {
                assert(kept@.push(g) =~= kept@ + seq![g]);
                vstd::seq_lib::lemma_multiset_commutative(kept@, seq![g]);
            }
            assert((out@ + kept@).to_multiset() =~= (ob + before_rest).to_multiset());
            let key = game_key(games@, sort, *stats);
            let kbs = kb.map_values(|e: (i128, String)| (e.0 as int, e.1@));
            assert forall|m: int| 0 <= m < ob.len() implies key(#[trigger] ob[m]) == kbs[m] by {}
            assert forall|a: int, b: int| 0 <= a < b < kbs.len() implies !key_order()(#[trigger] kbs[b], #[trigger] kbs[a]) by {}
            crate::text::lemma_seq_lt_irreflexive(kv.1);
            assert forall|k: (int, Seq<char>)| ob.filter(#[trigger] has_key(key, k)) + (seq![g] + kept@).filter(has_key(key, k))
                == orig.filter(has_key(key, k)) by {
                assert(key_class(games@, sort, *stats, k) == has_key(key, k));
            }
            lemma_stable_step(ob, kbs, j as int, g, kept@, orig, key, key_order());
            assert forall|k: (int, Seq<char>)| out@.filter(#[trigger] key_class(games@, sort, *stats, k))
                + kept@.filter(key_class(games@, sort, *stats, k)) == orig.filter(key_class(games@, sort, *stats, k)) by {
                assert(key_class(games@, sort, *stats, k) == has_key(key, k));
            }
        }
    }
    proof {
        assert(out@ + kept@ =~= out@);
        assert forall|a: int, b: int| 0 <= a < b < out@.len() implies !key_lt(
            sort_key(config.library_sort, games@[out@[b] as int], *stats),
            sort_key(config.library_sort, games@[out@[a] as int], *stats),
        ) by {
            assert(((keys@[b]).0 as int, keys@[b].1@) == sort_key(sort, games@[out@[b] as int], *stats));
            assert(((keys@[a]).0 as int, keys@[a].1@) == sort_key(sort, games@[out@[a] as int], *stats));
        }
    }
    out
}

/// Index of the first `x` in `v`, or -1.
pub open spec fn first_pos(v: Seq<usize>, x: usize) -> int
    decreases v.len(),
{
    if v.len() == 0 {
        -1
    } else {
        let p = first_pos(v.drop_last(), x);
        if p >= 0 {
            p
        } else if v.last() == x {
            v.len() - 1
        } else {
            -1
        }
    }
}

proof fn lemma_first_pos_prefix(v: Seq<usize>, x: usize, i: int)
    requires
        0 <= i <= v.len(),
        first_pos(v.take(i), x) >= 0,
    ensures
        first_pos(v, x) == first_pos(v.take(i), x),
    decreases v.len() - i,
{
    if i < v.len() {
        assert(v.take(i + 1).drop_last() =~= v.take(i));
        lemma_first_pos_prefix(v, x, i + 1);
    } else {
        assert(v.take(i) =~= v);
    }
}

/// The slot to highlight after the visible games were rebuilt: where the
/// previously highlighted game now is, else the first; never past the last.
pub open spec fn reselect_spec(prev: Option<usize>, visible: Seq<usize>) -> int {
    let p = match prev {
        Some(g) => if first_pos(visible, g) >= 0 { first_pos(visible, g) } else { 0 },
        None => 0,
    };
    let last = if visible.len() > 0 { visible.len() - 1 } else { 0 };
    if p < last { p } else { last }
}

/// The slot to highlight after the visible games were rebuilt.
pub fn reselect(prev: Option<usize>, visible: &[usize]) -> (r: usize)
    ensures
        r == reselect_spec(prev, visible@),
{
    let p: usize = match prev {
        Some(g) => {
            let mut found: Option<usize> = None;
            let mut i: usize = 0;
            while i < visible.len() && found.is_none()
                invariant
                    i <= visible@.len(),
                    found matches Some(k) ==> first_pos(visible@, g) == k,
                    found is None ==> first_pos(visible@.take(i as int), g) == -1,
                decreases visible@.len() - i,
            {
                proof {
                    assert(visible@.take(i as int + 1).drop_last() =~= visible@.take(i as int));
                }
                if visible[i] == g {
                    proof {
                        lemma_first_pos_prefix(visible@, g, i as int + 1);
                    }
                    found = Some(i);
                }
                i = i + 1;
            }
            proof {
                if found is None {
                    assert(visible@.take(i as int) =~= visible@);
                }
            }
            match found {
                Some(k) => k,
                None => 0,
            }
        },
        None => 0,
    };
    let last = if visible.len() > 0 { visible.len() - 1 } else { 0 };
    if p < last { p } else { last }
}


/// Screenshots kept each way around the focused one on the detail page.
pub const STORE_SHOT_KEEP_RADIUS: usize = 2;

/// Screenshot downloads running at once.
pub const STORE_SHOT_BUDGET: usize = 2;

/// The screenshot in focus: the full-screen one, else the highlighted one,
/// never past the last of `n`.
pub open spec fn shot_focus(n: int, lightbox: Option<usize>, selected: usize) -> int {
    let f = match lightbox {
        Some(i) => i as int,
        None => selected as int,
    };
    if f < n - 1 { f } else { n - 1 }
}

/// The screenshots wanted around focus `f` of `n`, nearest first: the
/// focus, its neighbours, then the ones two away.
pub open spec fn shot_order_spec(n: int, f: int) -> Seq<usize> {
    seq![f as usize] + (if f > 0 { seq![(f - 1) as usize] } else { seq![] }) + (if f + 1 < n {
        seq![(f + 1) as usize]
    } else {
        seq![]
    }) + (if f >= 2 { seq![(f - 2) as usize] } else { seq![] }) + (if f + 2 < n { seq![(f + 2) as usize] } else { seq![] })
}

impl StoreDetailState {
    /// The screenshots to keep and fetch, nearest the focus first; none
    /// when the item has no screenshots.
    pub fn shot_order(&self) -> (r: Vec<usize>)
        ensures
            self.screenshot_urls@.len() == 0 ==> r@.len() == 0,
            self.screenshot_urls@.len() > 0 ==> r@ == shot_order_spec(
                self.screenshot_urls@.len() as int,
                shot_focus(self.screenshot_urls@.len() as int, self.lightbox, self.selected_shot),
            ),
    {
        let n = self.screenshot_urls.len();
        let mut order: Vec<usize> = Vec::new();
        if n == 0 {
            return order;
        }
        let f0 = match self.lightbox {
            Some(i) => i,
            None => self.selected_shot,
        };
        let f = if f0 < n - 1 { f0 } else { n - 1 };
        order.push(f);
        if f > 0 {
            order.push(f - 1);
        }
        if f + 1 < n {
            order.push(f + 1);
        }
        if f >= 2 {
            order.push(f - 2);
        }
        if n - f > 2 {
            order.push(f + 2);
        }
        proof {
            assert(order@ =~= shot_order_spec(n as int, f as int));
        }
        order
    }

    /// Forgets the screenshots that are not wanted around the focus.
    pub fn release_far_shots(&mut self)
        ensures
            final(self).screenshots@.len() == old(self).screenshots@.len(),
            forall|i: int| 0 <= i < final(self).screenshots@.len() ==> #[trigger] final(self).screenshots@[i] == if old(
                self,
            ).screenshot_urls@.len() > 0 && shot_order_spec(
                old(self).screenshot_urls@.len() as int,
                shot_focus(old(self).screenshot_urls@.len() as int, old(self).lightbox, old(self).selected_shot),
            ).contains(i as usize) {
                old(self).screenshots@[i]
            } else {
                None
            },
            final(self).screenshot_urls == old(self).screenshot_urls,
            final(self).pending == old(self).pending,
            final(self).lightbox == old(self).lightbox,
            final(self).selected_shot == old(self).selected_shot,
            final(self).title_id == old(self).title_id,
            final(self).hero_bytes == old(self).hero_bytes,
            final(self).looking_up_heroes == old(self).looking_up_heroes,
    {
        let order = self.shot_order();
        let ghost old_shots = self.screenshots@;
        let ghost wanted = order@;
        let mut i: usize = 0;
        while i < self.screenshots.len()
            invariant
                wanted == order@,
                self.screenshot_urls == old(self).screenshot_urls,
                self.pending == old(self).pending,
                self.lightbox == old(self).lightbox,
                self.selected_shot == old(self).selected_shot,
                self.title_id == old(self).title_id,
                self.hero_bytes == old(self).hero_bytes,
                self.looking_up_heroes == old(self).looking_up_heroes,
                self.screenshots@.len() == old_shots.len(),
                i <= old_shots.len(),
                forall|j: int| i <= j < old_shots.len() ==> self.screenshots@[j] == old_shots[j],
                forall|j: int| 0 <= j < i ==> #[trigger] self.screenshots@[j] == if wanted.contains(j as usize) {
                    old_shots[j]
                } else {
                    None
                },
            decreases old_shots.len() - i,
        {
            let mut k: usize = 0;
            let mut wanted_here = false;
            while k < order.len()
                invariant
                    k <= order@.len(),
                    wanted_here == exists|t: int| 0 <= t < k && order@[t] == i,
                decreases order@.len() - k,
            {
                if order[k] == i {
                    wanted_here = true;
                }
                k = k + 1;
            }
            proof {
                if wanted_here {
                    let t = choose|t: int| 0 <= t < k && order@[t] == i;
                    assert(wanted.contains(i as usize)) by {
                        assert(wanted[t] == i);
                    }
                } else {
                    assert(!wanted.contains(i as usize));
                }
            }
            if !wanted_here {
                self.screenshots.set(i, None);
            }
            i = i + 1;
        }
    }

    /// The screenshots to request now, nearest the focus first: those
    /// wanted that are neither loaded nor being fetched, as many as the
    /// download budget leaves room for.
    pub fn shots_to_request(&self) -> (r: Vec<usize>)
        ensures
            ({
                let n = self.screenshot_urls@.len() as int;
                let in_flight = self.pending@.len() as int;
                let order = if n > 0 { shot_order_spec(n, shot_focus(n, self.lightbox, self.selected_shot)) } else { seq![] };
                let open = order.filter(
                    |i: usize|
                        !(i < self.screenshots@.len() && self.screenshots@[i as int] is Some) && !self.pending@.contains(i)
                            && i < n,
                );
                r@ == if in_flight >= STORE_SHOT_BUDGET { seq![] } else if open.len() <= STORE_SHOT_BUDGET - in_flight {
                    open
                } else {
                    open.take(STORE_SHOT_BUDGET - in_flight)
                }
            }),
    {
        let mut out: Vec<usize> = Vec::new();
        let in_flight = self.pending.len();
        if in_flight >= STORE_SHOT_BUDGET {
            return out;
        }
        let budget = STORE_SHOT_BUDGET - in_flight;
        let order = self.shot_order();
        let ghost n = self.screenshot_urls@.len() as int;
        let ghost pred = |i: usize|
            !(i < self.screenshots@.len() && self.screenshots@[i as int] is Some) && !self.pending@.contains(i) && i < n;
        let ghost open = order@.filter(pred);
        let mut k: usize = 0;
        while k < order.len() && out.len() < budget
            invariant
                k <= order@.len(),
                budget == STORE_SHOT_BUDGET - in_flight,
                in_flight == self.pending@.len(),
                n == self.screenshot_urls@.len(),
                open == order@.filter(pred),
                forall|x: usize| #[trigger] pred(x) == (!(x < self.screenshots@.len() && self.screenshots@[x as int] is Some)
                    && !self.pending@.contains(x) && x < n),
                out@ == order@.take(k as int).filter(pred),
                out@.len() <= budget,
            decreases order@.len() - k,
        {
            proof {
                reveal(Seq::filter);
                assert(order@.take(k as int + 1).drop_last() =~= order@.take(k as int));
            }
            let i = order[k];
            let loaded = i < self.screenshots.len() && self.screenshots[i].is_some();
            let mut in_pending = false;
            let mut q: usize = 0;
            while q < self.pending.len()
                invariant
                    q <= self.pending@.len(),
                    in_pending == exists|t: int| 0 <= t < q && self.pending@[t] == i,
                decreases self.pending@.len() - q,
            {
                if self.pending[q] == i {
                    in_pending = true;
                }
                q = q + 1;
            }
            proof {
                if in_pending {
                    let t = choose|t: int| 0 <= t < q && self.pending@[t] == i;
                    assert(self.pending@.contains(i)) by {
                        assert(self.pending@[t] == i);
                    }
                } else {
                    assert(!self.pending@.contains(i));
                }
            }
            proof {
                assert(order@.take(k as int + 1).last() == i);
                assert(pred(i) == (!loaded && !in_pending && i < n));
            }
            if !loaded && !in_pending && i < self.screenshot_urls.len() {
                out.push(i);
            }
            k = k + 1;
        }
        proof {
            reveal(Seq::filter);
            if k == order@.len() {
                assert(order@.take(k as int) =~= order@);
            } else {
                lemma_filter_take_full(order@, pred, k as int, budget as int);
            }
        }
        out
    }
}

proof fn lemma_filter_take_full(s: Seq<usize>, pred: spec_fn(usize) -> bool, k: int, b: int)
    requires
        0 <= k <= s.len(),
        s.take(k).filter(pred).len() == b,
        b >= 0,
    ensures
        s.filter(pred).len() >= b,
        s.filter(pred).take(b) == s.take(k).filter(pred),
    decreases s.len() - k,
{
    reveal(Seq::filter);
    if k == s.len() {
        assert(s.take(k) =~= s);
        assert(s.filter(pred).take(b) =~= s.filter(pred));
    } else {
        assert(s.take(k + 1).drop_last() =~= s.take(k));
        let f1 = s.take(k + 1).filter(pred);
        if pred(s[k]) {
            assert(f1 == s.take(k).filter(pred).push(s[k]));
            lemma_filter_take_full(s, pred, k + 1, b + 1);
            assert(s.filter(pred).take(b) =~= s.filter(pred).take(b + 1).take(b));
            assert(s.filter(pred).take(b + 1).take(b) =~= f1.take(b));
            assert(f1.take(b) =~= s.take(k).filter(pred));
        } else {
            assert(f1 == s.take(k).filter(pred));
            lemma_filter_take_full(s, pred, k + 1, b);
        }
    }
}


impl StoreDetailState {
    /// A download for the page finished: a negative index is the hero
    /// image, kept when it came; otherwise the screenshot stops being
    /// fetched and is stored (nothing when the download failed) if the page
    /// has it.
    pub fn shot_arrived(&mut self, index: i32, bytes: Option<ImageBytes>)
        ensures
            index < 0 ==> {
                &&& final(self).hero_bytes == if bytes is Some { bytes } else { old(self).hero_bytes }
                &&& final(self).screenshots == old(self).screenshots
                &&& final(self).pending == old(self).pending
            },
            index >= 0 ==> {
                &&& final(self).hero_bytes == old(self).hero_bytes
                &&& final(self).pending@ == old(self).pending@.filter(|x: usize| x != index as usize)
                &&& final(self).screenshots@ == if index < old(self).screenshots@.len() {
                    old(self).screenshots@.update(index as int, bytes)
                } else {
                    old(self).screenshots@
                }
            },
            final(self).screenshot_urls == old(self).screenshot_urls,
            final(self).title_id == old(self).title_id,
            final(self).lightbox == old(self).lightbox,
            final(self).selected_shot == old(self).selected_shot,
            final(self).looking_up_heroes == old(self).looking_up_heroes,
    {
        if index < 0 {
            if bytes.is_some() {
                self.hero_bytes = bytes;
            }
            return;
        }
        let i = index as usize;
        let mut kept: Vec<usize> = Vec::new();
        let mut k: usize = 0;
        while k < self.pending.len()
            invariant
                k <= self.pending@.len(),
                kept@ == self.pending@.take(k as int).filter(|x: usize| x != i),
            decreases self.pending@.len() - k,
        {
            proof {
                reveal(Seq::filter);
                assert(self.pending@.take(k as int + 1).drop_last() =~= self.pending@.take(k as int));
            }
            if self.pending[k] != i {
                kept.push(self.pending[k]);
            }
            k = k + 1;
        }
        proof {
            assert(self.pending@.take(k as int) =~= self.pending@);
        }
        self.pending = kept;
        if i < self.screenshots.len() {
            self.screenshots.set(i, bytes);
        }
    }

    /// The service's screenshots for the page arrived: taken (when they
    /// are for this item, while it waits for them, and there are some),
    /// with nothing loaded or being fetched yet. Returns the first one to
    /// fetch as the hero image when the page has none.
    pub fn heroes_found(&mut self, title_id: &str, urls: Vec<String>) -> (hero: Option<String>)
        ensures
            !(old(self).title_id@ == title_id@ && old(self).looking_up_heroes) ==> *final(self) == *old(self) && hero is None,
            old(self).title_id@ == title_id@ && old(self).looking_up_heroes ==> {
                &&& !final(self).looking_up_heroes
                &&& final(self).title_id == old(self).title_id
                &&& final(self).hero_bytes == old(self).hero_bytes
                &&& final(self).lightbox == old(self).lightbox
                &&& final(self).selected_shot == old(self).selected_shot
                &&& if urls@.len() == 0 {
                    &&& final(self).screenshot_urls == old(self).screenshot_urls
                    &&& final(self).screenshots == old(self).screenshots
                    &&& final(self).pending == old(self).pending
                    &&& hero is None
                } else {
                    &&& final(self).screenshot_urls@ == urls@
                    &&& final(self).screenshots@.len() == urls@.len()
                    &&& forall|j: int| 0 <= j < urls@.len() ==> #[trigger] final(self).screenshots@[j] is None
                    &&& final(self).pending@.len() == 0
                    &&& hero == if old(self).hero_bytes is None { Some(urls@[0]) } else { None }
                }
            },
    {
        if !str_equal(self.title_id.as_str(), title_id) || !self.looking_up_heroes {
            return None;
        }
        self.looking_up_heroes = false;
        if urls.len() == 0 {
            return None;
        }
        let n = urls.len();
        let first = urls[0].clone();
        let mut shots: Vec<Option<ImageBytes>> = Vec::new();
        let mut k: usize = 0;
        while k < n
            invariant
                k <= n,
                shots@.len() == k,
                forall|j: int| 0 <= j < k ==> #[trigger] shots@[j] is None,
            decreases n - k,
        {
            shots.push(None);
            k = k + 1;
        }
        self.screenshot_urls = urls;
        self.screenshots = shots;
        self.pending = Vec::new();
        if self.hero_bytes.is_none() {
            Some(first)
        } else {
            None
        }
    }
}


/// The boot file an Adrenaline booter reads to start a game.
pub open spec fn boot_inf_spec(ms0_path: Seq<char>) -> Seq<char> {
    "PATH="@ + ms0_path + "\nDRIVER=INFERNO\nEXECUTE=EBOOT.BIN\n"@
}

/// The boot file an Adrenaline booter reads to start a game.
pub fn boot_inf_text(ms0_path: &str) -> (r: String)
    ensures
        r@ == boot_inf_spec(ms0_path@),
{
    let mut r = "PATH=".to_owned();
    push_str(&mut r, ms0_path);
    push_str(&mut r, "\nDRIVER=INFERNO\nEXECUTE=EBOOT.BIN\n");
    r
}

/// The system address that starts an installed app.
pub open spec fn launch_uri_spec(title_id: Seq<char>) -> Seq<char> {
    "psgm:play?titleid="@ + title_id
}

/// The system address that starts an installed app.
pub fn launch_uri(title_id: &str) -> (r: String)
    ensures
        r@ == launch_uri_spec(title_id@),
{
    let mut r = "psgm:play?titleid=".to_owned();
    push_str(&mut r, title_id);
    r
}

/// What to start for a game: its own bubble; for a PSP or PS1 game without
/// one, the booters prepared for its file (nothing without a file or a
/// booter).
pub open spec fn launch_candidates_spec(g: Game, prepared: Seq<Seq<char>>) -> Option<Seq<Seq<char>>> {
    if g.system != System::Vita && !g.has_bubble {
        if g.file_path is None || prepared.len() == 0 {
            None
        } else {
            Some(prepared)
        }
    } else {
        Some(seq![g.title_id@])
    }
}

/// What to start for a game, given the booters its file was prepared for.
pub fn launch_candidates(game: &Game, prepared: Vec<String>) -> (r: Option<Vec<String>>)
    ensures
        match r {
            Some(v) => launch_candidates_spec(*game, views(prepared@)) == Some(views(v@)),
            None => launch_candidates_spec(*game, views(prepared@)) is None,
        },
{
    let emulated = match game.system {
        System::Vita => false,
        _ => true,
    };
    if emulated && !game.has_bubble {
        if game.file_path.is_none() || prepared.len() == 0 {
            return None;
        }
        return Some(prepared);
    }
    let mut v: Vec<String> = Vec::new();
    v.push(game.title_id.clone());
    proof {
        assert(views(v@) =~= seq![game.title_id@]);
    }
    Some(v)
}


/// A title id as the library indexes it: trimmed and ASCII upper-cased.
pub open spec fn index_id(id: Seq<char>) -> Seq<char> {
    upper_seq(trim_seq(id))
}

/// Whether some game has the title id `id` (as indexed).
pub open spec fn has_game_id(games: Seq<Game>, id: Seq<char>) -> bool {
    exists|i: int| 0 <= i < games.len() && index_id(#[trigger] games[i].title_id@) == index_id(id)
}

/// How many games a tab shows (before searching and hiding): recently
/// played titles that are installed; the store's filtered count; the
/// members of a collection; the games of a platform.
pub open spec fn tab_count_spec(
    target: TabTarget,
    games: Seq<Game>,
    recent: Seq<Seq<char>>,
    items: Seq<crate::collections::Collection>,
    store_count: usize,
) -> int {
    match target {
        TabTarget::Recent => recent.filter(|id: Seq<char>| has_game_id(games, id)).len() as int,
        TabTarget::Store => store_count as int,
        TabTarget::Collection(name) => games.filter(|g: Game| in_named_collection(items, name@, g.title_id@)).len() as int,
        _ => games.filter(|g: Game| shown_on_platform_tab(g, target)).len() as int,
    }
}

fn game_with_index_id(games: &[Game], id: &str) -> (b: bool)
    ensures
        b == has_game_id(games@, id@),
{
    let key = to_ascii_uppercase(trim(id).as_str());
    let mut i: usize = 0;
    while i < games.len()
        invariant
            i <= games@.len(),
            key@ == index_id(id@),
            forall|j: int| 0 <= j < i ==> index_id(#[trigger] games@[j].title_id@) != index_id(id@),
        decreases games@.len() - i,
    {
        let k = to_ascii_uppercase(trim(games[i].title_id.as_str()).as_str());
        if str_equal(k.as_str(), key.as_str()) {
            return true;
        }
        i = i + 1;
    }
    false
}

/// How many games a tab shows, for its label.
pub fn count_target(
    target: &TabTarget,
    games: &[Game],
    recent: &RecentlyPlayed,
    collections: &Collections,
    store_count: usize,
) -> (n: usize)
    ensures
        n == tab_count_spec(*target, games@, recent.ids(), collections.items@, store_count),
{
    match target {
        TabTarget::Store => store_count,
        TabTarget::Recent => {
            let ids = recent.order();
            let ghost pred = |id: Seq<char>| has_game_id(games@, id);
            let mut n: usize = 0;
            let mut i: usize = 0;
            while i < ids.len()
                invariant
                    i <= ids@.len(),
                    views(ids@) == recent.ids(),
                    forall|x: Seq<char>| #[trigger] pred(x) == has_game_id(games@, x),
                    n == views(ids@).take(i as int).filter(pred).len(),
                    n <= i,
                decreases ids@.len() - i,
            {
                proof {
                    reveal(Seq::filter);
                    assert(views(ids@).take(i as int + 1).drop_last() =~= views(ids@).take(i as int));
                }
                proof {
                    assert(views(ids@).take(i as int + 1).last() == ids@[i as int]@);
                }
                if game_with_index_id(games, ids[i].as_str()) {
                    n = n + 1;
                }
                i = i + 1;
            }
            proof {
                assert(views(ids@).take(i as int) =~= views(ids@));
            }
            n
        },
        TabTarget::Collection(name) => {
            let found = find_collection(collections, name.as_str());
            proof {
                lemma_collection_named_bound(collections.items@, name@);
            }
            let ghost pred = |g: Game| in_named_collection(collections.items@, name@, g.title_id@);
            let mut n: usize = 0;
            let mut i: usize = 0;
            while i < games.len()
                invariant
                    i <= games@.len(),
                    forall|g: Game| #[trigger] pred(g) == in_named_collection(collections.items@, name@, g.title_id@),
                    n == games@.take(i as int).filter(pred).len(),
                    n <= i,
                    match found {
                        Some(c) => collection_named(collections.items@, name@) == c,
                        None => collection_named(collections.items@, name@) == -1,
                    },
                    -1 <= collection_named(collections.items@, name@) < collections.items@.len(),
                decreases games@.len() - i,
            {
                proof {
                    reveal(Seq::filter);
                    assert(games@.take(i as int + 1).drop_last() =~= games@.take(i as int));
                }
                let member = match found {
                    Some(c) => collections.contains(c, games[i].title_id.as_str()),
                    None => false,
                };
                proof {
                    assert(games@.take(i as int + 1).last() == games@[i as int]);
                    assert(member == pred(games@[i as int]));
                }
                if member {
                    n = n + 1;
                }
                i = i + 1;
            }
            proof {
                assert(games@.take(i as int) =~= games@);
            }
            n
        },
        _ => {
            let ghost t = *target;
            let ghost pred = |g: Game| shown_on_platform_tab(g, t);
            let mut n: usize = 0;
            let mut i: usize = 0;
            while i < games.len()
                invariant
                    i <= games@.len(),
                    t == *target,
                    !(t is Store || t is Recent || t is Collection),
                    forall|g: Game| #[trigger] pred(g) == shown_on_platform_tab(g, t),
                    n == games@.take(i as int).filter(pred).len(),
                    n <= i,
                decreases games@.len() - i,
            {
                proof {
                    reveal(Seq::filter);
                    assert(games@.take(i as int + 1).drop_last() =~= games@.take(i as int));
                }
                let g = &games[i];
                let on_tab = g.is_game != Some(false) && match target {
                    TabTarget::Vita => g.system == System::Vita,
                    TabTarget::Psp => g.system == System::Psp,
                    TabTarget::Ps1 => g.system == System::Psx,
                    _ => true,
                };
                proof {
                    assert(games@.take(i as int + 1).last() == games@[i as int]);
                    assert(on_tab == pred(games@[i as int]));
                }
                if on_tab {
                    n = n + 1;
                }
                i = i + 1;
            }
            proof {
                assert(games@.take(i as int) =~= games@);
            }
            n
        },
    }
}

/// Whether the active tab is a collection that may be deleted: one the
/// user made (not built in) and that still exists.
pub fn tab_can_delete(target: Option<&TabTarget>, collections: &Collections) -> (b: bool)
    ensures
        b == (target matches Some(t) && t is Collection && ({
            let c = collection_named(collections.items@, t->Collection_0@);
            c >= 0 && c >= crate::collections::DEFAULT_COLLECTION_COUNT
        })),
{
    match target {
        Some(TabTarget::Collection(name)) => match find_collection(collections, name.as_str()) {
            Some(i) => !collections.is_default(i),
            None => false,
        },
        _ => false,
    }
}

/// Whether a title is installed (its id trimmed and matched ignoring ASCII
/// case).
pub fn is_title_installed(games: &[Game], title_id: &str) -> (b: bool)
    ensures
        b == has_game_id(games@, title_id@),
{
    game_with_index_id(games, title_id)
}


proof fn lemma_first_pos(v: Seq<usize>, x: usize)
    ensures
        -1 <= first_pos(v, x) < v.len(),
        first_pos(v, x) >= 0 ==> v[first_pos(v, x)] == x,
        first_pos(v, x) == -1 ==> !v.contains(x),
    decreases v.len(),
{
    if v.len() > 0 {
        lemma_first_pos(v.drop_last(), x);
        if first_pos(v, x) == -1 {
            assert forall|i: int| 0 <= i < v.len() implies v[i] != x by {
                if i < v.len() - 1 {
                    assert(v[i] == v.drop_last()[i]);
                }
            }
        }
    }
}

/// After the visible games are rebuilt, the highlight stays on the game
/// it was on whenever that game is still visible.
pub proof fn law_reselect_keeps_game(prev: usize, visible: Seq<usize>)
    requires
        visible.contains(prev),
    ensures
        0 <= reselect_spec(Some(prev), visible) < visible.len(),
        visible[reselect_spec(Some(prev), visible)] == prev,
{
    lemma_first_pos(visible, prev);
}

/// Applying what the artwork service knows of a game twice changes
/// nothing more than applying it once.
pub proof fn law_lookup_idempotent(g: Game, r: crate::artwork::LookupResult)
    ensures
        after_lookup(after_lookup(g, r), r) == after_lookup(g, r),
{
}

} // verus!
