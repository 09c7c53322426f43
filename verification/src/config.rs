use vstd::prelude::*;

use crate::i18n::Locale;
use crate::text::{
    ascii_lower, ascii_upper, contains_ignore_case, eq_ignore_ascii_case, first_index_ignore_case, first_index_of,
    lemma_views_push, lemma_views_remove, lower_seq, position_ignore_case, position_of,
    replace_char, replace_char_seq, sort_strings, sorted_seqs, str_equal, to_ascii_uppercase,
    trim, trim_seq, upper_seq, views,
};

verus! {

/// The lower-case hexadecimal digit of `n` (below 16).
pub open spec fn hex_digit(n: int) -> char {
    if n < 10 {
        (('0' as int) + n) as char
    } else {
        (('a' as int) + n - 10) as char
    }
}

/// Two lower-case hexadecimal digits per byte, in order.
pub open spec fn hex_of(bytes: Seq<u8>) -> Seq<char>
    decreases bytes.len(),
{
    if bytes.len() == 0 {
        Seq::empty()
    } else {
        hex_of(bytes.drop_last()) + seq![hex_digit(bytes.last() as int / 16), hex_digit(bytes.last() as int % 16)]
    }
}

/// The client id the launcher identifies itself with: `vitadeck-` and the
/// hexadecimal digits of `bytes` (random bytes, 16 of them).
pub open spec fn client_id_spec(bytes: Seq<u8>) -> Seq<char> {
    "vitadeck-"@ + hex_of(bytes)
}

fn hex_digit_exec(n: u8) -> (c: char)
    requires
        n < 16,
    ensures
        c == hex_digit(n as int),
{
    if n < 10 {
        ((48u8 + n) as char)
    } else {
        ((87u8 + n) as char)
    }
}

/// A client id built from random bytes.
pub fn client_id_from_bytes(bytes: &[u8]) -> (id: String)
    ensures
        id@ == client_id_spec(bytes@),
        id@.len() == 9 + 2 * bytes@.len(),
{
    let mut id = "vitadeck-".to_owned();
    proof {
        reveal_strlit("vitadeck-");
    }
    let mut i: usize = 0;
    while i < bytes.len()
        invariant
            i <= bytes@.len(),
            id@ == "vitadeck-"@ + hex_of(bytes@.take(i as int)),
            "vitadeck-"@.len() == 9,
        decreases bytes@.len() - i,
    {
        proof {
            assert(bytes@.take(i as int + 1).drop_last() =~= bytes@.take(i as int));
            assert(bytes@.take(i as int + 1).last() == bytes@[i as int]);
        }
        let b = bytes[i];
        id.push(hex_digit_exec(b / 16));
        id.push(hex_digit_exec(b % 16));
        proof {
            assert(id@ =~= "vitadeck-"@ + hex_of(bytes@.take(i as int + 1)));
        }
        i = i + 1;
    }
    proof {
        assert(bytes@.take(i as int) =~= bytes@);
        lemma_hex_len(bytes@);
    }
    id
}

proof fn lemma_hex_len(bytes: Seq<u8>)
    ensures
        hex_of(bytes).len() == 2 * bytes.len(),
    decreases bytes.len(),
{
    if bytes.len() > 0 {
        lemma_hex_len(bytes.drop_last());
    }
}

/// Number of cache budget choices offered in the settings.
pub const BUDGET_OPTION_COUNT: usize = 5;

/// Number of store regions the catalogue can be filtered by.
pub const STORE_REGION_COUNT: usize = 5;

/// The cache budget choices, in megabytes, in the order the settings cycle
/// through them; zero means unlimited.
pub open spec fn budget_option(i: int) -> u32 {
    if i == 0 {
        50
    } else if i == 1 {
        100
    } else if i == 2 {
        150
    } else if i == 3 {
        300
    } else {
        0
    }
}

/// Where a budget sits among the choices; a value that is not one of them
/// counts as the default choice.
pub open spec fn budget_index(mb: u32) -> int {
    if mb == 50 {
        0
    } else if mb == 100 {
        1
    } else if mb == 150 {
        2
    } else if mb == 300 {
        3
    } else if mb == 0 {
        4
    } else {
        2
    }
}

/// The region codes a store filter may name.
pub open spec fn store_region(i: int) -> Seq<char> {
    if i == 0 {
        "US"@
    } else if i == 1 {
        "EU"@
    } else if i == 2 {
        "JP"@
    } else if i == 3 {
        "ASIA"@
    } else {
        "INT"@
    }
}

pub open spec fn is_store_region(r: Seq<char>) -> bool {
    exists|i: int| 0 <= i < STORE_REGION_COUNT && #[trigger] store_region(i) == r
}

/// The budget choice at position `i`.
pub fn budget_option_at(i: usize) -> (mb: u32)
    requires
        i < BUDGET_OPTION_COUNT,
    ensures
        mb == budget_option(i as int),
{
    if i == 0 {
        50
    } else if i == 1 {
        100
    } else if i == 2 {
        150
    } else if i == 3 {
        300
    } else {
        0
    }
}

/// Whether `region` is one of the known store region codes (exact match).
pub fn is_known_store_region(region: &str) -> (b: bool)
    ensures
        b == is_store_region(region@),
{
    let b = str_equal(region, "US") || str_equal(region, "EU") || str_equal(region, "JP")
        || str_equal(region, "ASIA") || str_equal(region, "INT");
    proof {
        if b {
            if region@ == "US"@ {
                assert(store_region(0) == region@);
            } else if region@ == "EU"@ {
                assert(store_region(1) == region@);
            } else if region@ == "JP"@ {
                assert(store_region(2) == region@);
            } else if region@ == "ASIA"@ {
                assert(store_region(3) == region@);
            } else {
                assert(store_region(4) == region@);
            }
        } else {
            assert forall|i: int| 0 <= i < STORE_REGION_COUNT implies #[trigger] store_region(i) != region@ by {
                if i == 0 {} else if i == 1 {} else if i == 2 {} else if i == 3 {} else {}
            }
        }
    }
    b
}

/// Persistent ordering for installed-library tabs.
#[derive(Debug, Clone, Copy, PartialEq, Eq, Structural)]
pub enum LibrarySort {
    Name,
    MostPlayed,
    RecentlyPlayed,
    System,
}

/// How the installed library is laid out.
#[derive(Debug, Clone, Copy, PartialEq, Eq, Structural)]
pub enum LibraryView {
    CoverFlow,
    List,
}

pub open spec fn sort_next(s: LibrarySort) -> LibrarySort {
    match s {
        LibrarySort::Name => LibrarySort::MostPlayed,
        LibrarySort::MostPlayed => LibrarySort::RecentlyPlayed,
        LibrarySort::RecentlyPlayed => LibrarySort::System,
        LibrarySort::System => LibrarySort::Name,
    }
}

pub open spec fn sort_key(s: LibrarySort) -> Seq<char> {
    match s {
        LibrarySort::Name => "sort-name"@,
        LibrarySort::MostPlayed => "sort-most-played"@,
        LibrarySort::RecentlyPlayed => "sort-recent"@,
        LibrarySort::System => "sort-system"@,
    }
}

pub open spec fn view_next(v: LibraryView) -> LibraryView {
    match v {
        LibraryView::CoverFlow => LibraryView::List,
        LibraryView::List => LibraryView::CoverFlow,
    }
}

pub open spec fn view_key(v: LibraryView) -> Seq<char> {
    match v {
        LibraryView::CoverFlow => "view-coverflow"@,
        LibraryView::List => "view-list"@,
    }
}

impl Default for LibrarySort {
    fn default() -> (s: Self)
        ensures
            s == LibrarySort::Name,
    {
        LibrarySort::Name
    }
}

impl Default for LibraryView {
    fn default() -> (v: Self)
        ensures
            v == LibraryView::CoverFlow,
    {
        LibraryView::CoverFlow
    }
}

impl LibraryView {
    /// The other layout.
    pub fn next(self) -> (r: Self)
        ensures
            r == view_next(self),
    {
        match self {
            LibraryView::CoverFlow => LibraryView::List,
            LibraryView::List => LibraryView::CoverFlow,
        }
    }

    /// The message key naming this layout.
    pub fn message_key(self) -> (k: &'static str)
        ensures
            k@ == view_key(self),
    {
        match self {
            LibraryView::CoverFlow => "view-coverflow",
            LibraryView::List => "view-list",
        }
    }
}

impl LibrarySort {
    /// The ordering after this one in the settings cycle.
    pub fn next(self) -> (r: Self)
        ensures
            r == sort_next(self),
    {
        match self {
            LibrarySort::Name => LibrarySort::MostPlayed,
            LibrarySort::MostPlayed => LibrarySort::RecentlyPlayed,
            LibrarySort::RecentlyPlayed => LibrarySort::System,
            LibrarySort::System => LibrarySort::Name,
        }
    }

    /// The message key naming this ordering.
    pub fn message_key(self) -> (k: &'static str)
        ensures
            k@ == sort_key(self),
    {
        match self {
            LibrarySort::Name => "sort-name",
            LibrarySort::MostPlayed => "sort-most-played",
            LibrarySort::RecentlyPlayed => "sort-recent",
            LibrarySort::System => "sort-system",
        }
    }
}

/// The user's settings.
pub struct Config {
    pub download_bgm: bool,
    pub cache_budget_mb: u32,
    pub client_id: String,
    pub locale: Locale,
    pub disabled_scan_dirs: Vec<String>,
    pub tab_order: Vec<String>,
    pub store_regions: Vec<String>,
    pub library_sort: LibrarySort,
    pub library_view: LibraryView,
    pub custom_scan_dirs: Vec<String>,
    pub hidden_title_ids: Vec<String>,
    /// Display-name overrides, as (upper-case title id, title) pairs with
    /// distinct ids.
    pub title_overrides: Vec<(String, String)>,
}

/// One group of settings, for stating what a change leaves alone.
pub enum Setting {
    DownloadBgm,
    CacheBudget,
    ClientId,
    Locale,
    DisabledScanDirs,
    TabOrder,
    StoreRegions,
    LibrarySort,
    LibraryView,
    CustomScanDirs,
    HiddenTitles,
    TitleOverrides,
}

/// `a` and `b` agree on every setting but `s`.
pub open spec fn same_except(a: Config, b: Config, s: Setting) -> bool {
    &&& (!(s is DownloadBgm) ==> a.download_bgm == b.download_bgm)
    &&& (!(s is CacheBudget) ==> a.cache_budget_mb == b.cache_budget_mb)
    &&& (!(s is ClientId) ==> a.client_id == b.client_id)
    &&& (!(s is Locale) ==> a.locale == b.locale)
    &&& (!(s is DisabledScanDirs) ==> a.disabled_scan_dirs == b.disabled_scan_dirs)
    &&& (!(s is TabOrder) ==> a.tab_order == b.tab_order)
    &&& (!(s is StoreRegions) ==> a.store_regions == b.store_regions)
    &&& (!(s is LibrarySort) ==> a.library_sort == b.library_sort)
    &&& (!(s is LibraryView) ==> a.library_view == b.library_view)
    &&& (!(s is CustomScanDirs) ==> a.custom_scan_dirs == b.custom_scan_dirs)
    &&& (!(s is HiddenTitles) ==> a.hidden_title_ids == b.hidden_title_ids)
    &&& (!(s is TitleOverrides) ==> a.title_overrides == b.title_overrides)
}

/// The ids of the override pairs.
pub open spec fn override_ids(v: Seq<(String, String)>) -> Seq<Seq<char>> {
    v.map_values(|p: (String, String)| p.0@)
}

/// No id occurs twice among the overrides.
pub open spec fn overrides_distinct(v: Seq<(String, String)>) -> bool {
    forall|i: int, j: int| 0 <= i < j < v.len() ==> (#[trigger] v[i]).0@ != (#[trigger] v[j]).0@
}

/// The override title stored for `id`, if any.
pub open spec fn override_lookup(v: Seq<(String, String)>, id: Seq<char>) -> Option<Seq<char>> {
    if exists|i: int| 0 <= i < v.len() && (#[trigger] v[i]).0@ == id {
        let i = choose|i: int| 0 <= i < v.len() && (#[trigger] v[i]).0@ == id;
        Some(v[i].1@)
    } else {
        None
    }
}

/// The key under which a title id is stored: trimmed and ASCII upper-cased.
pub open spec fn title_key(id: Seq<char>) -> Seq<char> {
    upper_seq(trim_seq(id))
}

/// The text a scan directory is stored as: trimmed, with back slashes turned
/// into forward slashes.
pub open spec fn scan_dir_key(path: Seq<char>) -> Seq<char> {
    replace_char_seq(trim_seq(path), '\\', '/')
}

pub open spec fn budget_label_text(mb: u32) -> Seq<char> {
    if mb == 50 {
        "50 MB"@
    } else if mb == 100 {
        "100 MB"@
    } else if mb == 150 {
        "150 MB"@
    } else if mb == 300 {
        "300 MB"@
    } else if mb == 0 {
        "budget-unlimited"@
    } else {
        "budget-custom"@
    }
}

proof fn lemma_lookup_at(v: Seq<(String, String)>, id: Seq<char>, i: int)
    requires
        overrides_distinct(v),
        0 <= i < v.len(),
        v[i].0@ == id,
    ensures
        override_lookup(v, id) == Some(v[i].1@),
{
    let k = choose|k: int| 0 <= k < v.len() && (#[trigger] v[k]).0@ == id;
    if k != i {
        if k < i {
            assert(v[k].0@ != v[i].0@);
        } else {
            assert(v[i].0@ != v[k].0@);
        }
    }
}

/// Position of the override pair whose id is `key`.
fn find_override(v: &Vec<(String, String)>, key: &str) -> (r: Option<usize>)
    ensures
        match r {
            Some(i) => i < v@.len() && v@[i as int].0@ == key@,
            None => forall|j: int| 0 <= j < v@.len() ==> (#[trigger] v@[j]).0@ != key@,
        },
{
    let mut i: usize = 0;
    while i < v.len()
        invariant
            i <= v@.len(),
            forall|j: int| 0 <= j < i ==> (#[trigger] v@[j]).0@ != key@,
        decreases v@.len() - i,
    {
        if str_equal(v[i].0.as_str(), key) {
            return Some(i);
        }
        i = i + 1;
    }
    None
}

impl Default for Config {
    fn default() -> (c: Self)
        ensures
            c.download_bgm,
            c.cache_budget_mb == 150,
            c.client_id@ == Seq::<char>::empty(),
            c.locale == Locale::EnUs,
            c.disabled_scan_dirs@ == Seq::<String>::empty(),
            c.tab_order@ == Seq::<String>::empty(),
            c.store_regions@ == Seq::<String>::empty(),
            c.library_sort == LibrarySort::Name,
            c.library_view == LibraryView::CoverFlow,
            c.custom_scan_dirs@ == Seq::<String>::empty(),
            c.hidden_title_ids@ == Seq::<String>::empty(),
            c.title_overrides@ == Seq::<(String, String)>::empty(),
            c.wf(),
    {
        Config {
            download_bgm: true,
            cache_budget_mb: 150,
            client_id: String::new(),
            locale: Locale::EnUs,
            disabled_scan_dirs: Vec::new(),
            tab_order: Vec::new(),
            store_regions: Vec::new(),
            library_sort: LibrarySort::Name,
            library_view: LibraryView::CoverFlow,
            custom_scan_dirs: Vec::new(),
            hidden_title_ids: Vec::new(),
            title_overrides: Vec::new(),
        }
    }
}

impl Config {
    /// Well-formed: title overrides are keyed by distinct ids.
    pub open spec fn wf(&self) -> bool {
        overrides_distinct(self.title_overrides@)
    }

    /// Message key or text naming the cache budget.
    pub fn budget_label(&self) -> (s: &'static str)
        ensures
            s@ == budget_label_text(self.cache_budget_mb),
    {
        match self.cache_budget_mb {
            50 => "50 MB",
            100 => "100 MB",
            150 => "150 MB",
            300 => "300 MB",
            0 => "budget-unlimited",
            _ => "budget-custom",
        }
    }

    /// Enables a scan directory that was disabled, or disables it.
    pub fn toggle_scan_dir(&mut self, path: &str)
        ensures
            same_except(*final(self), *old(self), Setting::DisabledScanDirs),
            views(old(self).disabled_scan_dirs@).contains(path@) ==> exists|i: int|
                first_index_of(views(old(self).disabled_scan_dirs@), path@, i)
                    && views(final(self).disabled_scan_dirs@) == views(old(self).disabled_scan_dirs@).remove(i),
            !views(old(self).disabled_scan_dirs@).contains(path@) ==> views(final(self).disabled_scan_dirs@)
                == views(old(self).disabled_scan_dirs@).push(path@),
    {
        match position_of(&self.disabled_scan_dirs, path) {
            Some(idx) => {
                let ghost before = self.disabled_scan_dirs@;
                self.disabled_scan_dirs.remove(idx);
                proof {
                    lemma_views_remove(before, idx as int);
                }
            },
            None => {
                let ghost before = self.disabled_scan_dirs@;
                let p = path.to_owned();
                self.disabled_scan_dirs.push(p);
                proof {
                    lemma_views_push(before, p);
                }
            },
        }
    }

    /// Adds a custom scan directory unless it is blank or already listed
    /// (ignoring ASCII case); the list stays sorted. Returns whether it was added.
    pub fn add_custom_scan_dir(&mut self, path: &str) -> (added: bool)
        ensures
            same_except(*final(self), *old(self), Setting::CustomScanDirs),
            added == (scan_dir_key(path@).len() > 0
                && !contains_ignore_case(views(old(self).custom_scan_dirs@), scan_dir_key(path@))),
            added ==> sorted_seqs(views(final(self).custom_scan_dirs@)),
            added ==> views(final(self).custom_scan_dirs@).to_multiset()
                == views(old(self).custom_scan_dirs@).to_multiset().insert(scan_dir_key(path@)),
            !added ==> final(self).custom_scan_dirs == old(self).custom_scan_dirs,
    {
        let trimmed = trim(path);
        let p = replace_char(trimmed.as_str(), '\\', '/');
        if p.as_str().is_empty() {
            return false;
        }
        if position_ignore_case(&self.custom_scan_dirs, p.as_str()).is_some() {
            return false;
        }
        let ghost before = self.custom_scan_dirs@;
        let ghost pv = p@;
        self.custom_scan_dirs.push(p);
        proof {
            lemma_views_push(before, p);
            vstd::seq_lib::to_multiset_build(views(before), pv);
        }
        sort_strings(&mut self.custom_scan_dirs);
        true
    }

    /// Removes the custom scan directory at `index`; false when there is none.
    pub fn remove_custom_scan_dir(&mut self, index: usize) -> (removed: bool)
        ensures
            same_except(*final(self), *old(self), Setting::CustomScanDirs),
            removed == (index < old(self).custom_scan_dirs@.len()),
            removed ==> final(self).custom_scan_dirs@ == old(self).custom_scan_dirs@.remove(index as int),
            !removed ==> final(self).custom_scan_dirs == old(self).custom_scan_dirs,
    {
        if index >= self.custom_scan_dirs.len() {
            return false;
        }
        self.custom_scan_dirs.remove(index);
        true
    }

    /// Moves the cache budget to the next choice (an unknown value counts as
    /// the default choice).
    pub fn next_budget_option(&mut self)
        ensures
            same_except(*final(self), *old(self), Setting::CacheBudget),
            final(self).cache_budget_mb == budget_option((budget_index(old(self).cache_budget_mb) + 1) % 5),
    {
        let current = self.cache_budget_mb;
        let idx: usize = if current == 50 {
            0
        } else if current == 100 {
            1
        } else if current == 150 {
            2
        } else if current == 300 {
            3
        } else if current == 0 {
            4
        } else {
            2
        };
        let next_idx = (idx + 1) % BUDGET_OPTION_COUNT;
        self.cache_budget_mb = budget_option_at(next_idx);
    }

    /// Whether the store filter includes `region` (exact match).
    pub fn store_region_selected(&self, region: &str) -> (b: bool)
        ensures
            b == views(self.store_regions@).contains(region@),
    {
        position_of(&self.store_regions, region).is_some()
    }

    /// Adds `region` to the store filter or takes it out; the list stays
    /// sorted. Unknown region codes are ignored. Returns whether the filter changed.
    pub fn toggle_store_region(&mut self, region: &str) -> (changed: bool)
        ensures
            same_except(*final(self), *old(self), Setting::StoreRegions),
            changed == is_store_region(region@),
            !changed ==> final(self).store_regions == old(self).store_regions,
            changed && views(old(self).store_regions@).contains(region@) ==> exists|i: int|
                first_index_of(views(old(self).store_regions@), region@, i)
                    && views(final(self).store_regions@) == views(old(self).store_regions@).remove(i),
            changed && !views(old(self).store_regions@).contains(region@) ==> {
                &&& sorted_seqs(views(final(self).store_regions@))
                &&& views(final(self).store_regions@).to_multiset()
                    == views(old(self).store_regions@).to_multiset().insert(region@)
            },
    {
        if !is_known_store_region(region) {
            return false;
        }
        match position_of(&self.store_regions, region) {
            Some(index) => {
                let ghost before = self.store_regions@;
                self.store_regions.remove(index);
                proof {
                    lemma_views_remove(before, index as int);
                }
            },
            None => {
                let ghost before = self.store_regions@;
                let r = region.to_owned();
                self.store_regions.push(r);
                proof {
                    lemma_views_push(before, r);
                    vstd::seq_lib::to_multiset_build(views(before), region@);
                }
                sort_strings(&mut self.store_regions);
            },
        }
        true
    }

    /// Empties the store filter; returns whether there was anything to clear.
    pub fn clear_store_regions(&mut self) -> (changed: bool)
        ensures
            same_except(*final(self), *old(self), Setting::StoreRegions),
            changed == (old(self).store_regions@.len() > 0),
            final(self).store_regions@ == Seq::<String>::empty(),
    {
        if self.store_regions.len() > 0 {
            self.store_regions.clear();
            true
        } else {
            false
        }
    }

    /// Steps the library ordering to the next one.
    pub fn cycle_library_sort(&mut self)
        ensures
            same_except(*final(self), *old(self), Setting::LibrarySort),
            final(self).library_sort == sort_next(old(self).library_sort),
    {
        self.library_sort = self.library_sort.next();
    }

    /// Steps the library layout to the other one.
    pub fn cycle_library_view(&mut self)
        ensures
            same_except(*final(self), *old(self), Setting::LibraryView),
            final(self).library_view == view_next(old(self).library_view),
    {
        self.library_view = self.library_view.next();
    }

    /// The display-name override stored for a title id (trimmed, any ASCII case).
    pub fn title_override(&self, title_id: &str) -> (r: Option<&str>)
        requires
            self.wf(),
        ensures
            match r {
                Some(t) => override_lookup(self.title_overrides@, title_key(title_id@)) == Some(t@),
                None => override_lookup(self.title_overrides@, title_key(title_id@)) is None,
            },
    {
        let trimmed = trim(title_id);
        let key = to_ascii_uppercase(trimmed.as_str());
        match find_override(&self.title_overrides, key.as_str()) {
            Some(i) => {
                proof {
                    lemma_lookup_at(self.title_overrides@, key@, i as int);
                }
                Some(self.title_overrides[i].1.as_str())
            },
            None => None,
        }
    }

    /// Sets the display name shown for a title; a blank name removes the override.
    pub fn set_title_override(&mut self, title_id: &str, title: &str)
        requires
            old(self).wf(),
        ensures
            final(self).wf(),
            same_except(*final(self), *old(self), Setting::TitleOverrides),
            forall|k: Seq<char>| #[trigger] override_lookup(final(self).title_overrides@, k) == if k
                == title_key(title_id@) {
                if trim_seq(title@).len() == 0 {
                    None
                } else {
                    Some(trim_seq(title@))
                }
            } else {
                override_lookup(old(self).title_overrides@, k)
            },
    {
        let trimmed = trim(title_id);
        let key = to_ascii_uppercase(trimmed.as_str());
        let value = trim(title);
        let ghost old_v = self.title_overrides@;
        let found = find_override(&self.title_overrides, key.as_str());
        if value.as_str().is_empty() {
            match found {
                Some(idx) => {
                    self.title_overrides.remove(idx);
                    proof {
                        let nv = self.title_overrides@;
                        assert(nv =~= old_v.remove(idx as int));
                        assert forall|k: Seq<char>| #[trigger] override_lookup(nv, k) == if k == key@ {
                            None::<Seq<char>>
                        } else {
                            override_lookup(old_v, k)
                        } by {
                            if k == key@ {
                                if exists|m: int| 0 <= m < nv.len() && (#[trigger] nv[m]).0@ == k {
                                    let m = choose|m: int| 0 <= m < nv.len() && (#[trigger] nv[m]).0@ == k;
                                    if m < idx {
                                        assert(old_v[m].0@ != old_v[idx as int].0@);
                                    } else {
                                        assert(old_v[idx as int].0@ != old_v[m + 1].0@);
                                    }
                                }
                            } else {
                                if exists|m: int| 0 <= m < old_v.len() && (#[trigger] old_v[m]).0@ == k {
                                    let m = choose|m: int| 0 <= m < old_v.len() && (#[trigger] old_v[m]).0@ == k;
                                    assert(m != idx);
                                    if m < idx {
                                        assert(nv[m] == old_v[m]);
                                        lemma_lookup_at(nv, k, m);
                                    } else {
                                        assert(nv[m - 1] == old_v[m]);
                                        lemma_lookup_at(nv, k, m - 1);
                                    }
                                    lemma_lookup_at(old_v, k, m);
                                } else {
                                    if exists|m: int| 0 <= m < nv.len() && (#[trigger] nv[m]).0@ == k {
                                        let m = choose|m: int| 0 <= m < nv.len() && (#[trigger] nv[m]).0@ == k;
                                        if m < idx {
                                            assert(old_v[m] == nv[m]);
                                        } else {
                                            assert(old_v[m + 1] == nv[m]);
                                        }
                                    }
                                }
                            }
                        }
                    }
                },
                None => {},
            }
        } else {
            match found {
                Some(idx) => {
                    let ghost kv = key@;
                    self.title_overrides.set(idx, (key, value));
                    proof {
                        let nv = self.title_overrides@;
                        assert forall|a: int, b: int| 0 <= a < b < nv.len() implies (#[trigger] nv[a]).0@ != (#[trigger] nv[b]).0@ by {
                            assert(old_v[a].0@ != old_v[b].0@);
                        }
                        assert forall|k: Seq<char>| #[trigger] override_lookup(nv, k) == if k == kv {
                            Some(trim_seq(title@))
                        } else {
                            override_lookup(old_v, k)
                        } by {
                            if k == kv {
                                lemma_lookup_at(nv, k, idx as int);
                            } else {
                                if exists|m: int| 0 <= m < old_v.len() && (#[trigger] old_v[m]).0@ == k {
                                    let m = choose|m: int| 0 <= m < old_v.len() && (#[trigger] old_v[m]).0@ == k;
                                    lemma_lookup_at(nv, k, m);
                                    lemma_lookup_at(old_v, k, m);
                                } else {
                                    if exists|m: int| 0 <= m < nv.len() && (#[trigger] nv[m]).0@ == k {
                                        let m = choose|m: int| 0 <= m < nv.len() && (#[trigger] nv[m]).0@ == k;
                                        assert(old_v[m].0@ == k);
                                    }
                                }
                            }
                        }
                    }
                },
                None => {
                    let ghost kv = key@;
                    self.title_overrides.push((key, value));
                    proof {
                        let nv = self.title_overrides@;
                        assert(nv =~= old_v.push(nv[old_v.len() as int]));
                        assert forall|k: Seq<char>| #[trigger] override_lookup(nv, k) == if k == kv {
                            Some(trim_seq(title@))
                        } else {
                            override_lookup(old_v, k)
                        } by {
                            if k == kv {
                                lemma_lookup_at(nv, k, old_v.len() as int);
                            } else {
                                if exists|m: int| 0 <= m < old_v.len() && (#[trigger] old_v[m]).0@ == k {
                                    let m = choose|m: int| 0 <= m < old_v.len() && (#[trigger] old_v[m]).0@ == k;
                                    assert(nv[m] == old_v[m]);
                                    lemma_lookup_at(nv, k, m);
                                    lemma_lookup_at(old_v, k, m);
                                } else {
                                    if exists|m: int| 0 <= m < nv.len() && (#[trigger] nv[m]).0@ == k {
                                        let m = choose|m: int| 0 <= m < nv.len() && (#[trigger] nv[m]).0@ == k;
                                        assert(m < old_v.len());
                                        assert(old_v[m] == nv[m]);
                                    }
                                }
                            }
                        }
                    }
                },
            }
        }
    }

    /// Whether a title id (trimmed) is hidden, ignoring ASCII case.
    pub fn title_is_hidden(&self, title_id: &str) -> (b: bool)
        ensures
            b == contains_ignore_case(views(self.hidden_title_ids@), trim_seq(title_id@)),
    {
        let key = trim(title_id);
        position_ignore_case(&self.hidden_title_ids, key.as_str()).is_some()
    }

    /// Hides a title or shows it again. The id is stored trimmed and
    /// upper-cased, and the list stays sorted.
    pub fn toggle_hidden_title(&mut self, title_id: &str)
        ensures
            same_except(*final(self), *old(self), Setting::HiddenTitles),
            contains_ignore_case(views(old(self).hidden_title_ids@), title_key(title_id@)) ==> exists|i: int|
                first_index_ignore_case(views(old(self).hidden_title_ids@), title_key(title_id@), i)
                    && views(final(self).hidden_title_ids@) == views(old(self).hidden_title_ids@).remove(i),
            !contains_ignore_case(views(old(self).hidden_title_ids@), title_key(title_id@)) ==> {
                &&& sorted_seqs(views(final(self).hidden_title_ids@))
                &&& views(final(self).hidden_title_ids@).to_multiset()
                    == views(old(self).hidden_title_ids@).to_multiset().insert(title_key(title_id@))
            },
    {
        let trimmed = trim(title_id);
        let key = to_ascii_uppercase(trimmed.as_str());
        match position_ignore_case(&self.hidden_title_ids, key.as_str()) {
            Some(index) => {
                let ghost before = self.hidden_title_ids@;
                self.hidden_title_ids.remove(index);
                proof {
                    lemma_views_remove(before, index as int);
                }
            },
            None => {
                let ghost before = self.hidden_title_ids@;
                let ghost kv = key@;
                self.hidden_title_ids.push(key);
                proof {
                    lemma_views_push(before, key);
                    vstd::seq_lib::to_multiset_build(views(before), kv);
                }
                sort_strings(&mut self.hidden_title_ids);
            },
        }
    }

    /// Settles a configuration just read from storage: a missing client id is
    /// replaced by `fresh_client_id`, and the store filter starts out empty
    /// (a region is a temporary view, not a preference). Returns whether
    /// anything changed, so that the caller knows to write it back.
    pub fn normalize_loaded(&mut self, fresh_client_id: String) -> (changed: bool)
        ensures
            changed == (old(self).client_id@.len() == 0 || old(self).store_regions@.len() > 0),
            final(self).client_id@ == if old(self).client_id@.len() == 0 {
                fresh_client_id@
            } else {
                old(self).client_id@
            },
            final(self).store_regions@ == Seq::<String>::empty(),
            final(self).download_bgm == old(self).download_bgm,
            final(self).cache_budget_mb == old(self).cache_budget_mb,
            final(self).locale == old(self).locale,
            final(self).disabled_scan_dirs == old(self).disabled_scan_dirs,
            final(self).tab_order == old(self).tab_order,
            final(self).library_sort == old(self).library_sort,
            final(self).library_view == old(self).library_view,
            final(self).custom_scan_dirs == old(self).custom_scan_dirs,
            final(self).hidden_title_ids == old(self).hidden_title_ids,
            final(self).title_overrides == old(self).title_overrides,
    {
        let mut changed = false;
        if self.client_id.as_str().is_empty() {
            self.client_id = fresh_client_id;
            changed = true;
        }
        if self.store_regions.len() > 0 {
            self.store_regions.clear();
            changed = true;
        }
        changed
    }
}

/// ASCII lower-casing after upper-casing is plain lower-casing.
pub proof fn lemma_lower_upper(x: Seq<char>)
    ensures
        lower_seq(upper_seq(x)) == lower_seq(x),
{
    assert forall|k: int| 0 <= k < x.len() implies lower_seq(upper_seq(x))[k] == lower_seq(x)[k] by {
        let c = x[k];
        if 'a' <= c && c <= 'z' {
            assert(ascii_lower(ascii_upper(c)) == c);
        }
    }
    assert(lower_seq(upper_seq(x)) =~= lower_seq(x));
}

/// Toggling a directory that is not disabled, and then toggling it again,
/// gives back the list it started from.
pub proof fn law_toggle_scan_dir_twice(a: Seq<Seq<char>>, b: Seq<Seq<char>>, c: Seq<Seq<char>>, p: Seq<char>, i: int)
    requires
        !a.contains(p),
        b == a.push(p),
        first_index_of(b, p, i),
        c == b.remove(i),
    ensures
        c == a,
{
    if i < a.len() {
        assert(b[i] == a[i]);
    }
    assert(i == a.len());
    assert(c =~= a);
}

/// When a directory is listed at most once, toggling it flips whether it is
/// disabled.
pub proof fn law_toggle_scan_dir_flips(a: Seq<Seq<char>>, b: Seq<Seq<char>>, p: Seq<char>)
    requires
        a.to_multiset().count(p) <= 1,
        a.contains(p) ==> exists|i: int| first_index_of(a, p, i) && b == a.remove(i),
        !a.contains(p) ==> b == a.push(p),
    ensures
        b.contains(p) == !a.contains(p),
{
    broadcast use vstd::multiset::group_multiset_axioms;
    if a.contains(p) {
        let i = choose|i: int| first_index_of(a, p, i) && b == a.remove(i);
        vstd::seq_lib::to_multiset_remove(a, i);
        vstd::seq_lib::to_multiset_contains(a, p);
        vstd::seq_lib::to_multiset_contains(b, p);
    } else {
        assert(b[a.len() as int] == p);
    }
}

/// When at most one hidden id matches a title case-insensitively, toggling
/// the title flips whether it is hidden.
pub proof fn law_toggle_hidden_flips(a: Seq<Seq<char>>, b: Seq<Seq<char>>, id: Seq<char>)
    requires
        forall|i: int, j: int| 0 <= i < j < a.len() && lower_seq(#[trigger] a[i]) == lower_seq(trim_seq(id))
            ==> lower_seq(#[trigger] a[j]) != lower_seq(trim_seq(id)),
        contains_ignore_case(a, title_key(id)) ==> exists|i: int|
            first_index_ignore_case(a, title_key(id), i) && b == a.remove(i),
        !contains_ignore_case(a, title_key(id)) ==> b.to_multiset() == a.to_multiset().insert(title_key(id)),
    ensures
        contains_ignore_case(b, trim_seq(id)) == !contains_ignore_case(a, trim_seq(id)),
{
    lemma_lower_upper(trim_seq(id));
    let key = title_key(id);
    assert(lower_seq(key) == lower_seq(trim_seq(id)));
    if contains_ignore_case(a, key) {
        let i = choose|i: int| first_index_ignore_case(a, key, i) && b == a.remove(i);
        assert(lower_seq(a[i]) == lower_seq(trim_seq(id)));
        if contains_ignore_case(b, trim_seq(id)) {
            let k = choose|k: int| 0 <= k < b.len() && lower_seq(#[trigger] b[k]) == lower_seq(trim_seq(id));
            if k < i {
                assert(b[k] == a[k]);
            } else {
                assert(b[k] == a[k + 1]);
            }
        }
        assert(contains_ignore_case(a, trim_seq(id)));
    } else {
        assert(!contains_ignore_case(a, trim_seq(id))) by {
            if contains_ignore_case(a, trim_seq(id)) {
                let k = choose|k: int| 0 <= k < a.len() && lower_seq(#[trigger] a[k]) == lower_seq(trim_seq(id));
                assert(lower_seq(a[k]) == lower_seq(key));
            }
        }
        assert(b.to_multiset().count(key) > 0) by {
            broadcast use vstd::multiset::group_multiset_axioms;
        }
        vstd::seq_lib::to_multiset_contains(b, key);
        let k = choose|k: int| 0 <= k < b.len() && b[k] == key;
        assert(lower_seq(b[k]) == lower_seq(trim_seq(id)));
    }
}

/// `b` is the hidden list `a` after toggling `id`, as `toggle_hidden_title`
/// states it.
pub open spec fn toggled_hidden(a: Seq<Seq<char>>, b: Seq<Seq<char>>, id: Seq<char>) -> bool {
    &&& contains_ignore_case(a, title_key(id)) ==> exists|i: int|
        first_index_ignore_case(a, title_key(id), i) && b == a.remove(i)
    &&& !contains_ignore_case(a, title_key(id)) ==> sorted_seqs(b) && b.to_multiset() == a.to_multiset().insert(
        title_key(id),
    )
}

/// No two entries of the list match `id` ignoring ASCII case.
pub open spec fn at_most_one_match(a: Seq<Seq<char>>, id: Seq<char>) -> bool {
    forall|i: int, j: int| 0 <= i < j < a.len() && lower_seq(#[trigger] a[i]) == lower_seq(trim_seq(id))
        ==> lower_seq(#[trigger] a[j]) != lower_seq(trim_seq(id))
}

/// Toggling a hidden title leaves every other title as it was (hidden or
/// shown), and a sorted list stays sorted.
pub proof fn law_toggle_hidden_others(a: Seq<Seq<char>>, b: Seq<Seq<char>>, id: Seq<char>, other: Seq<char>)
    requires
        toggled_hidden(a, b, id),
        lower_seq(trim_seq(other)) != lower_seq(trim_seq(id)),
    ensures
        contains_ignore_case(b, trim_seq(other)) == contains_ignore_case(a, trim_seq(other)),
        sorted_seqs(a) ==> sorted_seqs(b),
{
    lemma_lower_upper(trim_seq(id));
    let key = title_key(id);
    let o = trim_seq(other);
    if contains_ignore_case(a, key) {
        let i = choose|i: int| first_index_ignore_case(a, key, i) && b == a.remove(i);
        if contains_ignore_case(b, o) {
            let k = choose|k: int| 0 <= k < b.len() && lower_seq(#[trigger] b[k]) == lower_seq(o);
            if k < i {
                assert(b[k] == a[k]);
            } else {
                assert(b[k] == a[k + 1]);
            }
        }
        if contains_ignore_case(a, o) {
            let k = choose|k: int| 0 <= k < a.len() && lower_seq(#[trigger] a[k]) == lower_seq(o);
            assert(k != i);
            if k < i {
                assert(b[k] == a[k]);
            } else {
                assert(b[k - 1] == a[k]);
            }
        }
        if sorted_seqs(a) {
            assert forall|x: int, y: int| 0 <= x < y < b.len() implies !crate::text::seq_lt(#[trigger] b[y], #[trigger] b[x]) by {
                let xa = if x < i { x } else { x + 1 };
                let ya = if y < i { y } else { y + 1 };
                assert(b[x] == a[xa]);
                assert(b[y] == a[ya]);
            }
        }
    } else {
        broadcast use vstd::multiset::group_multiset_axioms;
        if contains_ignore_case(b, o) {
            let k = choose|k: int| 0 <= k < b.len() && lower_seq(#[trigger] b[k]) == lower_seq(o);
            assert(b[k] != key);
            vstd::seq_lib::to_multiset_contains(b, b[k]);
            assert(a.to_multiset().count(b[k]) > 0);
            vstd::seq_lib::to_multiset_contains(a, b[k]);
            let m = choose|m: int| 0 <= m < a.len() && a[m] == b[k];
            assert(lower_seq(a[m]) == lower_seq(o));
        }
        if contains_ignore_case(a, o) {
            let k = choose|k: int| 0 <= k < a.len() && lower_seq(#[trigger] a[k]) == lower_seq(o);
            vstd::seq_lib::to_multiset_contains(a, a[k]);
            assert(b.to_multiset().count(a[k]) > 0);
            vstd::seq_lib::to_multiset_contains(b, a[k]);
            let m = choose|m: int| 0 <= m < b.len() && b[m] == a[k];
            assert(lower_seq(b[m]) == lower_seq(o));
        }
    }
}

/// Toggling the same title twice leaves it hidden or shown as before, when
/// the list held it at most once.
pub proof fn law_toggle_hidden_twice(a: Seq<Seq<char>>, b: Seq<Seq<char>>, c: Seq<Seq<char>>, id: Seq<char>)
    requires
        at_most_one_match(a, id),
        toggled_hidden(a, b, id),
        toggled_hidden(b, c, id),
    ensures
        contains_ignore_case(c, trim_seq(id)) == contains_ignore_case(a, trim_seq(id)),
{
    lemma_lower_upper(trim_seq(id));
    let key = title_key(id);
    let t = trim_seq(id);
    assert(lower_seq(key) == lower_seq(t));
    assert(at_most_one_match(b, id)) by {
        if contains_ignore_case(a, key) {
            let i = choose|i: int| first_index_ignore_case(a, key, i) && b == a.remove(i);
            assert forall|x: int, y: int| 0 <= x < y < b.len() && lower_seq(#[trigger] b[x]) == lower_seq(t)
                implies lower_seq(#[trigger] b[y]) != lower_seq(t) by {
                let xa = if x < i { x } else { x + 1 };
                let ya = if y < i { y } else { y + 1 };
                assert(b[x] == a[xa]);
                assert(b[y] == a[ya]);
                if xa < i {
                    assert(lower_seq(a[xa]) != lower_seq(key));
                } else {
                    assert(lower_seq(a[i]) == lower_seq(t));
                }
            }
        } else {
            broadcast use vstd::multiset::group_multiset_axioms;
            assert forall|x: int, y: int| 0 <= x < y < b.len() && lower_seq(#[trigger] b[x]) == lower_seq(t)
                implies lower_seq(#[trigger] b[y]) != lower_seq(t) by {
                if lower_seq(b[y]) == lower_seq(t) {
                    // Every entry of b other than the inserted key comes from a,
                    // where nothing matches; so both are the key itself.
                    assert forall|z: int| 0 <= z < b.len() && lower_seq(b[z]) == lower_seq(t) implies b[z] == key by {
                        if b[z] != key {
                            vstd::seq_lib::to_multiset_contains(b, b[z]);
                            assert(a.to_multiset().count(b[z]) > 0);
                            vstd::seq_lib::to_multiset_contains(a, b[z]);
                            let m = choose|m: int| 0 <= m < a.len() && a[m] == b[z];
                            assert(lower_seq(a[m]) == lower_seq(key));
                        }
                    }
                    assert(b[x] == key && b[y] == key);
                    assert(b.to_multiset().count(key) == a.to_multiset().count(key) + 1);
                    assert(a.to_multiset().count(key) == 0) by {
                        if a.to_multiset().count(key) > 0 {
                            vstd::seq_lib::to_multiset_contains(a, key);
                            let m = choose|m: int| 0 <= m < a.len() && a[m] == key;
                            assert(lower_seq(a[m]) == lower_seq(key));
                        }
                    }
                    lemma_count_two(b, x, y, key);
                }
            }
        }
    }
    law_toggle_hidden_flips(a, b, id);
    law_toggle_hidden_flips(b, c, id);
}

proof fn lemma_count_two(s: Seq<Seq<char>>, x: int, y: int, v: Seq<char>)
    requires
        0 <= x < y < s.len(),
        s[x] == v,
        s[y] == v,
    ensures
        s.to_multiset().count(v) >= 2,
    decreases s.len(),
{
    broadcast use vstd::multiset::group_multiset_axioms;
    let init = s.drop_last();
    vstd::seq_lib::to_multiset_build(init, s.last());
    assert(s =~= init.push(s.last()));
    if y == s.len() - 1 {
        assert(init[x] == v);
        vstd::seq_lib::to_multiset_contains(init, v);
    } else {
        lemma_count_two(init, x, y, v);
    }
}

} // verus!
