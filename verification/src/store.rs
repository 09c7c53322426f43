use vstd::prelude::*;

use crate::scanner::{Game, System};
use crate::text::{
    chars_of, concat, contains_seq, find_chars, find_from, lower_seq, push_str, seq_lt,
    lemma_seq_lt_asymmetric, lemma_seq_lt_total, lemma_seq_lt_transitive, str_lt, to_lowercase,
    to_uppercase, unicode_lower, unicode_upper, insert_sorted, strictly_sorted, position_of, str_contains, str_equal,
    string_of, starts_with, to_ascii_uppercase, trim, trim_seq, upper_seq, views, has_key, lemma_stable_start,
    lemma_stable_step, text_order, occurs_at, is_ws, trim_start_seq, trim_end_seq,
};

verus! {

/// The origin of the catalogue service; relative artwork paths hang off it.
pub open spec fn origin() -> Seq<char> {
    "https://vitaforge.josephinoo.dev"@
}

/// How many screenshots of a catalogue item are kept.
pub const MAX_SCREENSHOTS_KEPT: usize = 8;

/// One title of the download catalogue, as the service describes it.
#[derive(Debug, Clone)]
pub struct StoreItem {
    pub title_id: Option<String>,
    pub content_id: Option<String>,
    pub name: String,
    pub author: Option<String>,
    pub category: String,
    pub kind: String,
    pub download_url: String,
    pub zrif: Option<String>,
    pub size: Option<String>,
    pub region: Option<String>,
    pub version: Option<String>,
    pub cover_url: Option<String>,
    pub icon_url: Option<String>,
    pub icon_hash: Option<String>,
    pub background_url: Option<String>,
    pub screenshot_urls: Vec<String>,
    pub description: Option<String>,
}

/// The catalogue as the service delivers it.
#[derive(Debug, Clone)]
pub struct SnapshotResponse {
    pub data: Vec<StoreItem>,
}

/// An optional text, trimmed, when that is not blank.
pub open spec fn nonempty_spec(s: Option<Seq<char>>) -> Option<Seq<char>> {
    match s {
        Some(t) => if trim_seq(t).len() > 0 {
            Some(trim_seq(t))
        } else {
            None
        },
        None => None,
    }
}

pub open spec fn opt_view(s: Option<String>) -> Option<Seq<char>> {
    match s {
        Some(t) => Some(t@),
        None => None,
    }
}

fn nonempty(s: &Option<String>) -> (r: Option<String>)
    ensures
        opt_view(r) == nonempty_spec(opt_view(*s)),
{
    match s {
        Some(t) => {
            let trimmed = trim(t.as_str());
            if trimmed.as_str().is_empty() {
                None
            } else {
                Some(trimmed)
            }
        },
        None => None,
    }
}

/// The image shown for a catalogue item: its cover, else its first
/// screenshot, else its icon when that is real; made absolute.
pub open spec fn item_cover_spec(it: StoreItem) -> Option<Seq<char>> {
    match nonempty_spec(opt_view(it.cover_url)) {
        Some(u) => Some(absolute_url_spec(u)),
        None => match first_nonempty(views(it.screenshot_urls@)) {
            Some(u) => Some(absolute_url_spec(u)),
            None => if it.valid_icon() {
                match nonempty_spec(opt_view(it.icon_url)) {
                    Some(u) => Some(absolute_url_spec(u)),
                    None => None,
                }
            } else {
                None
            },
        },
    }
}

/// A catalogue version tag as stored or served: trimmed, when not blank.
pub fn etag_of(raw: &str) -> (r: Option<String>)
    ensures
        opt_view(r) == nonempty_spec(Some(raw@)),
{
    nonempty(&Some(raw.to_owned()))
}

/// Where the catalogue is taken from.
#[derive(Clone, Copy, PartialEq, Eq, Structural, Debug)]
pub enum CatalogSource {
    /// The copy stored on the card.
    Cache,
    /// A fresh download.
    Download,
}

/// The stored catalogue is used when it is not empty and either the served
/// version tag matches the stored one or no tag could be had; otherwise the
/// catalogue is downloaded.
pub open spec fn catalog_source_spec(remote: Option<Seq<char>>, saved: Option<Seq<char>>, cache_nonempty: bool) -> CatalogSource {
    if cache_nonempty && (remote is None || (saved is Some && remote == saved)) {
        CatalogSource::Cache
    } else {
        CatalogSource::Download
    }
}

/// Whether to use the stored catalogue or download it again.
pub fn catalog_source(remote_etag: &Option<String>, saved_etag: &Option<String>, cache_nonempty: bool) -> (r: CatalogSource)
    ensures
        r == catalog_source_spec(opt_view(*remote_etag), opt_view(*saved_etag), cache_nonempty),
{
    if !cache_nonempty {
        return CatalogSource::Download;
    }
    match remote_etag {
        None => CatalogSource::Cache,
        Some(e) => match saved_etag {
            Some(s) => if str_equal(e.as_str(), s.as_str()) {
                CatalogSource::Cache
            } else {
                CatalogSource::Download
            },
            None => CatalogSource::Download,
        },
    }
}

/// Whether a URL already names its scheme.
pub open spec fn has_scheme(u: Seq<char>) -> bool {
    (u.len() >= 7 && u.take(7) == "http://"@) || (u.len() >= 8 && u.take(8) == "https://"@)
}

/// The format an image route should be asked for: PNG for icons, else JPEG.
pub open spec fn image_format_for(url: Seq<char>) -> Seq<char> {
    if contains_seq(url, "/images/icon/"@) {
        "png"@
    } else {
        "jpeg"@
    }
}

/// An image URL of the service with its `format=` parameter set to the
/// format wanted for the route; other URLs unchanged.
pub open spec fn force_format_spec(url: Seq<char>) -> Seq<char> {
    if contains_seq(url, "/scraped_assets/"@) || !contains_seq(url, "/images/"@) {
        url
    } else {
        let wanted = image_format_for(url);
        let start = find_from(url, "format="@, 0);
        if start < 0 {
            url + (if contains_seq(url, "?"@) {
                "&"@
            } else {
                "?"@
            }) + "format="@ + wanted
        } else {
            let vs = start + 7;
            let amp = find_from(url.skip(vs), "&"@, 0);
            let ve = if amp < 0 {
                url.len() as int
            } else {
                vs + amp
            };
            url.take(vs) + wanted + url.skip(ve)
        }
    }
}

/// A catalogue path made absolute (relative paths hang off the service
/// origin) and its image format forced.
pub open spec fn absolute_url_spec(path: Seq<char>) -> Seq<char> {
    force_format_spec(joined_url(path))
}

/// A catalogue path made absolute: trimmed, and hung off the service origin
/// unless it names its scheme.
pub open spec fn joined_url(path: Seq<char>) -> Seq<char> {
    let t = trim_seq(path);
    if has_scheme(t) {
        t
    } else if t.len() > 0 && t[0] == '/' {
        origin() + t
    } else {
        origin() + "/"@ + t
    }
}

fn prefix_is(s: &str, p: &str) -> (b: bool)
    ensures
        b == (p@.len() <= s@.len() && s@.take(p@.len() as int) == p@),
{
    let b = starts_with(s, p);
    proof {
        if p@.len() <= s@.len() {
            assert(s@.take(p@.len() as int) =~= s@.subrange(0, p@.len() as int));
        }
    }
    b
}

fn slice_chars(v: &Vec<char>, from: usize, to: usize) -> (r: String)
    requires
        from <= to <= v@.len(),
    ensures
        r@ == v@.subrange(from as int, to as int),
{
    let mut out: Vec<char> = Vec::new();
    let mut i = from;
    while i < to
        invariant
            from <= i <= to,
            to <= v@.len(),
            out@ == v@.subrange(from as int, i as int),
        decreases to - i,
    {
        out.push(v[i]);
        proof {
            assert(out@ =~= v@.subrange(from as int, i as int + 1));
        }
        i = i + 1;
    }
    string_of(out.as_slice())
}

/// A service image URL with the `format=` parameter the route needs.
pub fn force_format(url: &str) -> (r: String)
    ensures
        r@ == force_format_spec(url@),
{
    if str_contains(url, "/scraped_assets/") || !str_contains(url, "/images/") {
        return url.to_owned();
    }
    let wanted = if str_contains(url, "/images/icon/") {
        "png"
    } else {
        "jpeg"
    };
    let v = chars_of(url);
    let pat = chars_of("format=");
    let vsl = v.as_slice();
    let psl = pat.as_slice();
    let found = find_chars(vsl, psl);
    proof {
        assert(vsl@ == v@);
        assert(psl@ == pat@);
    }
    proof {
        reveal_strlit("format=");
        reveal_strlit("&");
    }
    match found {
        None => {
            let sep = if str_contains(url, "?") {
                "&"
            } else {
                "?"
            };
            let mut r = concat(url, sep);
            push_str(&mut r, "format=");
            push_str(&mut r, wanted);
            r
        },
        Some(start) => {
            proof {
                assert(pat@.len() == 7);
                assert(start + 7 <= v@.len());
                assert(v@.len() == v.len());
            }
            let vs = start + 7;
            let rest_s = slice_chars(&v, vs, v.len());
            let rest = chars_of(rest_s.as_str());
            let amp = chars_of("&");
            let rsl = rest.as_slice();
            let asl = amp.as_slice();
            let found_amp = find_chars(rsl, asl);
            proof {
                assert(rsl@ == rest@);
                assert(asl@ == amp@);
                assert(rest@.len() == v@.len() - vs);
                assert(amp@.len() == 1);
            }
            let ve = match found_amp {
                Some(i) => vs + i,
                None => v.len(),
            };
            proof {
                assert(rest@ =~= url@.skip(vs as int));
            }
            let head = slice_chars(&v, 0, vs);
            let tail = slice_chars(&v, ve, v.len());
            let mut r = head;
            push_str(&mut r, wanted);
            push_str(&mut r, tail.as_str());
            proof {
                assert(v@.subrange(0, vs as int) =~= url@.take(vs as int));
                assert(v@.subrange(ve as int, v@.len() as int) =~= url@.skip(ve as int));
            }
            r
        },
    }
}

/// A catalogue path made absolute on the service origin, its image format forced.
pub fn absolute_url(path: &str) -> (r: String)
    ensures
        r@ == absolute_url_spec(path@),
{
    let t = trim(path);
    proof {
        reveal_strlit("http://");
        reveal_strlit("https://");
        reveal_strlit("/");
    }
    let joined = if prefix_is(t.as_str(), "http://") || prefix_is(t.as_str(), "https://") {
        t
    } else {
        let tv = chars_of(t.as_str());
        if tv.len() > 0 && tv[0] == '/' {
            concat("https://vitaforge.josephinoo.dev", t.as_str())
        } else {
            let mut j = concat("https://vitaforge.josephinoo.dev", "/");
            push_str(&mut j, t.as_str());
            j
        }
    };
    force_format(joined.as_str())
}

/// A title id trimmed and ASCII upper-cased, the form the catalogue index uses.
pub fn normalize_title_id(title_id: &str) -> (r: String)
    ensures
        r@ == upper_seq(trim_seq(title_id@)),
{
    let t = trim(title_id);
    to_ascii_uppercase(t.as_str())
}

pub open spec fn is_ascii_alnum(c: char) -> bool {
    ('a' <= c && c <= 'z') || ('A' <= c && c <= 'Z') || ('0' <= c && c <= '9')
}

/// The stable cover route of a title id: only for ids of nine ASCII letters
/// and digits (after trimming and upper-casing).
pub open spec fn cover_url_spec(title_id: Seq<char>) -> Option<Seq<char>> {
    let id = upper_seq(trim_seq(title_id));
    if id.len() == 9 && forall|i: int| 0 <= i < 9 ==> is_ascii_alnum(#[trigger] id[i]) {
        Some(origin() + "/api/v1/images/cover/"@ + id + "?size=large&format=jpeg"@)
    } else {
        None
    }
}

/// The stable public cover route of a title id, which stays valid across
/// catalogue revisions.
pub fn cover_url_for_title_id(title_id: &str) -> (r: Option<String>)
    ensures
        opt_view(r) == cover_url_spec(title_id@),
{
    let id = normalize_title_id(title_id);
    let v = chars_of(id.as_str());
    if v.len() != 9 {
        return None;
    }
    let mut i: usize = 0;
    while i < 9
        invariant
            v@ == id@,
            id@ == upper_seq(trim_seq(title_id@)),
            v@.len() == 9,
            i <= 9,
            forall|j: int| 0 <= j < i ==> is_ascii_alnum(#[trigger] v@[j]),
        decreases 9 - i,
    {
        let c = v[i];
        if !(('a' <= c && c <= 'z') || ('A' <= c && c <= 'Z') || ('0' <= c && c <= '9')) {
            proof {
                assert(!is_ascii_alnum(v@[i as int]));
            }
            return None;
        }
        i = i + 1;
    }
    let mut r = concat("https://vitaforge.josephinoo.dev", "/api/v1/images/cover/");
    push_str(&mut r, id.as_str());
    push_str(&mut r, "?size=large&format=jpeg");
    Some(r)
}

impl StoreItem {
    /// Whether the item names a real icon (not blank, not the placeholder).
    pub open spec fn valid_icon(&self) -> bool {
        match nonempty_spec(opt_view(self.icon_hash)) {
            Some(h) => h != "default"@,
            None => false,
        }
    }

    /// Whether the item names a real icon (not blank, not the placeholder).
    pub fn has_valid_icon(&self) -> (b: bool)
        ensures
            b == self.valid_icon(),
    {
        match nonempty(&self.icon_hash) {
            Some(h) => !str_equal(h.as_str(), "default"),
            None => false,
        }
    }

    /// The image shown for the item: its cover, else its first screenshot,
    /// else its icon when that is real; made absolute.
    pub fn resolved_cover_url(&self) -> (r: Option<String>)
        ensures
            opt_view(r) == item_cover_spec(*self),
    {
        match nonempty(&self.cover_url) {
            Some(u) => return Some(absolute_url(u.as_str())),
            None => {},
        }
        let mut i: usize = 0;
        proof {
            assert(views(self.screenshot_urls@).skip(0) =~= views(self.screenshot_urls@));
        }
        while i < self.screenshot_urls.len()
            invariant
                nonempty_spec(opt_view(self.cover_url)) is None,
                i <= self.screenshot_urls@.len(),
                first_nonempty(views(self.screenshot_urls@)) == first_nonempty(views(self.screenshot_urls@).skip(i as int)),
            decreases self.screenshot_urls@.len() - i,
        {
            proof {
                assert(views(self.screenshot_urls@).skip(i as int).drop_first() =~= views(self.screenshot_urls@).skip(i as int + 1));
            }
            let t = trim(self.screenshot_urls[i].as_str());
            proof {
                assert(views(self.screenshot_urls@).skip(i as int)[0] == self.screenshot_urls@[i as int]@);
            }
            if !t.as_str().is_empty() {
                return Some(absolute_url(t.as_str()));
            }
            i = i + 1;
        }
        proof {
            assert(views(self.screenshot_urls@).skip(i as int).len() == 0);
        }
        if self.has_valid_icon() {
            match nonempty(&self.icon_url) {
                Some(u) => return Some(absolute_url(u.as_str())),
                None => {},
            }
        }
        None
    }

    /// The item's icon, made absolute, when it is real.
    pub fn resolved_icon_url(&self) -> (r: Option<String>)
        ensures
            opt_view(r) == if self.valid_icon() {
                match nonempty_spec(opt_view(self.icon_url)) {
                    Some(u) => Some(absolute_url_spec(u)),
                    None => None,
                }
            } else {
                None
            },
    {
        if !self.has_valid_icon() {
            return None;
        }
        match nonempty(&self.icon_url) {
            Some(u) => Some(absolute_url(u.as_str())),
            None => None,
        }
    }

    /// The item's background image, made absolute.
    pub fn resolved_background_url(&self) -> (r: Option<String>)
        ensures
            opt_view(r) == match nonempty_spec(opt_view(self.background_url)) {
                Some(u) => Some(absolute_url_spec(u)),
                None => None,
            },
    {
        match nonempty(&self.background_url) {
            Some(u) => Some(absolute_url(u.as_str())),
            None => None,
        }
    }

    /// The item's non-blank screenshots, made absolute, at most the number kept.
    pub fn resolved_screenshot_urls(&self) -> (r: Vec<String>)
        ensures
            views(r@) == screenshots_spec(views(self.screenshot_urls@)),
    {
        let mut out: Vec<String> = Vec::new();
        let mut i: usize = 0;
        while i < self.screenshot_urls.len() && out.len() < MAX_SCREENSHOTS_KEPT
            invariant
                i <= self.screenshot_urls@.len(),
                out@.len() <= MAX_SCREENSHOTS_KEPT,
                views(out@) == absolute_all(views(self.screenshot_urls@).take(i as int)),
            decreases self.screenshot_urls@.len() - i,
        {
            proof {
                reveal(Seq::filter);
                assert(views(self.screenshot_urls@).take(i as int + 1).drop_last() =~= views(self.screenshot_urls@).take(i as int));
            }
            let t = trim(self.screenshot_urls[i].as_str());
            if !t.as_str().is_empty() {
                let u = absolute_url(t.as_str());
                let ghost o0 = out@;
                out.push(u);
                proof {
                    assert(views(out@) =~= views(o0).push(u@));
                }
            }
            i = i + 1;
        }
        proof {
            lemma_absolute_all_prefix(views(self.screenshot_urls@), i as int);
            if i == self.screenshot_urls@.len() {
                assert(views(self.screenshot_urls@).take(i as int) =~= views(self.screenshot_urls@));
            }
        }
        out
    }

    /// The item's description, trimmed, when not blank.
    pub fn description_text(&self) -> (r: Option<String>)
        ensures
            opt_view(r) == nonempty_spec(opt_view(self.description)),
    {
        nonempty(&self.description)
    }

    /// The download size in bytes, when the item states a valid one.
    pub fn size_bytes(&self) -> (r: Option<u64>)
        ensures
            match nonempty_spec(opt_view(self.size)) {
                Some(t) => match crate::net::parse_uint_spec(t, u64::MAX as nat) {
                    Some(v) => r == Some(v as u64),
                    None => r is None,
                },
                None => r is None,
            },
    {
        match nonempty(&self.size) {
            Some(t) => crate::net::parse_uint(t.as_str(), u64::MAX),
            None => None,
        }
    }
}

/// The first non-blank string, trimmed.
pub open spec fn first_nonempty(v: Seq<Seq<char>>) -> Option<Seq<char>>
    decreases v.len(),
{
    if v.len() == 0 {
        None
    } else if trim_seq(v[0]).len() > 0 {
        Some(trim_seq(v[0]))
    } else {
        first_nonempty(v.drop_first())
    }
}

/// The non-blank strings, trimmed and made absolute, in order.
pub open spec fn absolute_all(v: Seq<Seq<char>>) -> Seq<Seq<char>>
    decreases v.len(),
{
    if v.len() == 0 {
        Seq::empty()
    } else {
        let p = absolute_all(v.drop_last());
        if trim_seq(v.last()).len() > 0 {
            p.push(absolute_url_spec(trim_seq(v.last())))
        } else {
            p
        }
    }
}

/// The screenshots kept of an item.
pub open spec fn screenshots_spec(v: Seq<Seq<char>>) -> Seq<Seq<char>> {
    let all = absolute_all(v);
    if all.len() > MAX_SCREENSHOTS_KEPT {
        all.take(MAX_SCREENSHOTS_KEPT as int)
    } else {
        all
    }
}

proof fn lemma_absolute_all_grows(v: Seq<Seq<char>>, i: int)
    requires
        0 <= i <= v.len(),
    ensures
        absolute_all(v.take(i)).len() <= absolute_all(v).len(),
        absolute_all(v).take(absolute_all(v.take(i)).len() as int) == absolute_all(v.take(i)),
    decreases v.len() - i,
{
    if i < v.len() {
        lemma_absolute_all_grows(v, i + 1);
        assert(v.take(i + 1).drop_last() =~= v.take(i));
        let a = absolute_all(v.take(i));
        let b = absolute_all(v.take(i + 1));
        let f = absolute_all(v);
        if b.len() > a.len() {
            assert(b.take(a.len() as int) =~= a);
            assert(f.take(a.len() as int) =~= b.take(a.len() as int));
        }
    } else {
        assert(v.take(i) =~= v);
        assert(absolute_all(v).take(absolute_all(v).len() as int) =~= absolute_all(v));
    }
}

proof fn lemma_absolute_all_prefix(v: Seq<Seq<char>>, i: int)
    requires
        0 <= i <= v.len(),
        absolute_all(v.take(i)).len() <= MAX_SCREENSHOTS_KEPT,
        i < v.len() ==> absolute_all(v.take(i)).len() == MAX_SCREENSHOTS_KEPT,
    ensures
        absolute_all(v.take(i)) == screenshots_spec(v),
{
    lemma_absolute_all_grows(v, i);
    if i == v.len() {
        assert(v.take(i) =~= v);
    }
}

/// Bytes a character takes in UTF-8.
pub open spec fn utf8_width(c: char) -> nat {
    if (c as u32) < 0x80 {
        1
    } else if (c as u32) < 0x800 {
        2
    } else if (c as u32) < 0x10000 {
        3
    } else {
        4
    }
}

/// Bytes a text takes in UTF-8 (what `str::len` counts).
pub open spec fn utf8_len(s: Seq<char>) -> nat
    decreases s.len(),
{
    if s.len() == 0 {
        0
    } else {
        utf8_len(s.drop_last()) + utf8_width(s.last())
    }
}

pub(crate) fn utf8_len_is(s: &str, n: usize) -> (b: bool)
    ensures
        b == (utf8_len(s@) == n),
{
    let v = chars_of(s);
    let mut total: usize = 0;
    let mut i: usize = 0;
    while i < v.len()
        invariant
            v@ == s@,
            i <= v@.len(),
            total == utf8_len(v@.take(i as int)),
            total <= n,
        decreases v@.len() - i,
    {
        proof {
            assert(v@.take(i as int + 1).drop_last() =~= v@.take(i as int));
        }
        let c = v[i] as u32;
        let w: usize = if c < 0x80 {
            1
        } else if c < 0x800 {
            2
        } else if c < 0x10000 {
            3
        } else {
            4
        };
        if w > n - total {
            proof {
                lemma_utf8_len_grows(v@, i as int + 1);
            }
            return false;
        }
        total = total + w;
        i = i + 1;
    }
    proof {
        assert(v@.take(i as int) =~= v@);
    }
    total == n
}

proof fn lemma_utf8_len_grows(s: Seq<char>, i: int)
    requires
        0 <= i <= s.len(),
    ensures
        utf8_len(s.take(i)) <= utf8_len(s),
    decreases s.len() - i,
{
    if i < s.len() {
        lemma_utf8_len_grows(s, i + 1);
        assert(s.take(i + 1).drop_last() =~= s.take(i));
    } else {
        assert(s.take(i) =~= s);
    }
}

/// `p` begins `s`.
pub open spec fn has_prefix(s: Seq<char>, p: Seq<char>) -> bool {
    p.len() <= s.len() && s.take(p.len() as int) == p
}

/// Title id prefixes of PSP and other non-Vita releases.
pub open spec fn has_non_vita_prefix(id: Seq<char>) -> bool {
    has_prefix(id, "NPU"@) || has_prefix(id, "NPE"@) || has_prefix(id, "NPH"@) || has_prefix(id, "NPJ"@)
        || has_prefix(id, "NPA"@) || has_prefix(id, "ULU"@) || has_prefix(id, "ULE"@) || has_prefix(id, "ULJ"@)
        || has_prefix(id, "UCU"@) || has_prefix(id, "UCE"@)
}

/// Names of items that are not full Vita games.
pub open spec fn has_excluded_name(name_lower: Seq<char>) -> bool {
    contains_seq(name_lower, "(minis)"@) || contains_seq(name_lower, "(psp)"@) || contains_seq(name_lower, "(psx)"@)
        || contains_seq(name_lower, "(ps1)"@) || contains_seq(name_lower, "[dlc]"@) || contains_seq(name_lower, "theme"@)
}

/// Whether a catalogue entry is a PS Vita game, from its normalized parts:
/// whether it has no download URL, its trimmed upper-cased title id, and its
/// trimmed lower-cased type, category and lower-cased name.
pub open spec fn vita_game_spec(url_empty: bool, id: Seq<char>, kind: Seq<char>, cat: Seq<char>, name: Seq<char>) -> bool {
    let psv_type = kind == "psv_game"@ || kind == "vita_app"@ || cat == "ps vita game"@;
    let vita_id = has_prefix(id, "PCS"@) || psv_type || (utf8_len(id) == 9 && !has_non_vita_prefix(id));
    &&& !url_empty
    &&& id.len() > 0
    &&& vita_id
    &&& !has_excluded_name(name)
    &&& !(kind == "psp_game"@ || kind == "psp_app"@ || kind == "psx_game"@ || kind == "plugin"@ || kind == "theme"@)
    &&& !(cat == "theme"@ || cat == "themes"@ || cat == "plugin"@ || cat == "plugins"@ || cat == "tool"@ || cat
        == "tools"@ || cat == "psp game"@ || cat == "ps1 game"@)
}

fn pre(s: &str, p: &str) -> (b: bool)
    ensures
        b == has_prefix(s@, p@),
{
    prefix_is(s, p)
}

/// Decides whether a catalogue entry is a PS Vita game from its normalized parts.
pub fn vita_game_decision(url_empty: bool, id: &str, kind: &str, cat: &str, name: &str) -> (b: bool)
    ensures
        b == vita_game_spec(url_empty, id@, kind@, cat@, name@),
{
    if url_empty || id.is_empty() {
        return false;
    }
    let psv_type = str_equal(kind, "psv_game") || str_equal(kind, "vita_app") || str_equal(cat, "ps vita game");
    let non_vita = pre(id, "NPU") || pre(id, "NPE") || pre(id, "NPH") || pre(id, "NPJ") || pre(id, "NPA")
        || pre(id, "ULU") || pre(id, "ULE") || pre(id, "ULJ") || pre(id, "UCU") || pre(id, "UCE");
    let vita_id = pre(id, "PCS") || psv_type || (utf8_len_is(id, 9) && !non_vita);
    if !vita_id {
        return false;
    }
    if str_contains(name, "(minis)") || str_contains(name, "(psp)") || str_contains(name, "(psx)")
        || str_contains(name, "(ps1)") || str_contains(name, "[dlc]") || str_contains(name, "theme") {
        return false;
    }
    if str_equal(kind, "psp_game") || str_equal(kind, "psp_app") || str_equal(kind, "psx_game")
        || str_equal(kind, "plugin") || str_equal(kind, "theme") {
        return false;
    }
    if str_equal(cat, "theme") || str_equal(cat, "themes") || str_equal(cat, "plugin") || str_equal(cat, "plugins")
        || str_equal(cat, "tool") || str_equal(cat, "tools") || str_equal(cat, "psp game") || str_equal(
        cat,
        "ps1 game",
    ) {
        return false;
    }
    true
}

/// A catalogue entry's lower-cased type, category and name carry none of
/// the marks of a non-game or of another platform.
pub open spec fn unmarked(kind: Seq<char>, cat: Seq<char>, name: Seq<char>) -> bool {
    &&& !contains_seq(name, seq!['(', 'm', 'i', 'n', 'i', 's', ')'])
    &&& !contains_seq(name, seq!['(', 'p', 's', 'p', ')'])
    &&& !contains_seq(name, seq!['(', 'p', 's', 'x', ')'])
    &&& !contains_seq(name, seq!['(', 'p', 's', '1', ')'])
    &&& !contains_seq(name, seq!['[', 'd', 'l', 'c', ']'])
    &&& !contains_seq(name, seq!['t', 'h', 'e', 'm', 'e'])
    &&& kind != seq!['p', 's', 'p', '_', 'g', 'a', 'm', 'e'] && kind != seq!['p', 's', 'p', '_', 'a', 'p', 'p']
    &&& kind != seq!['p', 's', 'x', '_', 'g', 'a', 'm', 'e'] && kind != seq!['p', 'l', 'u', 'g', 'i', 'n']
    &&& kind != seq!['t', 'h', 'e', 'm', 'e']
    &&& cat != seq!['t', 'h', 'e', 'm', 'e'] && cat != seq!['t', 'h', 'e', 'm', 'e', 's']
    &&& cat != seq!['p', 'l', 'u', 'g', 'i', 'n'] && cat != seq!['p', 'l', 'u', 'g', 'i', 'n', 's']
    &&& cat != seq!['t', 'o', 'o', 'l'] && cat != seq!['t', 'o', 'o', 'l', 's']
    &&& cat != seq!['p', 's', 'p', ' ', 'g', 'a', 'm', 'e'] && cat != seq!['p', 's', '1', ' ', 'g', 'a', 'm', 'e']
}

/// What is never a PS Vita game: an entry without a download URL or title
/// id; one whose lower-cased name mentions `(minis)`, `(psp)`, `(psx)`,
/// `(ps1)`, `[dlc]` or `theme`; one typed as a PSP or PS1 game, a PSP app, a
/// plugin or a theme; one filed under themes, plugins, tools, PSP games or
/// PS1 games. An entry with a URL and an id that starts with `PCS`, or that
/// is typed or filed as a PS Vita game, and that carries none of those marks,
/// is one.
pub proof fn law_vita_game_exclusions(url_empty: bool, id: Seq<char>, kind: Seq<char>, cat: Seq<char>, name: Seq<char>)
    ensures
        url_empty ==> !vita_game_spec(url_empty, id, kind, cat, name),
        id.len() == 0 ==> !vita_game_spec(url_empty, id, kind, cat, name),
        contains_seq(name, seq!['(', 'm', 'i', 'n', 'i', 's', ')']) || contains_seq(name, seq!['(', 'p', 's', 'p', ')'])
            || contains_seq(name, seq!['(', 'p', 's', 'x', ')']) || contains_seq(name, seq!['(', 'p', 's', '1', ')'])
            || contains_seq(name, seq!['[', 'd', 'l', 'c', ']']) || contains_seq(name, seq!['t', 'h', 'e', 'm', 'e'])
            ==> !vita_game_spec(url_empty, id, kind, cat, name),
        kind == seq!['p', 's', 'p', '_', 'g', 'a', 'm', 'e'] || kind == seq!['p', 's', 'p', '_', 'a', 'p', 'p'] || kind
            == seq!['p', 's', 'x', '_', 'g', 'a', 'm', 'e'] || kind == seq!['p', 'l', 'u', 'g', 'i', 'n'] || kind == seq![
            't', 'h', 'e', 'm', 'e'] ==> !vita_game_spec(url_empty, id, kind, cat, name),
        cat == seq!['t', 'h', 'e', 'm', 'e'] || cat == seq!['t', 'h', 'e', 'm', 'e', 's'] || cat == seq![
            'p', 'l', 'u', 'g', 'i', 'n'] || cat == seq!['p', 'l', 'u', 'g', 'i', 'n', 's'] || cat == seq!['t', 'o', 'o', 'l']
            || cat == seq!['t', 'o', 'o', 'l', 's'] || cat == seq!['p', 's', 'p', ' ', 'g', 'a', 'm', 'e'] || cat == seq![
            'p', 's', '1', ' ', 'g', 'a', 'm', 'e'] ==> !vita_game_spec(url_empty, id, kind, cat, name),
        vita_game_spec(url_empty, id, kind, cat, name) ==> !url_empty && id.len() > 0,
        !url_empty && id.len() > 0 && ((id.len() >= 3 && id[0] == 'P' && id[1] == 'C' && id[2] == 'S') || kind == seq![
            'p', 's', 'v', '_', 'g', 'a', 'm', 'e'] || kind == seq!['v', 'i', 't', 'a', '_', 'a', 'p', 'p'] || cat == seq![
            'p', 's', ' ', 'v', 'i', 't', 'a', ' ', 'g', 'a', 'm', 'e']) && unmarked(kind, cat, name)
            ==> vita_game_spec(url_empty, id, kind, cat, name),
{
    reveal_strlit("PCS");
    reveal_strlit("psv_game");
    reveal_strlit("vita_app");
    reveal_strlit("ps vita game");
    assert("PCS"@ =~= seq!['P', 'C', 'S']);
    assert("psv_game"@ =~= seq!['p', 's', 'v', '_', 'g', 'a', 'm', 'e']);
    assert("vita_app"@ =~= seq!['v', 'i', 't', 'a', '_', 'a', 'p', 'p']);
    assert("ps vita game"@ =~= seq!['p', 's', ' ', 'v', 'i', 't', 'a', ' ', 'g', 'a', 'm', 'e']);
    if id.len() >= 3 && id[0] == 'P' && id[1] == 'C' && id[2] == 'S' {
        assert(id.take(3) =~= seq!['P', 'C', 'S']);
    }
    reveal_strlit("(minis)");
    reveal_strlit("(psp)");
    reveal_strlit("(psx)");
    reveal_strlit("(ps1)");
    reveal_strlit("[dlc]");
    reveal_strlit("theme");
    reveal_strlit("psp_game");
    reveal_strlit("psp_app");
    reveal_strlit("psx_game");
    reveal_strlit("plugin");
    reveal_strlit("themes");
    reveal_strlit("plugins");
    reveal_strlit("tool");
    reveal_strlit("tools");
    reveal_strlit("psp game");
    reveal_strlit("ps1 game");
    assert("(minis)"@ =~= seq!['(', 'm', 'i', 'n', 'i', 's', ')']);
    assert("(psp)"@ =~= seq!['(', 'p', 's', 'p', ')']);
    assert("(psx)"@ =~= seq!['(', 'p', 's', 'x', ')']);
    assert("(ps1)"@ =~= seq!['(', 'p', 's', '1', ')']);
    assert("[dlc]"@ =~= seq!['[', 'd', 'l', 'c', ']']);
    assert("theme"@ =~= seq!['t', 'h', 'e', 'm', 'e']);
    assert("psp_game"@ =~= seq!['p', 's', 'p', '_', 'g', 'a', 'm', 'e']);
    assert("psp_app"@ =~= seq!['p', 's', 'p', '_', 'a', 'p', 'p']);
    assert("psx_game"@ =~= seq!['p', 's', 'x', '_', 'g', 'a', 'm', 'e']);
    assert("plugin"@ =~= seq!['p', 'l', 'u', 'g', 'i', 'n']);
    assert("themes"@ =~= seq!['t', 'h', 'e', 'm', 'e', 's']);
    assert("plugins"@ =~= seq!['p', 'l', 'u', 'g', 'i', 'n', 's']);
    assert("tool"@ =~= seq!['t', 'o', 'o', 'l']);
    assert("tools"@ =~= seq!['t', 'o', 'o', 'l', 's']);
    assert("psp game"@ =~= seq!['p', 's', 'p', ' ', 'g', 'a', 'm', 'e']);
    assert("ps1 game"@ =~= seq!['p', 's', '1', ' ', 'g', 'a', 'm', 'e']);
}

/// No catalogue item the filter keeps is DLC, a theme, a PSP or PS1 release
/// or a minis title by its name: every kept item is a PS Vita game with a
/// title id, and its lower-cased name mentions none of `[dlc]`, `theme`,
/// `(psp)`, `(psx)`, `(ps1)`, `(minis)`.
pub proof fn law_filter_keeps_no_dlc(items: Seq<StoreItem>)
    ensures
        forall|i: int| 0 <= i < kept_items(items).len() ==> {
            let it = #[trigger] kept_items(items)[i];
            &&& is_vita_game_spec(it)
            &&& it.title_id is Some
            &&& !contains_seq(unicode_lower(it.name@), seq!['[', 'd', 'l', 'c', ']'])
            &&& !contains_seq(unicode_lower(it.name@), seq!['t', 'h', 'e', 'm', 'e'])
            &&& !contains_seq(unicode_lower(it.name@), seq!['(', 'p', 's', 'p', ')'])
            &&& !contains_seq(unicode_lower(it.name@), seq!['(', 'p', 's', 'x', ')'])
            &&& !contains_seq(unicode_lower(it.name@), seq!['(', 'p', 's', '1', ')'])
            &&& !contains_seq(unicode_lower(it.name@), seq!['(', 'm', 'i', 'n', 'i', 's', ')'])
        },
    decreases items.len(),
{
    if items.len() > 0 {
        law_filter_keeps_no_dlc(items.drop_last());
        let it = items.last();
        let k = kept_items(items);
        let p = kept_items(items.drop_last());
        assert forall|i: int| 0 <= i < k.len() implies {
            let x = #[trigger] k[i];
            &&& is_vita_game_spec(x)
            &&& x.title_id is Some
            &&& !contains_seq(unicode_lower(x.name@), seq!['[', 'd', 'l', 'c', ']'])
            &&& !contains_seq(unicode_lower(x.name@), seq!['t', 'h', 'e', 'm', 'e'])
            &&& !contains_seq(unicode_lower(x.name@), seq!['(', 'p', 's', 'p', ')'])
            &&& !contains_seq(unicode_lower(x.name@), seq!['(', 'p', 's', 'x', ')'])
            &&& !contains_seq(unicode_lower(x.name@), seq!['(', 'p', 's', '1', ')'])
            &&& !contains_seq(unicode_lower(x.name@), seq!['(', 'm', 'i', 'n', 'i', 's', ')'])
        } by {
            let x = k[i];
            if i < p.len() {
                assert(x == p[i]);
            }
            law_vita_game_exclusions(
                x.download_url@.len() == 0,
                item_id_key(x),
                unicode_lower(trim_seq(x.kind@)),
                unicode_lower(trim_seq(x.category@)),
                unicode_lower(x.name@),
            );
        }
    }
}

/// The title id of an item as the catalogue filter compares it.
pub open spec fn item_id_key(item: StoreItem) -> Seq<char> {
    unicode_upper(trim_seq(match item.title_id {
        Some(t) => t@,
        None => Seq::empty(),
    }))
}

/// Whether a catalogue item is a PS Vita game.
pub open spec fn is_vita_game_spec(item: StoreItem) -> bool {
    vita_game_spec(
        item.download_url@.len() == 0,
        item_id_key(item),
        unicode_lower(trim_seq(item.kind@)),
        unicode_lower(trim_seq(item.category@)),
        unicode_lower(item.name@),
    )
}

impl StoreItem {
    /// Whether this catalogue item is a PS Vita game (not PSP, PS1, DLC, a
    /// theme, a plugin or a tool).
    pub fn is_ps_vita_game(&self) -> (b: bool)
        ensures
            b == is_vita_game_spec(*self),
    {
        let raw_id = match &self.title_id {
            Some(t) => t.as_str(),
            None => "",
        };
        proof {
            reveal_strlit("");
            if self.title_id is None {
                assert(raw_id@ =~= Seq::<char>::empty());
            }
        }
        let id = to_uppercase(trim(raw_id).as_str());
        let kind = to_lowercase(trim(self.kind.as_str()).as_str());
        let cat = to_lowercase(trim(self.category.as_str()).as_str());
        let name = to_lowercase(self.name.as_str());
        vita_game_decision(self.download_url.as_str().is_empty(), id.as_str(), kind.as_str(), cat.as_str(), name.as_str())
    }
}

/// The catalogue entries kept: PS Vita games with a title id, the first
/// entry of each title id only.
pub open spec fn kept_items(items: Seq<StoreItem>) -> Seq<StoreItem>
    decreases items.len(),
{
    if items.len() == 0 {
        Seq::empty()
    } else {
        let p = kept_items(items.drop_last());
        let it = items.last();
        if is_vita_game_spec(it) && it.title_id is Some && !p.map_values(|x: StoreItem| item_id_key(x)).contains(
            item_id_key(it),
        ) {
            p.push(it)
        } else {
            p
        }
    }
}

/// The catalogue filter keeps one entry per title id: no two kept entries
/// share a (trimmed, upper-cased) title id, and every PS Vita game with a
/// title id has a kept entry with its title id.
pub proof fn law_filter_one_per_title(items: Seq<StoreItem>)
    ensures
        forall|i: int, j: int|
            0 <= i < j < kept_items(items).len() ==> item_id_key(#[trigger] kept_items(items)[i]) != item_id_key(
                #[trigger] kept_items(items)[j],
            ),
        forall|m: int|
            0 <= m < items.len() && is_vita_game_spec(#[trigger] items[m]) && items[m].title_id is Some ==> exists|k: int|
                0 <= k < kept_items(items).len() && item_id_key(#[trigger] kept_items(items)[k]) == item_id_key(items[m]),
    decreases items.len(),
{
    if items.len() > 0 {
        let pre = items.drop_last();
        law_filter_one_per_title(pre);
        let p = kept_items(pre);
        let k = kept_items(items);
        let it = items.last();
        let keys = p.map_values(|x: StoreItem| item_id_key(x));
        assert forall|i: int, j: int| 0 <= i < j < k.len() implies item_id_key(#[trigger] k[i]) != item_id_key(
            #[trigger] k[j],
        ) by {
            if j < p.len() {
                assert(k[i] == p[i] && k[j] == p[j]);
            } else {
                assert(k[i] == p[i]);
                assert(keys[i] == item_id_key(p[i]));
            }
        }
        assert forall|m: int| 0 <= m < items.len() && is_vita_game_spec(#[trigger] items[m]) && items[m].title_id is Some
            implies exists|q: int| 0 <= q < k.len() && item_id_key(#[trigger] k[q]) == item_id_key(items[m]) by {
            if m < pre.len() {
                assert(items[m] == pre[m]);
                let q = choose|q: int| 0 <= q < p.len() && item_id_key(#[trigger] p[q]) == item_id_key(pre[m]);
                assert(k[q] == p[q]);
            } else {
                assert(items[m] == it);
                if keys.contains(item_id_key(it)) {
                    let q = choose|q: int| 0 <= q < keys.len() && keys[q] == item_id_key(it);
                    assert(k[q] == p[q]);
                } else {
                    assert(k[p.len() as int] == it);
                }
            }
        }
    }
}

/// The keys catalogue items are ordered by: lower-cased names.
pub open spec fn name_keys(items: Seq<StoreItem>) -> Seq<Seq<char>> {
    items.map_values(|x: StoreItem| unicode_lower(x.name@))
}

/// The PS Vita games of a catalogue, one per title id, ordered by their
/// lower-cased names (stable).
pub fn filter_items(items: Vec<StoreItem>) -> (r: Vec<StoreItem>)
    ensures
        r@.to_multiset() == kept_items(items@).to_multiset(),
        forall|i: int| 0 <= i < r@.len() ==> is_vita_game_spec(#[trigger] r@[i]) && !contains_seq(
            unicode_lower(r@[i].name@),
            seq!['[', 'd', 'l', 'c', ']'],
        ),
        forall|k: Seq<char>| r@.filter(#[trigger] has_key(item_name_key(), k)) == kept_items(items@).filter(
            has_key(item_name_key(), k),
        ),
        forall|i: int, j: int| 0 <= i < j < r@.len() ==> !seq_lt(
            #[trigger] name_keys(r@)[j],
            #[trigger] name_keys(r@)[i],
        ),
{
    let ghost orig = items@;
    let mut rest = items;
    let mut kept: Vec<StoreItem> = Vec::new();
    let mut seen: Vec<String> = Vec::new();
    let mut n: usize = 0;
    proof {
        assert(orig.len() == rest.len());
        assert(orig.take(0) =~= Seq::<StoreItem>::empty());
        assert(views(seen@) =~= kept@.map_values(|x: StoreItem| item_id_key(x)));
    }
    while rest.len() > 0
        invariant
            n <= orig.len(),
            orig.len() <= usize::MAX,
            rest@ == orig.skip(n as int),
            kept@ == kept_items(orig.take(n as int)),
            views(seen@) == kept@.map_values(|x: StoreItem| item_id_key(x)),
        decreases rest@.len(),
    {
        let item = rest.remove(0);
        proof {
            assert(item == orig[n as int]);
            assert(orig.take(n as int + 1).drop_last() =~= orig.take(n as int));
            assert(orig.take(n as int + 1).last() == item);
        }
        if item.is_ps_vita_game() && item.title_id.is_some() {
            let raw = match &item.title_id {
                Some(t) => t.as_str(),
                None => "",
            };
            let key = to_uppercase(trim(raw).as_str());
            if position_of(&seen, key.as_str()).is_none() {
                let ghost s0 = seen@;
                let ghost k0 = kept@;
                seen.push(key);
                kept.push(item);
                proof {
                    crate::text::lemma_views_push(s0, key);
                    assert(kept@.map_values(|x: StoreItem| item_id_key(x)) =~= k0.map_values(
                        |x: StoreItem| item_id_key(x),
                    ).push(item_id_key(item)));
                }
            }
        }
        n = n + 1;
        proof {
            assert(rest@ =~= orig.skip(n as int));
        }
    }
    proof {
        assert(orig.take(n as int) =~= orig);
    }
    sort_items_by_name(&mut kept);
    proof {
        law_filter_keeps_no_dlc(orig);
        assert forall|i: int| 0 <= i < kept@.len() implies is_vita_game_spec(#[trigger] kept@[i]) && !contains_seq(
            unicode_lower(kept@[i].name@),
            seq!['[', 'd', 'l', 'c', ']'],
        ) by {
            let x = kept@[i];
            assert(kept@.contains(x));
            vstd::seq_lib::to_multiset_contains(kept@, x);
            vstd::seq_lib::to_multiset_contains(kept_items(orig), x);
            let j = choose|j: int| 0 <= j < kept_items(orig).len() && kept_items(orig)[j] == x;
            assert(kept_items(orig)[j] == x);
        }
    }
    kept
}

/// The key catalogue items are ordered by: the lower-cased name.
pub open spec fn item_name_key() -> spec_fn(StoreItem) -> Seq<char> {
    |x: StoreItem| unicode_lower(x.name@)
}

/// Orders catalogue items by lower-cased name (stable).
fn sort_items_by_name(items: &mut Vec<StoreItem>)
    ensures
        final(items)@.to_multiset() == old(items)@.to_multiset(),
        forall|k: Seq<char>| final(items)@.filter(#[trigger] has_key(item_name_key(), k)) == old(items)@.filter(
            has_key(item_name_key(), k),
        ),
        forall|i: int, j: int| 0 <= i < j < final(items)@.len() ==> !seq_lt(
            #[trigger] name_keys(final(items)@)[j],
            #[trigger] name_keys(final(items)@)[i],
        ),
{
    let ghost orig = items@;
    let mut out: Vec<StoreItem> = Vec::new();
    let mut keys: Vec<String> = Vec::new();
    proof {
        assert(out@ + items@ =~= items@);
        lemma_stable_start(orig, item_name_key());
        assert(out@ =~= Seq::<StoreItem>::empty());
    }
    while items.len() > 0
        invariant
            keys@.len() == out@.len(),
            forall|k: int| 0 <= k < keys@.len() ==> (#[trigger] keys@[k])@ == unicode_lower(out@[k].name@),
            forall|a: int, b: int| 0 <= a < b < keys@.len() ==> !seq_lt(#[trigger] keys@[b]@, #[trigger] keys@[a]@),
            (out@ + items@).to_multiset() == orig.to_multiset(),
            forall|k: Seq<char>| out@.filter(#[trigger] has_key(item_name_key(), k)) + items@.filter(has_key(item_name_key(), k))
                == orig.filter(has_key(item_name_key(), k)),
        decreases items@.len(),
    {
        let ghost before_rest = items@;
        let g = items.remove(0);
        let key = to_lowercase(g.name.as_str());
        let mut j: usize = 0;
        while j < keys.len() && !str_lt(key.as_str(), keys[j].as_str())
            invariant
                j <= keys@.len(),
                forall|k: int| 0 <= k < j ==> !seq_lt(key@, #[trigger] keys@[k]@),
            decreases keys@.len() - j,
        {
            j = j + 1;
        }
        let ghost kb = keys@;
        let ghost ob = out@;
        let ghost kv = key@;
        keys.insert(j, key);
        out.insert(j, g);
        proof {
            assert forall|a: int, b: int| 0 <= a < b < keys@.len() implies !seq_lt(#[trigger] keys@[b]@, #[trigger] keys@[a]@) by {
                if a < j && b == j {
                    assert(!seq_lt(kv, kb[a]@));
                } else if a == j && b > j {
                    if j < kb.len() {
                        assert(seq_lt(kv, kb[j as int]@));
                        if b - 1 > j {
                            assert(!seq_lt(kb[b - 1]@, kb[j as int]@));
                            lemma_seq_lt_total(kb[j as int]@, kb[b - 1]@);
                            if seq_lt(kb[b - 1]@, kv) {
                                if kb[j as int]@ == kb[b - 1]@ {
                                    lemma_seq_lt_asymmetric(kv, kb[j as int]@);
                                } else {
                                    lemma_seq_lt_transitive(kb[j as int]@, kb[b - 1]@, kv);
                                    lemma_seq_lt_asymmetric(kv, kb[j as int]@);
                                }
                            }
                        } else {
                            lemma_seq_lt_asymmetric(kv, kb[j as int]@);
                        }
                    }
                } else if a < j && b > j {
                    assert(keys@[a] == kb[a]);
                    assert(keys@[b] == kb[b - 1]);
                } else if a > j {
                    assert(keys@[a] == kb[a - 1]);
                    assert(keys@[b] == kb[b - 1]);
                }
            }
            assert forall|k: int| 0 <= k < keys@.len() implies (#[trigger] keys@[k])@ == unicode_lower(out@[k].name@) by {
                if k < j {
                    assert(keys@[k] == kb[k]);
                    assert(out@[k] == ob[k]);
                } else if k > j {
                    assert(keys@[k] == kb[k - 1]);
                    assert(out@[k] == ob[k - 1]);
                }
            }
            broadcast use vstd::multiset::group_multiset_axioms;
            assert(before_rest =~= seq![g] + items@);
            vstd::seq_lib::to_multiset_insert(ob, j as int, g);
            vstd::seq_lib::lemma_multiset_commutative(ob, before_rest);
            vstd::seq_lib::lemma_multiset_commutative(out@, items@);
            vstd::seq_lib::lemma_multiset_commutative(seq![g], items@);
            vstd::seq_lib::to_multiset_build(items@, g);
            assert(items@.push(g).to_multiset() == (seq![g] + items@).to_multiset()) by {
                assert(items@.push(g) =~= items@ + seq![g]);
                vstd::seq_lib::lemma_multiset_commutative(items@, seq![g]);
            }
            assert((out@ + items@).to_multiset() =~= (ob + before_rest).to_multiset());
            let kbs = kb.map_values(|e: String| e@);
            assert forall|m: int| 0 <= m < ob.len() implies item_name_key()(#[trigger] ob[m]) == kbs[m] by {}
            assert forall|a: int, b: int| 0 <= a < b < kbs.len() implies !text_order()(#[trigger] kbs[b], #[trigger] kbs[a]) by {}
            crate::text::lemma_seq_lt_irreflexive(kv);
            lemma_stable_step(ob, kbs, j as int, g, items@, orig, item_name_key(), text_order());
        }
    }
    proof {
        assert(out@ + items@ =~= out@);
        assert forall|k: Seq<char>| out@.filter(#[trigger] has_key(item_name_key(), k)) == orig.filter(has_key(item_name_key(), k)) by {
            crate::text::lemma_filter_none(items@, has_key(item_name_key(), k));
            assert(out@.filter(has_key(item_name_key(), k)) + Seq::<StoreItem>::empty() =~= out@.filter(has_key(item_name_key(), k)));
        }
        assert forall|a: int, b: int| 0 <= a < b < out@.len() implies !seq_lt(
            #[trigger] name_keys(out@)[b],
            #[trigger] name_keys(out@)[a],
        ) by {
            assert(name_keys(out@)[a] == keys@[a]@);
            assert(name_keys(out@)[b] == keys@[b]@);
        }
    }
    *items = out;
}

/// The library entry of a catalogue game.
pub open spec fn item_game(item: StoreItem, g: Game) -> bool {
    &&& item.title_id matches Some(t) && g.title_id@ == t@ && g.art_key@ == t@
    &&& g.title@ == item.name@
    &&& g.system == System::Vita
    &&& g.cover_bytes is None && g.hero_bytes is None && g.logo_bytes is None
    &&& !g.has_box_art && !g.has_hero && !g.has_logo && !g.has_bubble
    &&& g.file_path is None && g.music_path is None && !g.music_resolved
    &&& g.is_game == Some(true)
}

/// The items with a title id, in order.
pub open spec fn items_with_id(items: Seq<StoreItem>) -> Seq<StoreItem> {
    items.filter(|x: StoreItem| x.title_id is Some)
}

/// Library entries for the catalogue items that have a title id, in order.
pub fn games_from_items(items: &[StoreItem]) -> (games: Vec<Game>)
    ensures
        games@.len() == items_with_id(items@).len(),
        forall|i: int| 0 <= i < games@.len() ==> item_game(items_with_id(items@)[i], #[trigger] games@[i]),
{
    let mut games: Vec<Game> = Vec::new();
    let mut i: usize = 0;
    while i < items.len()
        invariant
            i <= items@.len(),
            games@.len() == items_with_id(items@.take(i as int)).len(),
            forall|k: int| 0 <= k < games@.len() ==> item_game(items_with_id(items@.take(i as int))[k], #[trigger] games@[k]),
        decreases items@.len() - i,
    {
        proof {
            reveal(Seq::filter);
            assert(items@.take(i as int + 1).drop_last() =~= items@.take(i as int));
        }
        match &items[i].title_id {
            Some(t) => {
                let ghost g0 = games@;
                games.push(Game {
                    system: System::Vita,
                    title: items[i].name.clone(),
                    title_id: t.clone(),
                    art_key: t.clone(),
                    cover_bytes: None,
                    hero_bytes: None,
                    logo_bytes: None,
                    has_box_art: false,
                    has_hero: false,
                    has_logo: false,
                    has_bubble: false,
                    file_path: None,
                    music_path: None,
                    music_resolved: false,
                    is_game: Some(true),
                });
                proof {
                    let f1 = items_with_id(items@.take(i as int + 1));
                    let f0 = items_with_id(items@.take(i as int));
                    assert(f1 == f0.push(items@[i as int]));
                    assert forall|k: int| 0 <= k < games@.len() implies item_game(f1[k], #[trigger] games@[k]) by {
                        if k < g0.len() {
                            assert(games@[k] == g0[k]);
                            assert(f1[k] == f0[k]);
                        }
                    }
                }
            },
            None => {},
        }
        i = i + 1;
    }
    proof {
        assert(items@.take(i as int) =~= items@);
    }
    games
}

/// The catalogue index: for each normalized title id, the position of the
/// last item carrying it.
pub open spec fn catalog_index(items: Seq<StoreItem>) -> Map<Seq<char>, int>
    decreases items.len(),
{
    if items.len() == 0 {
        Map::empty()
    } else {
        let m = catalog_index(items.drop_last());
        match items.last().title_id {
            Some(t) => m.insert(upper_seq(trim_seq(t@)), items.len() - 1),
            None => m,
        }
    }
}

/// An index as (key, position) pairs with distinct keys.
pub open spec fn index_map(v: Seq<(String, usize)>) -> Map<Seq<char>, int> {
    Map::new(
        |k: Seq<char>| exists|i: int| 0 <= i < v.len() && (#[trigger] v[i]).0@ == k,
        |k: Seq<char>| {
            let i = choose|i: int| 0 <= i < v.len() && (#[trigger] v[i]).0@ == k;
            v[i].1 as int
        },
    )
}

pub open spec fn index_keys_distinct(v: Seq<(String, usize)>) -> bool {
    forall|i: int, j: int| 0 <= i < j < v.len() ==> (#[trigger] v[i]).0@ != (#[trigger] v[j]).0@
}

proof fn lemma_index_at(v: Seq<(String, usize)>, k: Seq<char>, i: int)
    requires
        index_keys_distinct(v),
        0 <= i < v.len(),
        v[i].0@ == k,
    ensures
        index_map(v).contains_key(k),
        index_map(v)[k] == v[i].1 as int,
{
    let m = choose|m: int| 0 <= m < v.len() && (#[trigger] v[m]).0@ == k;
    if m != i {
        if m < i {
            assert(v[m].0@ != v[i].0@);
        } else {
            assert(v[i].0@ != v[m].0@);
        }
    }
}

fn find_key(v: &Vec<(String, usize)>, key: &str) -> (r: Option<usize>)
    ensures
        match r {
            Some(i) => i < v@.len() && v@[i as int].0@ == key@,
            None => forall|j: int| 0 <= j < v@.len() ==> (#[trigger] v@[j]).0@ != key@,
        },
{
    let mut i: usize = 0;
    while i < v.len()
        invariant
            i <= v@.len(),
            forall|j: int| 0 <= j < i ==> (#[trigger] v@[j]).0@ != key@,
        decreases v@.len() - i,
    {
        if str_equal(v[i].0.as_str(), key) {
            return Some(i);
        }
        i = i + 1;
    }
    None
}

/// Sets `key` to `pos` in an index with distinct keys.
fn index_put(v: &mut Vec<(String, usize)>, key: String, pos: usize)
    requires
        index_keys_distinct(old(v)@),
    ensures
        index_keys_distinct(final(v)@),
        index_map(final(v)@) == index_map(old(v)@).insert(key@, pos as int),
{
    let ghost v0 = v@;
    let ghost kv = key@;
    match find_key(v, key.as_str()) {
        Some(i) => {
            v.set(i, (key, pos));
            proof {
                let v1 = v@;
                assert forall|a: int, b: int| 0 <= a < b < v1.len() implies (#[trigger] v1[a]).0@ != (#[trigger] v1[b]).0@ by {
                    assert(v0[a].0@ != v0[b].0@);
                }
                assert forall|k: Seq<char>| #[trigger] index_map(v1).contains_key(k) == index_map(v0).insert(kv, pos as int).contains_key(k) by {
                    if index_map(v0).contains_key(k) {
                        let m = choose|m: int| 0 <= m < v0.len() && (#[trigger] v0[m]).0@ == k;
                        assert(v1[m].0@ == k);
                    }
                    if index_map(v1).contains_key(k) {
                        let m = choose|m: int| 0 <= m < v1.len() && (#[trigger] v1[m]).0@ == k;
                        assert(v0[m].0@ == k);
                    }
                }
                assert forall|k: Seq<char>| index_map(v1).contains_key(k) implies #[trigger] index_map(v1)[k] == index_map(v0).insert(kv, pos as int)[k] by {
                    let m = choose|m: int| 0 <= m < v1.len() && (#[trigger] v1[m]).0@ == k;
                    lemma_index_at(v1, k, m);
                    if k != kv {
                        lemma_index_at(v0, k, m);
                    }
                }
                assert(index_map(v1) =~= index_map(v0).insert(kv, pos as int));
            }
        },
        None => {
            v.push((key, pos));
            proof {
                let v1 = v@;
                assert forall|k: Seq<char>| #[trigger] index_map(v1).contains_key(k) == index_map(v0).insert(kv, pos as int).contains_key(k) by {
                    if index_map(v0).contains_key(k) {
                        let m = choose|m: int| 0 <= m < v0.len() && (#[trigger] v0[m]).0@ == k;
                        assert(v1[m] == v0[m]);
                    }
                    if k == kv {
                        assert(v1[v0.len() as int].0@ == k);
                    }
                    if index_map(v1).contains_key(k) {
                        let m = choose|m: int| 0 <= m < v1.len() && (#[trigger] v1[m]).0@ == k;
                        if m < v0.len() {
                            assert(v0[m] == v1[m]);
                        }
                    }
                }
                assert forall|k: Seq<char>| index_map(v1).contains_key(k) implies #[trigger] index_map(v1)[k] == index_map(v0).insert(kv, pos as int)[k] by {
                    let m = choose|m: int| 0 <= m < v1.len() && (#[trigger] v1[m]).0@ == k;
                    lemma_index_at(v1, k, m);
                    if k != kv {
                        assert(m < v0.len());
                        assert(v0[m] == v1[m]);
                        lemma_index_at(v0, k, m);
                    }
                }
                assert(index_map(v1) =~= index_map(v0).insert(kv, pos as int));
            }
        },
    }
}

/// A catalogue ready to show: its items, their library entries and the
/// title id index.
pub struct LoadedCatalog {
    pub items: Vec<StoreItem>,
    pub games: Vec<Game>,
    pub title_index: Vec<(String, usize)>,
}

impl LoadedCatalog {
    pub open spec fn index(&self) -> Map<Seq<char>, int> {
        index_map(self.title_index@)
    }

    pub open spec fn wf(&self) -> bool {
        index_keys_distinct(self.title_index@)
    }

    /// Indexes a catalogue and builds its library entries.
    pub fn new(items: Vec<StoreItem>) -> (c: Self)
        ensures
            c.wf(),
            c.items@ == items@,
            c.index() == catalog_index(items@),
            c.games@.len() == items_with_id(items@).len(),
            forall|i: int| 0 <= i < c.games@.len() ==> item_game(items_with_id(items@)[i], #[trigger] c.games@[i]),
    {
        let mut index: Vec<(String, usize)> = Vec::new();
        proof {
            assert(index_map(index@) =~= Map::<Seq<char>, int>::empty());
        }
        let mut i: usize = 0;
        while i < items.len()
            invariant
                i <= items@.len(),
                index_keys_distinct(index@),
                index_map(index@) == catalog_index(items@.take(i as int)),
            decreases items@.len() - i,
        {
            proof {
                assert(items@.take(i as int + 1).drop_last() =~= items@.take(i as int));
            }
            match &items[i].title_id {
                Some(t) => {
                    let key = normalize_title_id(t.as_str());
                    index_put(&mut index, key, i);
                },
                None => {},
            }
            i = i + 1;
        }
        proof {
            assert(items@.take(i as int) =~= items@);
        }
        let games = games_from_items(items.as_slice());
        LoadedCatalog { items, games, title_index: index }
    }

    /// The position indexed for a normalized title id.
    pub fn index_get(&self, key: &str) -> (r: Option<usize>)
        requires
            self.wf(),
        ensures
            match r {
                Some(p) => self.index().contains_key(key@) && self.index()[key@] == p,
                None => !self.index().contains_key(key@),
            },
    {
        match find_key(&self.title_index, key) {
            Some(i) => {
                proof {
                    lemma_index_at(self.title_index@, key@, i as int);
                }
                Some(self.title_index[i].1)
            },
            None => None,
        }
    }

    /// How many title ids are indexed.
    pub fn index_len(&self) -> (n: usize)
        requires
            self.wf(),
        ensures
            n == self.index().dom().len(),
    {
        proof {
            lemma_index_len(self.title_index@);
        }
        self.title_index.len()
    }
}

proof fn lemma_index_len(v: Seq<(String, usize)>)
    requires
        index_keys_distinct(v),
    ensures
        index_map(v).dom().len() == v.len(),
        index_map(v).dom().finite(),
    decreases v.len(),
{
    let d = v.drop_last();
    if v.len() == 0 {
        assert(index_map(v).dom() =~= Set::<Seq<char>>::empty());
    } else {
        assert(index_keys_distinct(d)) by {
            assert forall|i: int, j: int| 0 <= i < j < d.len() implies (#[trigger] d[i]).0@ != (#[trigger] d[j]).0@ by {
                assert(d[i] == v[i]);
                assert(d[j] == v[j]);
            }
        }
        lemma_index_len(d);
        let k = v.last().0@;
        assert(index_map(v).dom() =~= index_map(d).dom().insert(k)) by {
            assert forall|x: Seq<char>| index_map(v).dom().contains(x) implies index_map(d).dom().insert(k).contains(x) by {
                let m = choose|m: int| 0 <= m < v.len() && (#[trigger] v[m]).0@ == x;
                if m < d.len() {
                    assert(d[m] == v[m]);
                }
            }
            assert forall|x: Seq<char>| index_map(d).dom().insert(k).contains(x) implies index_map(v).dom().contains(x) by {
                if x == k {
                    assert(v[v.len() - 1].0@ == x);
                } else {
                    let m = choose|m: int| 0 <= m < d.len() && (#[trigger] d[m]).0@ == x;
                    assert(v[m] == d[m]);
                }
            }
        }
        assert(!index_map(d).dom().contains(k)) by {
            if index_map(d).dom().contains(k) {
                let m = choose|m: int| 0 <= m < d.len() && (#[trigger] d[m]).0@ == k;
                assert(v[m] == d[m]);
                assert(v[m].0@ != v[v.len() - 1].0@);
            }
        }
    }
}

/// The catalogue the store shows, once loaded.
pub struct StoreManager {
    pub items: Vec<StoreItem>,
    pub loading: bool,
    pub title_index: Vec<(String, usize)>,
}

impl StoreManager {
    pub open spec fn index(&self) -> Map<Seq<char>, int> {
        index_map(self.title_index@)
    }

    pub open spec fn wf(&self) -> bool {
        index_keys_distinct(self.title_index@)
    }

    /// An empty store waiting for its catalogue.
    pub fn new() -> (m: Self)
        ensures
            m.wf(),
            m.loading,
            m.items@.len() == 0,
            m.index() == Map::<Seq<char>, int>::empty(),
    {
        let m = StoreManager { items: Vec::new(), loading: true, title_index: Vec::new() };
        proof {
            assert(index_map(m.title_index@) =~= Map::<Seq<char>, int>::empty());
        }
        m
    }

    /// Takes the result of loading the catalogue: loading ends, and a
    /// catalogue that arrived replaces the items and index; its library
    /// entries are handed back.
    pub fn deliver(&mut self, catalog: Option<LoadedCatalog>) -> (games: Option<Vec<Game>>)
        requires
            old(self).wf(),
            catalog matches Some(c) ==> c.wf(),
        ensures
            final(self).wf(),
            !final(self).loading,
            catalog is None ==> games is None && final(self).items == old(self).items && final(self).index()
                == old(self).index(),
            catalog matches Some(c) ==> (games == Some(c.games) && final(self).items == c.items
                && final(self).index() == c.index()),
    {
        self.loading = false;
        match catalog {
            Some(c) => {
                self.items = c.items;
                self.title_index = c.title_index;
                Some(c.games)
            },
            None => None,
        }
    }

    /// The position of the catalogue item of a title id: the id as given,
    /// else its normalized form.
    pub fn index_by_title_id(&self, title_id: &str) -> (r: Option<usize>)
        requires
            self.wf(),
        ensures
            r == if self.index().contains_key(title_id@) {
                Some(self.index()[title_id@] as usize)
            } else if self.index().contains_key(upper_seq(trim_seq(title_id@))) {
                Some(self.index()[upper_seq(trim_seq(title_id@))] as usize)
            } else {
                None
            },
    {
        match find_key(&self.title_index, title_id) {
            Some(i) => {
                proof {
                    lemma_index_at(self.title_index@, title_id@, i as int);
                }
                return Some(self.title_index[i].1);
            },
            None => {},
        }
        let key = normalize_title_id(title_id);
        match find_key(&self.title_index, key.as_str()) {
            Some(i) => {
                proof {
                    lemma_index_at(self.title_index@, key@, i as int);
                }
                Some(self.title_index[i].1)
            },
            None => None,
        }
    }

    /// The catalogue item of a title id.
    pub fn item_by_title_id(&self, title_id: &str) -> (r: Option<&StoreItem>)
        requires
            self.wf(),
        ensures
            match self.index_by_title_id_spec(title_id@) {
                Some(p) => if p < self.items@.len() {
                    r == Some(&self.items@[p as int])
                } else {
                    r is None
                },
                None => r is None,
            },
    {
        match self.index_by_title_id(title_id) {
            Some(i) => if i < self.items.len() {
                Some(&self.items[i])
            } else {
                None
            },
            None => None,
        }
    }

    /// The position `index_by_title_id` finds.
    pub open spec fn index_by_title_id_spec(&self, title_id: Seq<char>) -> Option<usize> {
        if self.index().contains_key(title_id) {
            Some(self.index()[title_id] as usize)
        } else if self.index().contains_key(upper_seq(trim_seq(title_id))) {
            Some(self.index()[upper_seq(trim_seq(title_id))] as usize)
        } else {
            None
        }
    }

    /// Library entries for the catalogue's items.
    pub fn to_games(&self) -> (games: Vec<Game>)
        ensures
            games@.len() == items_with_id(self.items@).len(),
            forall|i: int| 0 <= i < games@.len() ==> item_game(items_with_id(self.items@)[i], #[trigger] games@[i]),
    {
        games_from_items(self.items.as_slice())
    }
}

/// Why a catalogue title cannot be downloaded.
#[derive(Debug, PartialEq, Eq)]
pub enum DownloadError {
    /// The title is not in the catalogue.
    NotInCatalog,
    /// No content id can be made for it.
    License(crate::licensing::LicenseError),
}

/// What is handed to the system's background downloader for a title.
pub struct DownloadPlan {
    pub name: String,
    pub url: String,
    /// Where its license is installed, when it has one.
    pub content_id: String,
    pub license: Option<Vec<u8>>,
}

/// What planning a download gives: an error when the title is not in the
/// catalogue or has no content id; otherwise the title's name and package
/// URL, its content id, and as its license the decoded license key when
/// there is one, else the stand-in license made for the content id.
pub open spec fn download_plan_spec(
    item: Option<&StoreItem>,
    title_id: Seq<char>,
    decoded_zrif: Option<Vec<u8>>,
    r: Result<DownloadPlan, DownloadError>,
) -> bool {
    match item {
        None => r matches Err(DownloadError::NotInCatalog),
        Some(it) => match crate::licensing::resolved_content_id(
            title_id,
            opt_view(it.content_id),
            vstd::utf8::encode_utf8(it.download_url@),
            opt_view(it.region),
        ) {
            Err(e) => r matches Err(DownloadError::License(f)) && f == e,
            Ok(c) => r matches Ok(plan) && {
                &&& plan.name@ == it.name@
                &&& plan.url@ == it.download_url@
                &&& plan.content_id@ == c
                &&& decoded_zrif is Some ==> plan.license == decoded_zrif
                &&& decoded_zrif is None ==> (plan.license matches Some(v) && v@
                    == crate::licensing::fake_license_spec(vstd::utf8::encode_utf8(c)))
            },
        },
    }
}

/// Plans the download of a catalogue title (`item`, as the catalogue found
/// it by its id).
pub fn download_plan(item: Option<&StoreItem>, title_id: &str, decoded_zrif: Option<Vec<u8>>) -> (r: Result<DownloadPlan, DownloadError>)
    requires
        item matches Some(it) ==> crate::licensing::windows_on_boundaries(vstd::utf8::encode_utf8(it.download_url@)),
    ensures
        download_plan_spec(item, title_id@, decoded_zrif, r),
{
    let it = match item {
        Some(it) => it,
        None => return Err(DownloadError::NotInCatalog),
    };
    let content_id = match &it.content_id {
        Some(c) => Some(c.as_str()),
        None => None,
    };
    let region = match &it.region {
        Some(g) => Some(g.as_str()),
        None => None,
    };
    proof {
        assert(crate::licensing::opt_str(content_id) == opt_view(it.content_id));
        assert(crate::licensing::opt_str(region) == opt_view(it.region));
    }
    match crate::licensing::resolve_content_id(title_id, content_id, it.download_url.as_str(), region) {
        Err(e) => Err(DownloadError::License(e)),
        Ok(cid) => {
            let license = crate::licensing::get_license(title_id, content_id, it.download_url.as_str(), decoded_zrif, region);
            Ok(DownloadPlan { name: it.name.clone(), url: it.download_url.clone(), content_id: cid, license })
        },
    }
}

/// What asking for a download comes to.
pub enum DownloadStep {
    /// The title was queued before this session: nothing is started again.
    AlreadyQueued,
    /// Hand this plan to the background downloader.
    Start(DownloadPlan),
    /// The title cannot be downloaded.
    Failed(DownloadError),
}

/// The key a queued download is remembered by: the title id trimmed and
/// upper-cased.
pub open spec fn download_key(title_id: Seq<char>) -> Seq<char> {
    upper_seq(trim_seq(title_id))
}

/// The downloads handed to the system this session, so that one is not
/// queued twice.
pub struct DownloadQueue {
    keys: Vec<String>,
}

impl DownloadQueue {
    /// The keys of the queued titles.
    pub closed spec fn queued(&self) -> Seq<Seq<char>> {
        views(self.keys@)
    }

    /// Nothing queued.
    pub fn new() -> (q: Self)
        ensures
            q.queued() == Seq::<Seq<char>>::empty(),
    {
        let q = DownloadQueue { keys: Vec::new() };
        proof {
            assert(views(q.keys@) =~= Seq::<Seq<char>>::empty());
        }
        q
    }

    /// Whether the title was already queued.
    pub fn is_queued(&self, title_id: &str) -> (b: bool)
        ensures
            b == self.queued().contains(download_key(title_id@)),
    {
        let key = to_ascii_uppercase(trim(title_id).as_str());
        crate::text::contains_string(&self.keys, key.as_str())
    }

    /// What to do when a download of the title is asked for: nothing when it
    /// is already queued; otherwise start the planned transfer, or report why
    /// it cannot be planned.
    pub fn request(&self, item: Option<&StoreItem>, title_id: &str, decoded_zrif: Option<Vec<u8>>) -> (r: DownloadStep)
        requires
            item matches Some(it) ==> crate::licensing::windows_on_boundaries(vstd::utf8::encode_utf8(it.download_url@)),
        ensures
            self.queued().contains(download_key(title_id@)) ==> r is AlreadyQueued,
            !self.queued().contains(download_key(title_id@)) ==> match r {
                DownloadStep::AlreadyQueued => false,
                DownloadStep::Start(plan) => download_plan_spec(item, title_id@, decoded_zrif, Ok(plan)),
                DownloadStep::Failed(e) => download_plan_spec(item, title_id@, decoded_zrif, Err(e)),
            },
    {
        if self.is_queued(title_id) {
            return DownloadStep::AlreadyQueued;
        }
        match download_plan(item, title_id, decoded_zrif) {
            Ok(plan) => DownloadStep::Start(plan),
            Err(e) => DownloadStep::Failed(e),
        }
    }

    /// Records that the title was queued.
    pub fn mark_queued(&mut self, title_id: &str)
        ensures
            final(self).queued() == old(self).queued().push(download_key(title_id@)),
    {
        let key = to_ascii_uppercase(trim(title_id).as_str());
        let ghost k0 = self.keys@;
        self.keys.push(key);
        proof {
            crate::text::lemma_views_push(k0, self.keys@.last());
        }
    }
}

proof fn lemma_find_from_at(hay: Seq<char>, n: Seq<char>, i: int, m: int)
    requires
        0 <= i <= m,
        occurs_at(hay, n, m),
        forall|k: int| i <= k < m ==> !#[trigger] occurs_at(hay, n, k),
    ensures
        find_from(hay, n, i) == m,
    decreases m - i,
{
    if i < m {
        lemma_find_from_at(hay, n, i + 1, m);
    }
}

proof fn lemma_find_from_none(hay: Seq<char>, n: Seq<char>, i: int)
    requires
        0 <= i,
        forall|k: int| i <= k ==> !#[trigger] occurs_at(hay, n, k),
    ensures
        find_from(hay, n, i) == -1,
    decreases hay.len() + 1 - i,
{
    if i + n.len() <= hay.len() {
        lemma_find_from_none(hay, n, i + 1);
    }
}

/// A needle that ends in `/` found in `a + b`, where `b` has no `/`, lies
/// within `a`.
proof fn lemma_slash_needle(a: Seq<char>, b: Seq<char>, n: Seq<char>)
    requires
        n.len() > 0,
        n.last() == '/',
        forall|i: int| 0 <= i < b.len() ==> b[i] != '/',
    ensures
        contains_seq(a + b, n) == contains_seq(a, n),
{
    if contains_seq(a + b, n) {
        let k = choose|k: int| occurs_at(a + b, n, k);
        let e = k + n.len() - 1;
        assert((a + b).subrange(k, k + n.len())[n.len() - 1] == n.last());
        assert((a + b)[e] == '/');
        if e >= a.len() {
            assert((a + b)[e] == b[e - a.len()]);
        }
        assert((a + b).subrange(k, k + n.len()) =~= a.subrange(k, k + n.len()));
        assert(occurs_at(a, n, k));
    }
    if contains_seq(a, n) {
        let k = choose|k: int| occurs_at(a, n, k);
        assert((a + b).subrange(k, k + n.len()) =~= a.subrange(k, k + n.len()));
        assert(occurs_at(a + b, n, k));
    }
}

proof fn lemma_trim_end_prefix(s: Seq<char>)
    ensures
        trim_end_seq(s).len() <= s.len(),
        trim_end_seq(s) == s.take(trim_end_seq(s).len() as int),
        trim_end_seq(s).len() > 0 ==> !is_ws(trim_end_seq(s).last()),
    decreases s.len(),
{
    if s.len() > 0 && is_ws(s.last()) {
        lemma_trim_end_prefix(s.drop_last());
        assert(s.drop_last().take(trim_end_seq(s).len() as int) =~= s.take(trim_end_seq(s).len() as int));
    } else {
        assert(s.take(s.len() as int) =~= s);
    }
}

proof fn lemma_trim_start_first(s: Seq<char>)
    ensures
        trim_start_seq(s).len() > 0 ==> !is_ws(trim_start_seq(s)[0]),
    decreases s.len(),
{
    if s.len() > 0 && is_ws(s[0]) {
        lemma_trim_start_first(s.drop_first());
    }
}

/// A trimmed text neither starts nor ends with white space.
proof fn lemma_trim_ends(s: Seq<char>)
    ensures
        trim_seq(s).len() > 0 ==> !is_ws(trim_seq(s)[0]) && !is_ws(trim_seq(s).last()),
{
    let u = trim_start_seq(s);
    lemma_trim_start_first(s);
    lemma_trim_end_prefix(u);
    if trim_seq(s).len() > 0 {
        assert(trim_seq(s)[0] == u.take(trim_seq(s).len() as int)[0]);
    }
}

/// Making an already absolute service URL absolute again changes nothing,
/// whenever the URL built from the path has no `format=` parameter yet (so
/// in particular for every path without one); the result names its scheme.
pub proof fn law_absolute_url_idempotent(path: Seq<char>)
    requires
        !contains_seq(joined_url(path), "format="@),
    ensures
        absolute_url_spec(absolute_url_spec(path)) == absolute_url_spec(path),
        has_scheme(absolute_url_spec(path)),
{
    reveal_strlit("http://");
    reveal_strlit("https://");
    reveal_strlit("https://vitaforge.josephinoo.dev");
    reveal_strlit("/");
    reveal_strlit("format=");
    reveal_strlit("png");
    reveal_strlit("jpeg");
    reveal_strlit("?");
    reveal_strlit("&");
    reveal_strlit("/images/");
    reveal_strlit("/images/icon/");
    reveal_strlit("/scraped_assets/");
    let t = trim_seq(path);
    let j = joined_url(path);
    lemma_trim_ends(path);
    // The joined URL names its scheme and does not end in white space.
    if !has_scheme(t) {
        assert(origin().take(8) =~= "https://"@);
        assert(j.len() >= 8);
        assert(j.take(8) =~= origin().take(8));
    }
    assert(has_scheme(j));
    assert(j.len() > 0 && !is_ws(j[0])) by {
        if has_scheme(t) {
            assert(t[0] == t.take(7)[0]);
        } else {
            assert(j[0] == origin()[0]);
        }
    }
    assert(!is_ws(j.last())) by {
        if has_scheme(t) {
        } else if t.len() > 0 {
            assert(j.last() == t.last());
        } else {
            assert(j.last() == '/');
        }
    }
    let r1 = force_format_spec(j);
    if contains_seq(j, "/scraped_assets/"@) || !contains_seq(j, "/images/"@) {
        assert(r1 == j);
        assert(trim_start_seq(j) == j);
        assert(trim_end_seq(j) == j);
        assert(joined_url(r1) == r1);
    } else {
        let w = image_format_for(j);
        let sep: Seq<char> = if contains_seq(j, "?"@) { "&"@ } else { "?"@ };
        let tail = sep + "format="@ + w;
        lemma_find_from_none(j, "format="@, 0);
        assert(r1 == j + tail);
        assert forall|i: int| 0 <= i < tail.len() implies tail[i] != '/' by {
            if i == 0 {
                assert(tail[0] == sep[0]);
            } else if i < 8 {
                assert(tail[i] == "format="@[i - 1]);
            } else {
                assert(tail[i] == w[i - 8]);
            }
        }
        lemma_slash_needle(j, tail, "/scraped_assets/"@);
        lemma_slash_needle(j, tail, "/images/"@);
        lemma_slash_needle(j, tail, "/images/icon/"@);
        assert(image_format_for(r1) == w);
        // r1 starts like j and ends with the format's last letter.
        assert(r1[0] == j[0]);
        assert(r1.take(8) =~= j.take(8) || r1.take(7) =~= j.take(7));
        assert(has_scheme(r1)) by {
            if j.len() >= 8 && j.take(8) == "https://"@ {
                assert(r1.take(8) =~= j.take(8));
            } else {
                assert(r1.take(7) =~= j.take(7));
            }
        }
        assert(r1.last() == w.last());
        assert(trim_start_seq(r1) == r1);
        assert(trim_end_seq(r1) == r1);
        assert(joined_url(r1) == r1);
        // The first `format=` of r1 is the one just added.
        let m: int = j.len() as int + 1;
        assert(occurs_at(r1, "format="@, m)) by {
            assert(r1.subrange(m, m + 7) =~= "format="@);
        }
        assert forall|k: int| 0 <= k < m implies !#[trigger] occurs_at(r1, "format="@, k) by {
            if occurs_at(r1, "format="@, k) {
                if k + 7 <= j.len() {
                    assert(r1.subrange(k, k + 7) =~= j.subrange(k, k + 7));
                    assert(occurs_at(j, "format="@, k));
                } else {
                    let d = j.len() - k;
                    assert(r1.subrange(k, k + 7)[d] == r1[j.len() as int]);
                    assert(r1[j.len() as int] == sep[0]);
                }
            }
        }
        lemma_find_from_at(r1, "format="@, 0, m);
        let vs: int = m + 7;
        assert(r1.skip(vs) =~= w);
        assert forall|k: int| 0 <= k implies !#[trigger] occurs_at(r1.skip(vs), "&"@, k) by {
            if occurs_at(r1.skip(vs), "&"@, k) {
                assert(r1.skip(vs).subrange(k, k + 1)[0] == '&');
                assert(w[k] == '&');
            }
        }
        lemma_find_from_none(r1.skip(vs), "&"@, 0);
        assert(r1.take(vs) + w + r1.skip(r1.len() as int) =~= r1);
    }
}

proof fn lemma_origin_chars()
    ensures
        forall|x: int| 0 <= x < origin().len() ==> origin()[x] != '=',
        forall|x: int| origin().len() - 7 < x < origin().len() ==> origin()[x] != 'f',
        origin().len() == 32,
{
    reveal_strlit("https://vitaforge.josephinoo.dev");
}

proof fn lemma_trim_start_suffix(s: Seq<char>) -> (k: int)
    ensures
        0 <= k <= s.len(),
        trim_start_seq(s) == s.skip(k),
    decreases s.len(),
{
    if s.len() > 0 && is_ws(s[0]) {
        let k1 = lemma_trim_start_suffix(s.drop_first());
        assert(s.drop_first().skip(k1) =~= s.skip(k1 + 1));
        k1 + 1
    } else {
        assert(s.skip(0) =~= s);
        0
    }
}

/// A path without a `format=` parameter joins into a URL without one.
proof fn lemma_join_keeps_no_format(path: Seq<char>)
    requires
        !contains_seq(path, "format="@),
    ensures
        !contains_seq(joined_url(path), "format="@),
{
    reveal_strlit("format=");
    reveal_strlit("/");
    let f = "format="@;
    let k = lemma_trim_start_suffix(path);
    let u = trim_start_seq(path);
    lemma_trim_end_prefix(u);
    let t = trim_seq(path);
    assert(!contains_seq(t, f)) by {
        if contains_seq(t, f) {
            let i = choose|i: int| occurs_at(t, f, i);
            assert(path.subrange(k + i, k + i + 7) =~= t.subrange(i, i + 7));
            assert(occurs_at(path, f, k + i));
        }
    }
    if !has_scheme(t) {
        lemma_origin_chars();
        let pre = if t.len() > 0 && t[0] == '/' { origin() } else { origin() + "/"@ };
        let j = joined_url(path);
        assert(j == pre + t);
        assert forall|x: int| 0 <= x < pre.len() implies pre[x] != '=' by {
            if x < 32 {
                assert(pre[x] == origin()[x]);
            }
        }
        if contains_seq(j, f) {
            let i = choose|i: int| occurs_at(j, f, i);
            assert(j.subrange(i, i + 7)[0] == j[i]);
            assert(j.subrange(i, i + 7)[6] == j[i + 6]);
            if i >= pre.len() {
                assert(t.subrange(i - pre.len(), i - pre.len() + 7) =~= j.subrange(i, i + 7));
                assert(occurs_at(t, f, i - pre.len()));
            } else if i + 6 < pre.len() {
                assert(j[i + 6] == pre[i + 6]);
            } else {
                assert(j[i] == pre[i]);
                if i < 32 {
                    assert(pre[i] == origin()[i]);
                }
            }
        }
    }
}

/// Making a service URL absolute a second time changes nothing, for every
/// path without a `format=` parameter.
pub proof fn law_absolute_url_idempotent_plain(path: Seq<char>)
    requires
        !contains_seq(path, "format="@),
    ensures
        absolute_url_spec(absolute_url_spec(path)) == absolute_url_spec(path),
        has_scheme(absolute_url_spec(path)),
{
    lemma_join_keeps_no_format(path);
    law_absolute_url_idempotent(path);
}

/// A title whose download was started is never queued a second time: once
/// its key is recorded, asking again for it, under any spelling that trims
/// and upper-cases to the same id, finds it queued.
pub proof fn law_download_queued_once(queued: Seq<Seq<char>>, first: Seq<char>, again: Seq<char>)
    requires
        download_key(again) == download_key(first),
    ensures
        queued.push(download_key(first)).contains(download_key(again)),
{
    assert(queued.push(download_key(first))[queued.len() as int] == download_key(again));
}

} // verus!
