use vstd::prelude::*;
use vstd::string::StringSliceAdditionalSpecFns;

use crate::scanner::{Game, System, after_last};
use crate::store::{has_prefix, opt_view, utf8_len};
use crate::text::{
    chars_of, concat, contains_seq, ends_with, lower_seq, push_str, starts_with, str_contains, str_equal, string_of,
    to_ascii_lowercase_string, to_lowercase, unicode_lower,
};

verus! {

/// Artwork to fetch for one game.
pub struct ArtJob {
    pub title_id: String,
    pub art_key: String,
    pub title: String,
    pub system: System,
    pub known_cover_url: Option<String>,
    pub known_screenshot_url: Option<String>,
    pub known_logo_url: Option<String>,
    pub known_music_url: Option<String>,
}

/// Encoded image bytes and whether they are PNG (otherwise JPEG).
#[derive(Clone)]
pub struct ImageData {
    pub is_png: bool,
    pub bytes: Vec<u8>,
}

/// What fetching artwork for a game produced.
pub struct ArtResult {
    pub title_id: String,
    pub cover: Option<ImageData>,
    pub hero: Option<ImageData>,
    pub logo: Option<ImageData>,
    pub music_downloaded: bool,
    pub error: Option<String>,
    pub job_complete: bool,
    pub images_ok: bool,
}

/// What the artwork service knows of a game.
#[derive(Clone)]
pub struct LookupResult {
    pub is_game: bool,
    pub canonical_title: Option<String>,
    pub cover_url: Option<String>,
    pub screenshot_url: Option<String>,
    pub logo_url: Option<String>,
    pub music_url: Option<String>,
}

/// A game to look up at the artwork service.
pub struct LookupTarget {
    pub art_key: String,
    pub title_id: String,
    pub title: String,
    pub system: System,
}

impl LookupTarget {
    /// The lookup target for a library game.
    pub fn from_game(game: &Game) -> (t: Self)
        ensures
            t.art_key@ == game.art_key@,
            t.title_id@ == game.title_id@,
            t.title@ == game.title@,
            t.system == game.system,
    {
        LookupTarget {
            art_key: game.art_key.clone(),
            title_id: game.title_id.clone(),
            title: game.title.clone(),
            system: game.system,
        }
    }
}

/// JPEG data starts with `FF D8 FF`.
pub open spec fn is_jpeg_spec(b: Seq<u8>) -> bool {
    b.len() >= 3 && b[0] == 0xFFu8 && b[1] == 0xD8u8 && b[2] == 0xFFu8
}

/// PNG data starts with the eight-byte PNG signature.
pub open spec fn is_png_spec(b: Seq<u8>) -> bool {
    b.len() >= 8 && b[0] == 0x89u8 && b[1] == 0x50u8 && b[2] == 0x4Eu8 && b[3] == 0x47u8 && b[4] == 0x0Du8
        && b[5] == 0x0Au8 && b[6] == 0x1Au8 && b[7] == 0x0Au8
}

/// Whether bytes start like a JPEG file.
pub fn is_jpeg(bytes: &[u8]) -> (r: bool)
    ensures
        r == is_jpeg_spec(bytes@),
{
    bytes.len() >= 3 && bytes[0] == 0xFF && bytes[1] == 0xD8 && bytes[2] == 0xFF
}

/// Whether bytes start like a PNG file.
pub fn is_png(bytes: &[u8]) -> (r: bool)
    ensures
        r == is_png_spec(bytes@),
{
    bytes.len() >= 8 && bytes[0] == 0x89 && bytes[1] == 0x50 && bytes[2] == 0x4E && bytes[3] == 0x47
        && bytes[4] == 0x0D && bytes[5] == 0x0A && bytes[6] == 0x1A && bytes[7] == 0x0A
}

/// An asset path of the artwork service made absolute on `api_base`.
pub open spec fn asset_url_spec(api_base: Seq<char>, path: Seq<char>) -> Seq<char> {
    if has_prefix(path, "http://"@) || has_prefix(path, "https://"@) {
        path
    } else {
        api_base + "/assets/"@ + strip_leading_slashes(path)
    }
}

/// `s` without leading `/`s.
pub open spec fn strip_leading_slashes(s: Seq<char>) -> Seq<char>
    decreases s.len(),
{
    if s.len() > 0 && s[0] == '/' {
        strip_leading_slashes(s.drop_first())
    } else {
        s
    }
}

proof fn lemma_strip_skip(s: Seq<char>, i: int)
    requires
        0 <= i <= s.len(),
        forall|j: int| 0 <= j < i ==> s[j] == '/',
    ensures
        strip_leading_slashes(s) == strip_leading_slashes(s.skip(i)),
    decreases i,
{
    if i > 0 {
        assert(s.drop_first().skip(i - 1) =~= s.skip(i));
        lemma_strip_skip(s.drop_first(), i - 1);
    } else {
        assert(s.skip(0) =~= s);
    }
}

/// An asset path of the artwork service made absolute on `api_base`.
pub fn asset_url(api_base: &str, path: &str) -> (r: String)
    ensures
        r@ == asset_url_spec(api_base@, path@),
{
    proof {
        reveal_strlit("http://");
        reveal_strlit("https://");
        if path@.len() >= 8 {
            assert(path@.take(8) =~= path@.subrange(0, 8));
        }
        if path@.len() >= 7 {
            assert(path@.take(7) =~= path@.subrange(0, 7));
        }
    }
    if starts_with(path, "http://") || starts_with(path, "https://") {
        return path.to_owned();
    }
    let v = chars_of(path);
    let mut i: usize = 0;
    while i < v.len() && v[i] == '/'
        invariant
            v@ == path@,
            i <= v@.len(),
            forall|j: int| 0 <= j < i ==> v@[j] == '/',
        decreases v@.len() - i,
    {
        i = i + 1;
    }
    proof {
        lemma_strip_skip(v@, i as int);
        if i < v.len() {
            assert(v@.skip(i as int)[0] != '/');
        }
        assert(strip_leading_slashes(v@.skip(i as int)) == v@.skip(i as int));
    }
    let mut r = concat(api_base, "/assets/");
    let mut j = i;
    let ghost r0 = r@;
    while j < v.len()
        invariant
            i <= j <= v@.len(),
            r@ == r0 + v@.subrange(i as int, j as int),
        decreases v@.len() - j,
    {
        r.push(v[j]);
        proof {
            assert(r@ =~= r0 + v@.subrange(i as int, j as int + 1));
        }
        j = j + 1;
    }
    proof {
        assert(v@.subrange(i as int, j as int) =~= v@.skip(i as int));
    }
    r
}

/// One step of the FNV-1a hash.
pub open spec fn fnv_step(h: u64, b: u8) -> u64 {
    vstd::wrapping::u64_specs::wrapping_mul(h ^ (b as u64), 0x100000001b3u64)
}

/// FNV-1a over a run of bytes, from `h`.
pub open spec fn fnv_bytes(h: u64, b: Seq<u8>) -> u64
    decreases b.len(),
{
    if b.len() == 0 {
        h
    } else {
        fnv_step(fnv_bytes(h, b.drop_last()), b.last())
    }
}

/// The seed of the lookup cache checksum: the FNV offset basis mixed with
/// the cache format version.
pub open spec fn checksum_seed() -> u64 {
    0xcbf29ce484222325u64 ^ 0x0A00u64
}

/// The checksum over the games' artwork keys and title ids, in order.
pub open spec fn checksum_spec(games: Seq<LookupTarget>) -> u64
    decreases games.len(),
{
    if games.len() == 0 {
        checksum_seed()
    } else {
        let g = games.last();
        fnv_bytes(
            fnv_bytes(checksum_spec(games.drop_last()), vstd::utf8::encode_utf8(g.art_key@)),
            vstd::utf8::encode_utf8(g.title_id@),
        )
    }
}

fn fnv_over(h: u64, s: &str) -> (r: u64)
    ensures
        r == fnv_bytes(h, s.spec_bytes()),
{
    let b = s.as_bytes();
    let mut out = h;
    let mut i: usize = 0;
    while i < b.len()
        invariant
            i <= b@.len(),
            out == fnv_bytes(h, b@.take(i as int)),
        decreases b@.len() - i,
    {
        proof {
            assert(b@.take(i as int + 1).drop_last() =~= b@.take(i as int));
        }
        out = (out ^ (b[i] as u64)).wrapping_mul(0x100000001b3);
        i = i + 1;
    }
    proof {
        assert(b@.take(i as int) =~= b@);
    }
    out
}

/// A checksum over the games' artwork keys and title ids, so that a cached
/// lookup is only reused for the same library.
pub fn games_checksum(games: &[LookupTarget]) -> (h: u64)
    ensures
        h == checksum_spec(games@),
{
    let mut h: u64 = 0xcbf29ce484222325u64 ^ 0x0A00u64;
    let mut i: usize = 0;
    while i < games.len()
        invariant
            i <= games@.len(),
            h == checksum_spec(games@.take(i as int)),
        decreases games@.len() - i,
    {
        proof {
            assert(games@.take(i as int + 1).drop_last() =~= games@.take(i as int));
        }
        h = fnv_over(h, games[i].art_key.as_str());
        h = fnv_over(h, games[i].title_id.as_str());
        i = i + 1;
    }
    proof {
        assert(games@.take(i as int) =~= games@);
    }
    h
}

/// Whether an asset path names a Vita-specific variant: its file name
/// contains `_vita.`.
pub open spec fn path_is_vita_spec(path: Seq<char>) -> bool {
    contains_seq(after_last(path, '/'), "_vita."@)
}

/// Whether an asset path names a Vita-specific variant.
pub fn path_is_vita(path: &str) -> (b: bool)
    ensures
        b == path_is_vita_spec(path@),
{
    let v = chars_of(path);
    let mut i = v.len();
    while i > 0 && v[i - 1] != '/'
        invariant
            v@ == path@,
            i <= v@.len(),
            forall|j: int| i <= j < v@.len() ==> v@[j] != '/',
        decreases i,
    {
        i = i - 1;
    }
    proof {
        lemma_after_last(v@, i as int);
    }
    let mut name: Vec<char> = Vec::new();
    let mut j = i;
    while j < v.len()
        invariant
            i <= j <= v@.len(),
            name@ == v@.subrange(i as int, j as int),
        decreases v@.len() - j,
    {
        name.push(v[j]);
        proof {
            assert(name@ =~= v@.subrange(i as int, j as int + 1));
        }
        j = j + 1;
    }
    let n = string_of(name.as_slice());
    proof {
        assert(n@ =~= after_last(path@, '/'));
    }
    str_contains(n.as_str(), "_vita.")
}

proof fn lemma_after_last(s: Seq<char>, i: int)
    requires
        0 <= i <= s.len(),
        i > 0 ==> s[i - 1] == '/',
        forall|j: int| i <= j < s.len() ==> s[j] != '/',
    ensures
        after_last(s, '/') == s.skip(i),
    decreases s.len() - i,
{
    crate::scanner::lemma_last_index_of_pub(s, '/');
    if i > 0 {
        assert(crate::scanner::last_index_of(s, '/') == i - 1);
    } else {
        assert(crate::scanner::last_index_of(s, '/') == -1);
        assert(s.skip(0) =~= s);
    }
}

/// Which image format a variant choice prefers.
#[derive(Clone, Copy, PartialEq, Eq, Structural, Debug)]
pub enum PreferFormat {
    Jpeg,
    Png,
}

/// How far an asset's format is from the preferred one (0 is best).
pub open spec fn format_penalty_spec(path: Seq<char>, prefer: PreferFormat) -> u8 {
    let l = lower_seq(path);
    let jpg = ends_seq(l, ".jpg"@) || ends_seq(l, ".jpeg"@);
    let png = ends_seq(l, ".png"@);
    match prefer {
        PreferFormat::Jpeg => if jpg {
            0
        } else if png {
            1
        } else {
            2
        },
        PreferFormat::Png => if png {
            0
        } else if jpg {
            3
        } else {
            2
        },
    }
}

/// `p` ends `s`.
pub open spec fn ends_seq(s: Seq<char>, p: Seq<char>) -> bool {
    p.len() <= s.len() && s.skip(s.len() - p.len()) == p
}

/// How far an asset's format is from the preferred one (0 is best).
pub fn format_penalty(path: &str, prefer: PreferFormat) -> (p: u8)
    ensures
        p == format_penalty_spec(path@, prefer),
{
    let lower = to_ascii_lowercase_string(path);
    let l = lower.as_str();
    let jpg = ends_with(l, ".jpg") || ends_with(l, ".jpeg");
    let png = ends_with(l, ".png");
    match prefer {
        PreferFormat::Jpeg => if jpg {
            0
        } else if png {
            1
        } else {
            2
        },
        PreferFormat::Png => if png {
            0
        } else if jpg {
            3
        } else {
            2
        },
    }
}

/// The characters kept as they are in a URL query.
pub open spec fn url_unreserved(b: u8) -> bool {
    (0x41 <= b && b <= 0x5a) || (0x61 <= b && b <= 0x7a) || (0x30 <= b && b <= 0x39) || b == 0x2d || b == 0x5f
        || b == 0x2e || b == 0x7e
}

/// An upper-case hexadecimal digit.
pub open spec fn hex_digit(n: u8) -> char {
    if n < 10 {
        (('0' as u8) + n) as char
    } else {
        (('A' as u8) + n - 10) as char
    }
}

/// The URL encoding of some bytes: unreserved bytes as they are, spaces as
/// `%20`, others as `%XX`.
pub open spec fn url_encode_bytes(b: Seq<u8>) -> Seq<char>
    decreases b.len(),
{
    if b.len() == 0 {
        Seq::empty()
    } else {
        let p = url_encode_bytes(b.drop_last());
        let x = b.last();
        if url_unreserved(x) {
            p.push(x as char)
        } else if x == 0x20 {
            p + "%20"@
        } else {
            p + seq!['%', hex_digit(x / 16), hex_digit(x % 16)]
        }
    }
}

fn hex_char(n: u8) -> (c: char)
    requires
        n < 16,
    ensures
        c == hex_digit(n),
{
    if n < 10 {
        (48u8 + n) as char
    } else {
        (55u8 + n) as char
    }
}

/// The URL encoding of a text's UTF-8 bytes.
pub fn url_encode(s: &str) -> (r: String)
    ensures
        r@ == url_encode_bytes(s.spec_bytes()),
{
    let b = s.as_bytes();
    let mut r = String::new();
    let mut i: usize = 0;
    while i < b.len()
        invariant
            i <= b@.len(),
            r@ == url_encode_bytes(b@.take(i as int)),
        decreases b@.len() - i,
    {
        proof {
            assert(b@.take(i as int + 1).drop_last() =~= b@.take(i as int));
            reveal_strlit("%20");
        }
        let x = b[i];
        let ghost r0 = r@;
        if (0x41 <= x && x <= 0x5a) || (0x61 <= x && x <= 0x7a) || (0x30 <= x && x <= 0x39) || x == 0x2d || x
            == 0x5f || x == 0x2e || x == 0x7e {
            r.push(x as char);
        } else if x == 0x20 {
            push_str(&mut r, "%20");
        } else {
            r.push('%');
            r.push(hex_char(x / 16));
            r.push(hex_char(x % 16));
            proof {
                assert(r@ =~= r0 + seq!['%', hex_digit(x / 16), hex_digit(x % 16)]);
            }
        }
        i = i + 1;
    }
    proof {
        assert(b@.take(i as int) =~= b@);
    }
    r
}

/// Words longer than two bytes.
pub open spec fn long_words(w: Seq<Seq<char>>) -> Seq<Seq<char>> {
    w.filter(|x: Seq<char>| utf8_len(x) > 2)
}

/// Whether two lower-cased titles name the same game: equal, one inside the
/// other, or sharing at least half (rounded up) of the longer words of the
/// one with fewer.
pub open spec fn title_match_spec(t: Seq<char>, c: Seq<char>) -> bool {
    if t.len() == 0 || c.len() == 0 {
        false
    } else if t == c || contains_seq(t, c) || contains_seq(c, t) {
        true
    } else {
        let tw = long_words(crate::net::ws_words(t));
        let cw = long_words(crate::net::ws_words(c));
        let m = tw.filter(|w: Seq<char>| cw.contains(w)).len();
        let least = if tw.len() < cw.len() {
            tw.len()
        } else {
            cw.len()
        };
        tw.len() > 0 && cw.len() > 0 && m >= (least + 1) / 2
    }
}

fn long_words_exec(v: &Vec<String>) -> (r: Vec<String>)
    ensures
        crate::text::views(r@) == long_words(crate::text::views(v@)),
{
    let mut r: Vec<String> = Vec::new();
    let mut i: usize = 0;
    while i < v.len()
        invariant
            i <= v@.len(),
            crate::text::views(r@) == long_words(crate::text::views(v@).take(i as int)),
        decreases v@.len() - i,
    {
        proof {
            reveal(Seq::filter);
            assert(crate::text::views(v@).take(i as int + 1).drop_last() =~= crate::text::views(v@).take(i as int));
            assert(crate::text::views(v@).take(i as int + 1).last() == v@[i as int]@);
            lemma_utf8_len_bytes(v@[i as int]@);
        }
        let wc = chars_of(v[i].as_str());
        if crate::library::utf8_len_exec(&wc) > 2 {
            proof {
                vstd::utf8::encode_utf8_decode_utf8(v@[i as int]@);
                lemma_utf8_len_bytes(v@[i as int]@);
            }
            let ghost r0 = r@;
            r.push(v[i].clone());
            proof {
                crate::text::lemma_views_push(r0, v@[i as int]);
                assert(long_words(crate::text::views(v@).take(i as int + 1)) == long_words(crate::text::views(v@).take(i as int)).push(v@[i as int]@));
            }
        } else {
            proof {
                lemma_utf8_len_bytes(v@[i as int]@);
                assert(long_words(crate::text::views(v@).take(i as int + 1)) == long_words(crate::text::views(v@).take(i as int)));
            }
        }
        i = i + 1;
    }
    proof {
        assert(crate::text::views(v@).take(i as int) =~= crate::text::views(v@));
    }
    r
}

/// The UTF-8 byte count of a text is its encoding's length.
proof fn lemma_utf8_len_bytes(s: Seq<char>)
    ensures
        utf8_len(s) == vstd::utf8::encode_utf8(s).len(),
    decreases s.len(),
{
    if s.len() > 0 {
        lemma_utf8_len_bytes(s.drop_first());
        lemma_utf8_len_front(s);
        vstd::utf8::char_is_scalar(s[0]);
    }
}

/// The UTF-8 byte count splits off the first character.
proof fn lemma_utf8_len_front(s: Seq<char>)
    requires
        s.len() > 0,
    ensures
        utf8_len(s) == crate::store::utf8_width(s[0]) + utf8_len(s.drop_first()),
    decreases s.len(),
{
    if s.len() > 1 {
        lemma_utf8_len_front(s.drop_last());
        assert(s.drop_last().drop_first() =~= s.drop_first().drop_last());
        assert(s.drop_first().last() == s.last());
        assert(s.drop_last()[0] == s[0]);
        assert(utf8_len(s.drop_first()) == utf8_len(s.drop_first().drop_last()) + crate::store::utf8_width(s.drop_first().last()));
    } else {
        assert(s.drop_first().len() == 0);
        assert(s.drop_last().len() == 0);
        assert(s.last() == s[0]);
        assert(utf8_len(s.drop_last()) == 0);
        assert(utf8_len(s.drop_first()) == 0);
    }
}

fn contains_word(v: &Vec<String>, w: &str) -> (b: bool)
    ensures
        b == crate::text::views(v@).contains(w@),
{
    crate::text::contains_string(v, w)
}

/// Whether two lower-cased titles name the same game.
pub fn title_match_decision(t: &str, c: &str) -> (b: bool)
    ensures
        b == title_match_spec(t@, c@),
{
    if t.is_empty() || c.is_empty() {
        return false;
    }
    if str_equal(t, c) || str_contains(t, c) || str_contains(c, t) {
        return true;
    }
    let tw = long_words_exec(&crate::net::ws_split(t));
    let cw = long_words_exec(&crate::net::ws_split(c));
    if tw.len() == 0 || cw.len() == 0 {
        return false;
    }
    let ghost tv = crate::text::views(tw@);
    let ghost cv = crate::text::views(cw@);
    let mut m: usize = 0;
    let mut i: usize = 0;
    while i < tw.len()
        invariant
            i <= tw@.len(),
            tv == crate::text::views(tw@),
            cv == crate::text::views(cw@),
            m == tv.take(i as int).filter(|w: Seq<char>| cv.contains(w)).len(),
            m <= i,
        decreases tw@.len() - i,
    {
        proof {
            reveal(Seq::filter);
            assert(tv.take(i as int + 1).drop_last() =~= tv.take(i as int));
            assert(tv.take(i as int + 1).last() == tw@[i as int]@);
        }
        if contains_word(&cw, tw[i].as_str()) {
            m = m + 1;
        }
        i = i + 1;
    }
    proof {
        assert(tv.take(i as int) =~= tv);
    }
    let least = if tw.len() < cw.len() {
        tw.len()
    } else {
        cw.len()
    };
    m as u128 >= (least as u128 + 1) / 2
}

/// Whether an artwork service title matches the title looked for, both
/// lower-cased first.
pub fn is_title_match(target: &str, candidate: &str) -> (b: bool)
    ensures
        b == title_match_spec(unicode_lower(target@), unicode_lower(candidate@)),
{
    let t = to_lowercase(target);
    let c = to_lowercase(candidate);
    title_match_decision(t.as_str(), c.as_str())
}

/// Variant paths that are neither WebP nor AVIF (which the launcher cannot show).
pub open spec fn usable_variant(p: Seq<char>) -> bool {
    !ends_seq(lower_seq(p), ".webp"@) && !ends_seq(lower_seq(p), ".avif"@)
}

/// How to pick among an asset's variants: none usable; one chosen without
/// looking further; or measure the sizes of these (URL, format penalty)
/// candidates, falling back to the first.
#[derive(Debug, Clone)]
pub enum VariantPlan {
    NoCandidate,
    Chosen(String),
    Measure(Vec<(String, u8)>),
}

/// The first Vita variant among those with the smallest format penalty.
pub open spec fn best_vita(c: Seq<Seq<char>>, prefer: PreferFormat, i: int) -> bool {
    &&& 0 <= i < c.len()
    &&& path_is_vita_spec(c[i])
    &&& forall|j: int| 0 <= j < c.len() && path_is_vita_spec(c[j]) ==> format_penalty_spec(c[i], prefer) <= format_penalty_spec(#[trigger] c[j], prefer)
    &&& forall|j: int| 0 <= j < i && path_is_vita_spec(c[j]) ==> format_penalty_spec(c[i], prefer) < format_penalty_spec(#[trigger] c[j], prefer)
}

/// Decides how to pick among an asset's variants, before any size is
/// measured: usable variants only; a Vita variant wins (smallest format
/// penalty, first among equals); a single variant is taken as it is.
pub fn plan_variant(api_base: &str, paths: &[String], prefer: PreferFormat) -> (plan: VariantPlan)
    ensures
        ({
            let c = crate::text::views(paths@).filter(|p: Seq<char>| usable_variant(p));
            match plan {
                VariantPlan::NoCandidate => c.len() == 0,
                VariantPlan::Chosen(u) => c.len() > 0 && ((exists|i: int| best_vita(c, prefer, i) && u@ == asset_url_spec(api_base@, c[i]))
                    || ((forall|j: int| 0 <= j < c.len() ==> !path_is_vita_spec(#[trigger] c[j])) && c.len() == 1 && u@ == asset_url_spec(api_base@, c[0]))),
                VariantPlan::Measure(m) => c.len() > 1 && (forall|j: int| 0 <= j < c.len() ==> !path_is_vita_spec(#[trigger] c[j]))
                    && m@.len() == c.len() && forall|j: int| 0 <= j < c.len() ==> (#[trigger] m@[j]).0@ == asset_url_spec(api_base@, c[j])
                    && m@[j].1 == format_penalty_spec(c[j], prefer),
            }
        }),
{
    let ghost all = crate::text::views(paths@);
    let mut cands: Vec<String> = Vec::new();
    let mut i: usize = 0;
    while i < paths.len()
        invariant
            i <= paths@.len(),
            all == crate::text::views(paths@),
            crate::text::views(cands@) == all.take(i as int).filter(|p: Seq<char>| usable_variant(p)),
        decreases paths@.len() - i,
    {
        proof {
            reveal(Seq::filter);
            assert(all.take(i as int + 1).drop_last() =~= all.take(i as int));
            assert(all.take(i as int + 1).last() == paths@[i as int]@);
        }
        let lower = to_ascii_lowercase_string(paths[i].as_str());
        if !ends_with(lower.as_str(), ".webp") && !ends_with(lower.as_str(), ".avif") {
            let ghost c0 = cands@;
            cands.push(paths[i].clone());
            proof {
                crate::text::lemma_views_push(c0, paths@[i as int]);
            }
        }
        i = i + 1;
    }
    proof {
        assert(all.take(i as int) =~= all);
    }
    let ghost c = crate::text::views(cands@);
    if cands.len() == 0 {
        return VariantPlan::NoCandidate;
    }
    let mut best: Option<(usize, u8)> = None;
    let mut k: usize = 0;
    while k < cands.len()
        invariant
            k <= cands@.len(),
            c == crate::text::views(cands@),
            match best {
                None => forall|j: int| 0 <= j < k ==> !path_is_vita_spec(#[trigger] c[j]),
                Some((b, pen)) => b < k && pen == format_penalty_spec(c[b as int], prefer) && best_vita(c.take(k as int), prefer, b as int),
            },
        decreases cands@.len() - k,
    {
        if path_is_vita(cands[k].as_str()) {
            let pen = format_penalty(cands[k].as_str(), prefer);
            match best {
                None => {
                    best = Some((k, pen));
                    proof {
                        assert forall|j: int| 0 <= j < k + 1 && path_is_vita_spec(c.take(k as int + 1)[j]) implies format_penalty_spec(c.take(k as int + 1)[k as int], prefer) <= format_penalty_spec(#[trigger] c.take(k as int + 1)[j], prefer) by {
                            if j < k {
                                assert(c.take(k as int + 1)[j] == c[j]);
                            }
                        }
                    }
                },
                Some((b, bp)) => {
                    if pen < bp {
                        best = Some((k, pen));
                    }
                },
            }
        }
        proof {
            assert forall|j: int| 0 <= j < k ==> c.take(k as int + 1)[j] == c.take(k as int)[j] by {}
        }
        k = k + 1;
    }
    proof {
        assert(c.take(k as int) =~= c);
    }
    match best {
        Some((b, _)) => VariantPlan::Chosen(asset_url(api_base, cands[b].as_str())),
        None => {
            if cands.len() == 1 {
                return VariantPlan::Chosen(asset_url(api_base, cands[0].as_str()));
            }
            let mut m: Vec<(String, u8)> = Vec::new();
            let mut j: usize = 0;
            while j < cands.len()
                invariant
                    j <= cands@.len(),
                    c == crate::text::views(cands@),
                    m@.len() == j,
                    forall|q: int| 0 <= q < j ==> (#[trigger] m@[q]).0@ == asset_url_spec(api_base@, c[q]) && m@[q].1
                        == format_penalty_spec(c[q], prefer),
                decreases cands@.len() - j,
            {
                m.push((asset_url(api_base, cands[j].as_str()), format_penalty(cands[j].as_str(), prefer)));
                j = j + 1;
            }
            VariantPlan::Measure(m)
        },
    }
}

/// The best measured variant: one within the preferred size beats one
/// over it; otherwise the smaller size, then the smaller format penalty,
/// wins; the earlier wins ties. Unmeasured variants are skipped.
pub open spec fn better(a: (usize, u8), b: (usize, u8), preferred: usize) -> bool {
    let ap = a.0 <= preferred;
    let bp = b.0 <= preferred;
    (ap && !bp) || (ap == bp && (a.0 < b.0 || (a.0 == b.0 && a.1 < b.1)))
}

/// The size within which a variant is preferred.
pub const PREFERRED_IMAGE_BYTES: usize = 819200;

/// The choice among measured variants, read in order.
pub open spec fn pick_fold(m: Seq<(Option<usize>, u8, Seq<char>)>) -> Option<(usize, u8, Seq<char>)>
    decreases m.len(),
{
    if m.len() == 0 {
        None
    } else {
        let p = pick_fold(m.drop_last());
        let x = m.last();
        match x.0 {
            None => p,
            Some(size) => match p {
                None => Some((size, x.1, x.2)),
                Some(cur) => if better((size, x.1), (cur.0, cur.1), PREFERRED_IMAGE_BYTES) {
                    Some((size, x.1, x.2))
                } else {
                    p
                },
            },
        }
    }
}

/// Picks the variant URL from measured (size, penalty, URL) candidates,
/// falling back to `fallback` when none could be measured.
pub fn pick_measured(measured: &[(Option<usize>, u8, String)], fallback: Option<String>) -> (r: Option<String>)
    ensures
        ({
            let m = measured@.map_values(|x: (Option<usize>, u8, String)| (x.0, x.1, x.2@));
            match pick_fold(m) {
                Some(best) => r matches Some(u) && u@ == best.2,
                None => r == fallback,
            }
        }),
{
    let ghost ms = measured@.map_values(|x: (Option<usize>, u8, String)| (x.0, x.1, x.2@));
    let mut best: Option<(usize, u8, usize)> = None;
    let mut i: usize = 0;
    while i < measured.len()
        invariant
            i <= measured@.len(),
            ms == measured@.map_values(|x: (Option<usize>, u8, String)| (x.0, x.1, x.2@)),
            match best {
                None => pick_fold(ms.take(i as int)) is None,
                Some((s, p, at)) => at < i && pick_fold(ms.take(i as int)) == Some((s, p, ms[at as int].2)),
            },
        decreases measured@.len() - i,
    {
        proof {
            assert(ms.take(i as int + 1).drop_last() =~= ms.take(i as int));
            assert(ms.take(i as int + 1).last() == ms[i as int]);
        }
        match measured[i].0 {
            Some(size) => {
                let pen = measured[i].1;
                match best {
                    None => best = Some((size, pen, i)),
                    Some((s, p, at)) => {
                        let ap = size <= PREFERRED_IMAGE_BYTES;
                        let bp = s <= PREFERRED_IMAGE_BYTES;
                        if (ap && !bp) || (ap == bp && (size < s || (size == s && pen < p))) {
                            best = Some((size, pen, i));
                        }
                    },
                }
            },
            None => {},
        }
        i = i + 1;
    }
    proof {
        assert(ms.take(i as int) =~= ms);
    }
    match best {
        Some((_, _, at)) => Some(measured[at].2.clone()),
        None => fallback,
    }
}


/// A game as the artwork service describes it.
#[derive(Clone, Debug)]
pub struct GameDetail {
    pub title: Option<String>,
    pub name: Option<String>,
    pub cleaned_name: Option<String>,
    pub title_id: Option<String>,
    pub platform: Option<String>,
    pub cover_path: Option<String>,
    pub logos: Vec<String>,
    pub heroes: Vec<String>,
    pub musics: Vec<String>,
}

/// The name the service gives a game: its cleaned name, else its name,
/// else its title.
pub open spec fn detail_name_spec(d: GameDetail) -> Option<Seq<char>> {
    match d.cleaned_name {
        Some(n) => Some(n@),
        None => match d.name {
            Some(n) => Some(n@),
            None => opt_view(d.title),
        },
    }
}

/// The name the service gives a game.
pub fn detail_name(d: &GameDetail) -> (r: Option<String>)
    ensures
        opt_view(r) == detail_name_spec(*d),
{
    match &d.cleaned_name {
        Some(n) => Some(n.clone()),
        None => match &d.name {
            Some(n) => Some(n.clone()),
            None => match &d.title {
                Some(t) => Some(t.clone()),
                None => None,
            },
        },
    }
}

/// The service's address for one game.
pub fn lookup_one_url(api_base: &str, title_id: &str) -> (r: String)
    ensures
        r@ == api_base@ + "/api/games/"@ + title_id@,
{
    let mut r = api_base.to_owned();
    push_str(&mut r, "/api/games/");
    push_str(&mut r, title_id);
    r
}

/// The service's search address for a title on a platform: the title
/// cleaned for searching, trimmed and URL-encoded; nothing when nothing is
/// left of it.
pub open spec fn query_url_spec(api_base: Seq<char>, query: Seq<char>, system: System) -> Option<Seq<char>> {
    let q = crate::text::trim_seq(crate::scanner::search_title_spec(query));
    if q.len() == 0 {
        None
    } else {
        Some(api_base + "/api/games?q="@ + url_encode_bytes(vstd::utf8::encode_utf8(q)) + "&platform="@
            + crate::scanner::platform_param_of(system) + "&limit=10"@)
    }
}

/// The service's search address for a title on a platform.
pub fn query_url(api_base: &str, query: &str, system: System) -> (r: Option<String>)
    ensures
        opt_view(r) == query_url_spec(api_base@, query@, system),
{
    let clean = crate::scanner::normalize_search_title(query);
    let q = crate::text::trim(clean.as_str());
    if q.as_str().is_empty() {
        return None;
    }
    let encoded = url_encode(q.as_str());
    let mut r = api_base.to_owned();
    push_str(&mut r, "/api/games?q=");
    push_str(&mut r, encoded.as_str());
    push_str(&mut r, "&platform=");
    push_str(&mut r, system.platform_param());
    push_str(&mut r, "&limit=10");
    Some(r)
}

/// A title id the service gave, trimmed, when not blank.
pub open spec fn detail_id(d: GameDetail) -> Option<Seq<char>> {
    match d.title_id {
        Some(t) => if crate::text::trim_seq(t@).len() > 0 { Some(crate::text::trim_seq(t@)) } else { None },
        None => None,
    }
}

/// Whether a search hit may name the game looked for: it has no name, or
/// its name matches the query.
pub open spec fn hit_matches(d: GameDetail, clean_q: Seq<char>) -> bool {
    match detail_name_spec(d) {
        Some(n) => n.len() == 0 || title_match_spec(unicode_lower(clean_q), unicode_lower(n)),
        None => true,
    }
}

/// The title ids of the first `n` search hits, in order: those that may
/// name the game, when `matching`, else all.
pub open spec fn hit_ids(details: Seq<GameDetail>, clean_q: Seq<char>, matching: bool, n: int) -> Seq<Seq<char>>
    decreases n,
{
    if n <= 0 {
        Seq::empty()
    } else {
        let p = hit_ids(details, clean_q, matching, n - 1);
        let d = details[n - 1];
        if detail_id(d) is Some && (!matching || hit_matches(d, clean_q)) {
            p.push(detail_id(d)->0)
        } else {
            p
        }
    }
}

/// The title ids of search hits worth a full lookup, in order: first those
/// whose names match the query, then (as a fallback) all of them.
pub fn query_title_ids(details: &[GameDetail], clean_q: &str) -> (r: (Vec<String>, Vec<String>))
    ensures
        crate::text::views(r.0@) == hit_ids(details@, clean_q@, true, details@.len() as int),
        crate::text::views(r.1@) == hit_ids(details@, clean_q@, false, details@.len() as int),
{
    let mut matching: Vec<String> = Vec::new();
    let mut all: Vec<String> = Vec::new();
    let mut i: usize = 0;
    while i < details.len()
        invariant
            i <= details@.len(),
            crate::text::views(matching@) == hit_ids(details@, clean_q@, true, i as int),
            crate::text::views(all@) == hit_ids(details@, clean_q@, false, i as int),
        decreases details@.len() - i,
    {
        let d = &details[i];
        let id = match &d.title_id {
            Some(t) => {
                let tt = crate::text::trim(t.as_str());
                if tt.as_str().is_empty() { None } else { Some(tt) }
            },
            None => None,
        };
        match id {
            Some(t) => {
                let name = detail_name(d);
                let ok = match &name {
                    Some(n) => n.as_str().is_empty() || is_title_match(clean_q, n.as_str()),
                    None => true,
                };
                proof {
                    crate::text::lemma_views_push(all@, t);
                }
                all.push(t.clone());
                if ok {
                    proof {
                        crate::text::lemma_views_push(matching@, t);
                    }
                    matching.push(t);
                }
            },
            None => {},
        }
        i = i + 1;
    }
    (matching, all)
}

/// What the service's description of a game gives, with the variants
/// already picked: a game, named (by a non-blank name when `non_blank_name`
/// is asked), with its cover made absolute.
pub open spec fn detail_result_spec(
    d: GameDetail,
    api_base: Seq<char>,
    non_blank_name: bool,
) -> (Option<Seq<char>>, Option<Seq<char>>) {
    let name = match detail_name_spec(d) {
        Some(n) => if non_blank_name && crate::text::trim_seq(n).len() == 0 { None } else { Some(n) },
        None => None,
    };
    let cover = match opt_view(d.cover_path) {
        Some(p) => if crate::text::trim_seq(p).len() > 0 { Some(asset_url_spec(api_base, p)) } else { None },
        None => None,
    };
    (name, cover)
}

/// The lookup result for the service's description of a game, with its
/// screenshot, logo and music variants already picked.
pub fn detail_result(
    d: &GameDetail,
    api_base: &str,
    non_blank_name: bool,
    screenshot_url: Option<String>,
    logo_url: Option<String>,
    music_url: Option<String>,
) -> (r: LookupResult)
    ensures
        r.is_game,
        opt_view(r.canonical_title) == detail_result_spec(*d, api_base@, non_blank_name).0,
        opt_view(r.cover_url) == detail_result_spec(*d, api_base@, non_blank_name).1,
        r.screenshot_url == screenshot_url,
        r.logo_url == logo_url,
        r.music_url == music_url,
{
    let name = match detail_name(d) {
        Some(n) => if non_blank_name && crate::text::trim(n.as_str()).as_str().is_empty() { None } else { Some(n) },
        None => None,
    };
    let cover = match &d.cover_path {
        Some(p) => if crate::text::trim(p.as_str()).as_str().is_empty() {
            None
        } else {
            Some(asset_url(api_base, p.as_str()))
        },
        None => None,
    };
    LookupResult { is_game: true, canonical_title: name, cover_url: cover, screenshot_url, logo_url, music_url }
}

/// Whether a lookup found some artwork.
pub fn has_art(r: &LookupResult) -> (b: bool)
    ensures
        b == (r.cover_url is Some || r.screenshot_url is Some || r.logo_url is Some),
{
    r.cover_url.is_some() || r.screenshot_url.is_some() || r.logo_url.is_some()
}

/// The id a library game is looked up by: the first of its title id,
/// artwork key and title that has the shape of a Sony title id.
pub fn lookup_id(t: &LookupTarget) -> (r: Option<String>)
    ensures
        opt_view(r) == match crate::scanner::sanitized_id(t.title_id@) {
            Some(s) => Some(s),
            None => match crate::scanner::sanitized_id(t.art_key@) {
                Some(s) => Some(s),
                None => crate::scanner::sanitized_id(t.title@),
            },
        },
{
    match crate::scanner::sanitize_sony_title_id(t.title_id.as_str()) {
        Some(s) => Some(s),
        None => match crate::scanner::sanitize_sony_title_id(t.art_key.as_str()) {
            Some(s) => Some(s),
            None => crate::scanner::sanitize_sony_title_id(t.title.as_str()),
        },
    }
}

/// Whether a direct lookup needs a search after it: it found nothing, or
/// no cover.
pub fn needs_search(r: &Option<LookupResult>) -> (b: bool)
    ensures
        b == match r {
            Some(x) => x.cover_url is None,
            None => true,
        },
{
    match r {
        Some(x) => x.cover_url.is_none(),
        None => true,
    }
}

fn or_opt(a: Option<String>, b: Option<String>) -> (r: Option<String>)
    ensures
        r == if a is Some { a } else { b },
{
    match a {
        Some(x) => Some(x),
        None => b,
    }
}

/// A direct lookup completed by a search: what it lacks is taken from the
/// search; without it, the search's result.
pub open spec fn merged(existing: Option<LookupResult>, fallback: LookupResult) -> LookupResult {
    match existing {
        Some(e) => LookupResult {
            is_game: e.is_game,
            canonical_title: if e.canonical_title is Some { e.canonical_title } else { fallback.canonical_title },
            cover_url: if e.cover_url is Some { e.cover_url } else { fallback.cover_url },
            screenshot_url: if e.screenshot_url is Some { e.screenshot_url } else { fallback.screenshot_url },
            logo_url: if e.logo_url is Some { e.logo_url } else { fallback.logo_url },
            music_url: if e.music_url is Some { e.music_url } else { fallback.music_url },
        },
        None => fallback,
    }
}

/// A direct lookup completed by a search.
pub fn merge_lookup(existing: Option<LookupResult>, fallback: LookupResult) -> (r: LookupResult)
    ensures
        r == merged(existing, fallback),
{
    match existing {
        Some(e) => LookupResult {
            is_game: e.is_game,
            canonical_title: or_opt(e.canonical_title, fallback.canonical_title),
            cover_url: or_opt(e.cover_url, fallback.cover_url),
            screenshot_url: or_opt(e.screenshot_url, fallback.screenshot_url),
            logo_url: or_opt(e.logo_url, fallback.logo_url),
            music_url: or_opt(e.music_url, fallback.music_url),
        },
        None => fallback,
    }
}

/// How downloaded image bytes are stored: PNG (true) or JPEG (false);
/// nothing for any other data.
pub fn image_kind(bytes: &[u8]) -> (r: Option<bool>)
    ensures
        r == if is_png_spec(bytes@) { Some(true) } else if is_jpeg_spec(bytes@) { Some(false) } else { None },
{
    if is_png(bytes) {
        Some(true)
    } else if is_jpeg(bytes) {
        Some(false)
    } else {
        None
    }
}

/// Whether the first bytes of a file look like MP3 audio: an ID3 tag or a
/// frame sync.
pub fn looks_like_mp3(header: &[u8]) -> (b: bool)
    ensures
        b == ((header@.len() >= 3 && header@[0] == 0x49u8 && header@[1] == 0x44u8 && header@[2] == 0x33u8) || (
        header@.len() >= 2 && header@[0] == 0xFFu8 && header@[1] & 0xE0u8 == 0xE0u8)),
{
    if header.len() >= 3 && header[0] == 0x49 && header[1] == 0x44 && header[2] == 0x33 {
        return true;
    }
    header.len() >= 2 && header[0] == 0xFF && (header[1] & 0xE0) == 0xE0
}

} // verus!
