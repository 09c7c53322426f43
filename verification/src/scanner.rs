use vstd::prelude::*;

use crate::text::{
    content_lines, content_lines_of, chars_of, collapse_whitespace, collapse_ws, concat, contains_seq, ends_with, eq_ignore_ascii_case,
    is_ws, lower_seq, push_str, replace_char, replace_char_seq, starts_with, str_contains,
    str_equal, string_of, to_lowercase, to_uppercase, trim, trim_seq, unicode_lower, unicode_upper,
    utf8_lossy, decode_utf8_lossy, views, all_ascii, upper_seq, ascii_upper, single_spaced, lemma_collapse_shape, lemma_collapse_fixed, strictly_sorted, insert_sorted, seq_lt, str_lt, lemma_seq_lt_total,
    lemma_seq_lt_transitive, lemma_seq_lt_asymmetric, has_key, lemma_stable_start, lemma_stable_step, text_order,
};
use crate::audio::{le_u16, le_u32, lemma_le_values, read_u16_le, read_u32_le};

verus! {

/// Where cover images are cached.
pub open spec fn covers_dir() -> Seq<char> {
    "ux0:data/VitaDeck/COVERS/"@
}

/// Where hero images are cached.
pub open spec fn hero_dir() -> Seq<char> {
    "ux0:data/VitaDeck/HERO/"@
}

/// Where logo images are cached.
pub open spec fn logo_dir() -> Seq<char> {
    "ux0:data/VitaDeck/LOGO/"@
}

/// Where background music is cached.
pub open spec fn music_dir() -> Seq<char> {
    "ux0:data/VitaDeck/MUSIC/"@
}

/// The platform a game runs on.
#[derive(Clone, Copy, PartialEq, Eq, Structural, Debug)]
pub enum System {
    Vita,
    Psp,
    Psx,
}

pub open spec fn covers_folder_of(s: System) -> Seq<char> {
    match s {
        System::Vita => "PSVita"@,
        System::Psp => "PSP"@,
        System::Psx => "PS1"@,
    }
}

pub open spec fn platform_param_of(s: System) -> Seq<char> {
    match s {
        System::Vita => "psv"@,
        System::Psp => "psp"@,
        System::Psx => "psx"@,
    }
}

pub open spec fn label_of(s: System) -> Seq<char> {
    match s {
        System::Vita => "PS Vita"@,
        System::Psp => "PSP"@,
        System::Psx => "PS1"@,
    }
}

impl System {
    /// The cache sub-folder for this platform's artwork.
    pub fn covers_folder(self) -> (s: &'static str)
        ensures
            s@ == covers_folder_of(self),
    {
        match self {
            System::Vita => "PSVita",
            System::Psp => "PSP",
            System::Psx => "PS1",
        }
    }

    /// The platform name the artwork service expects.
    pub fn platform_param(self) -> (s: &'static str)
        ensures
            s@ == platform_param_of(self),
    {
        match self {
            System::Vita => "psv",
            System::Psp => "psp",
            System::Psx => "psx",
        }
    }

    /// The platform name shown to the user.
    pub fn label(self) -> (s: &'static str)
        ensures
            s@ == label_of(self),
    {
        match self {
            System::Vita => "PS Vita",
            System::Psp => "PSP",
            System::Psx => "PS1",
        }
    }
}

/// `dir`, the platform folder, a slash and `name`.
pub open spec fn cache_path(dir: Seq<char>, system: System, name: Seq<char>) -> Seq<char> {
    dir + covers_folder_of(system) + "/"@ + name
}

fn build_cache_path(dir: &str, system: System, name: &str) -> (p: String)
    ensures
        p@ == cache_path(dir@, system, name@),
{
    let mut p = concat(dir, system.covers_folder());
    p.push('/');
    push_str(&mut p, name);
    proof {
        reveal_strlit("/");
        assert(p@ =~= cache_path(dir@, system, name@));
    }
    p
}

/// The cached cover of a game, without extension.
pub fn cover_cache_path(system: System, art_key: &str) -> (p: String)
    ensures
        p@ == cache_path(covers_dir(), system, art_key@),
{
    build_cache_path("ux0:data/VitaDeck/COVERS/", system, art_key)
}

/// A title made safe to use as a file name: slashes become dashes.
pub open spec fn cover_file_name(title: Seq<char>) -> Seq<char> {
    replace_char_seq(replace_char_seq(title, '/', '-'), '\\', '-')
}

/// The cached cover of a game looked up by its title, without extension.
pub fn cover_cache_path_by_title(system: System, title: &str) -> (p: String)
    ensures
        p@ == cache_path(covers_dir(), system, cover_file_name(title@)),
{
    let a = replace_char(title, '/', '-');
    let b = replace_char(a.as_str(), '\\', '-');
    build_cache_path("ux0:data/VitaDeck/COVERS/", system, b.as_str())
}

/// The cached hero image of a game, without extension.
pub fn hero_cache_path(system: System, art_key: &str) -> (p: String)
    ensures
        p@ == cache_path(hero_dir(), system, art_key@),
{
    build_cache_path("ux0:data/VitaDeck/HERO/", system, art_key)
}

/// The cached logo of a game, without extension.
pub fn logo_cache_path(system: System, art_key: &str) -> (p: String)
    ensures
        p@ == cache_path(logo_dir(), system, art_key@),
{
    build_cache_path("ux0:data/VitaDeck/LOGO/", system, art_key)
}

/// The cached music of a game, without extension.
pub fn music_cache_path(system: System, art_key: &str) -> (p: String)
    ensures
        p@ == cache_path(music_dir(), system, art_key@),
{
    build_cache_path("ux0:data/VitaDeck/MUSIC/", system, art_key)
}

/// Index of the last `c` in `s`, or -1.
pub open spec fn last_index_of(s: Seq<char>, c: char) -> int
    decreases s.len(),
{
    if s.len() == 0 {
        -1
    } else if s.last() == c {
        s.len() - 1
    } else {
        last_index_of(s.drop_last(), c)
    }
}

proof fn lemma_last_index_of(s: Seq<char>, c: char)
    ensures
        -1 <= last_index_of(s, c) < s.len(),
        last_index_of(s, c) >= 0 ==> s[last_index_of(s, c)] == c,
        forall|j: int| last_index_of(s, c) < j < s.len() ==> s[j] != c,
    decreases s.len(),
{
    if s.len() > 0 && s.last() != c {
        lemma_last_index_of(s.drop_last(), c);
        assert forall|j: int| last_index_of(s, c) < j < s.len() implies s[j] != c by {
            if j < s.len() - 1 {
                assert(s[j] == s.drop_last()[j]);
            }
        }
    }
}

/// Where the last `c` of `s` is, as `last_index_of` says.
pub proof fn lemma_last_index_of_pub(s: Seq<char>, c: char)
    ensures
        -1 <= last_index_of(s, c) < s.len(),
        last_index_of(s, c) >= 0 ==> s[last_index_of(s, c)] == c,
        forall|j: int| last_index_of(s, c) < j < s.len() ==> s[j] != c,
{
    lemma_last_index_of(s, c);
}

/// The text before the last `c`, or all of `s` when it has none (the
/// first half of `rsplit_once(c)`, falling back to the whole).
pub open spec fn before_last(s: Seq<char>, c: char) -> Seq<char> {
    if last_index_of(s, c) >= 0 {
        s.take(last_index_of(s, c))
    } else {
        s
    }
}

/// The text after the last `c`, or all of `s` when it has none.
pub open spec fn after_last(s: Seq<char>, c: char) -> Seq<char> {
    if last_index_of(s, c) >= 0 {
        s.skip(last_index_of(s, c) + 1)
    } else {
        s
    }
}

fn find_last(v: &[char], c: char) -> (r: Option<usize>)
    ensures
        match r {
            Some(i) => last_index_of(v@, c) == i,
            None => last_index_of(v@, c) == -1,
        },
{
    let mut i = v.len();
    proof {
        assert(v@.take(i as int) =~= v@);
    }
    while i > 0
        invariant
            i <= v@.len(),
            last_index_of(v@, c) == last_index_of(v@.take(i as int), c),
        decreases i,
    {
        proof {
            assert(v@.take(i as int).drop_last() =~= v@.take(i as int - 1));
        }
        if v[i - 1] == c {
            return Some(i - 1);
        }
        i = i - 1;
    }
    None
}

/// Marks that are dropped from titles: registered, trade mark, copyright.
pub open spec fn is_mark(c: char) -> bool {
    c == '\u{ae}' || c == '\u{2122}' || c == '\u{a9}'
}

/// Reading a file name stem left to right: the text kept so far and the
/// bracket depth. Bracketed parts are dropped, `_` and `.` become spaces,
/// and the registered, trade mark and copyright signs go.
pub open spec fn rom_fold(s: Seq<char>) -> (Seq<char>, int)
    decreases s.len(),
{
    if s.len() == 0 {
        (Seq::empty(), 0)
    } else {
        let p = rom_fold(s.drop_last());
        let c = s.last();
        let (out, depth) = p;
        if c == '[' || c == '(' {
            (out, depth + 1)
        } else if c == ']' || c == ')' {
            (out, if depth - 1 > 0 { depth - 1 } else { 0 })
        } else if (c == '_' || c == '.') && depth == 0 {
            (out.push(' '), depth)
        } else if is_mark(c) {
            (out, depth)
        } else if depth == 0 {
            (out.push(c), depth)
        } else {
            (out, depth)
        }
    }
}

/// A readable title from a ROM file name.
pub open spec fn clean_rom_spec(name: Seq<char>) -> Seq<char> {
    collapse_ws(rom_fold(before_last(name, '.')).0)
}

proof fn lemma_rom_fold_depth(s: Seq<char>)
    ensures
        0 <= rom_fold(s).1 <= s.len(),
    decreases s.len(),
{
    if s.len() > 0 {
        lemma_rom_fold_depth(s.drop_last());
    }
}

/// A character that cleaning a ROM name drops or changes.
pub open spec fn rom_special(c: char) -> bool {
    c == '[' || c == '(' || c == ']' || c == ')' || c == '_' || c == '.' || is_mark(c)
}

proof fn lemma_rom_fold_plain(s: Seq<char>)
    ensures
        forall|j: int| 0 <= j < rom_fold(s).0.len() ==> !rom_special(#[trigger] rom_fold(s).0[j]),
    decreases s.len(),
{
    if s.len() > 0 {
        lemma_rom_fold_plain(s.drop_last());
        let p = rom_fold(s.drop_last());
        let out = rom_fold(s).0;
        assert forall|j: int| 0 <= j < out.len() implies !rom_special(#[trigger] out[j]) by {
            if j < p.0.len() {
                assert(out[j] == p.0[j]);
            }
        }
    }
}

proof fn lemma_rom_fold_identity(s: Seq<char>)
    requires
        forall|i: int| 0 <= i < s.len() ==> !rom_special(#[trigger] s[i]),
    ensures
        rom_fold(s) == (s, 0int),
    decreases s.len(),
{
    if s.len() > 0 {
        let u = s.drop_last();
        assert forall|i: int| 0 <= i < u.len() implies !rom_special(#[trigger] u[i]) by {
            assert(u[i] == s[i]);
        }
        lemma_rom_fold_identity(u);
        assert(!rom_special(s[s.len() - 1]));
        assert(u.push(s.last()) =~= s);
    }
}

/// Cleaning a ROM name twice gives what cleaning it once gave: the result
/// holds none of the characters cleaning drops or changes (brackets, `_`,
/// `.`, trade marks) and its white space is single spaces between words.
pub proof fn law_clean_rom_idempotent(name: Seq<char>)
    ensures
        clean_rom_spec(clean_rom_spec(name)) == clean_rom_spec(name),
        forall|j: int| 0 <= j < clean_rom_spec(name).len() ==> !rom_special(#[trigger] clean_rom_spec(name)[j]),
        single_spaced(clean_rom_spec(name)),
{
    let stem = before_last(name, '.');
    let f = rom_fold(stem).0;
    let r = clean_rom_spec(name);
    lemma_rom_fold_plain(stem);
    lemma_collapse_shape(f);
    assert forall|j: int| 0 <= j < r.len() implies !rom_special(#[trigger] r[j]) by {
        if r[j] != ' ' {
            let k = choose|k: int| 0 <= k < f.len() && f[k] == r[j];
            assert(!rom_special(f[k]));
        }
    }
    lemma_last_index_of(r, '.');
    if last_index_of(r, '.') >= 0 {
        assert(!rom_special(r[last_index_of(r, '.')]));
    }
    assert(before_last(r, '.') == r);
    lemma_rom_fold_identity(r);
    lemma_collapse_fixed(r);
}

/// A readable title from a ROM file name: the extension, bracketed tags and
/// marks are dropped, `_` and `.` become spaces, and white space collapses.
pub fn clean_rom_name(filename: &str) -> (r: String)
    ensures
        r@ == clean_rom_spec(filename@),
{
    let all = chars_of(filename);
    let end = match find_last(all.as_slice(), '.') {
        Some(i) => i,
        None => all.len(),
    };
    proof {
        lemma_last_index_of(all@, '.');
    }
    let ghost stem = before_last(filename@, '.');
    let mut out: Vec<char> = Vec::new();
    let mut depth: usize = 0;
    let mut i: usize = 0;
    while i < end
        invariant
            all@ == filename@,
            end <= all@.len(),
            stem == all@.take(end as int),
            i <= end,
            (out@, depth as int) == rom_fold(stem.take(i as int)),
        decreases end - i,
    {
        let c = all[i];
        proof {
            assert(stem.take(i as int + 1).drop_last() =~= stem.take(i as int));
            assert(stem.take(i as int + 1).last() == c);
            lemma_rom_fold_depth(stem.take(i as int));
        }
        if c == '[' || c == '(' {
            depth = depth + 1;
        } else if c == ']' || c == ')' {
            if depth > 0 {
                depth = depth - 1;
            }
        } else if (c == '_' || c == '.') && depth == 0 {
            out.push(' ');
        } else if c == '\u{ae}' || c == '\u{2122}' || c == '\u{a9}' {
        } else if depth == 0 {
            out.push(c);
        }
        i = i + 1;
    }
    proof {
        assert(stem.take(end as int) =~= stem);
    }
    collapse_whitespace(out.as_slice())
}

/// The characters that separate words in a search title.
pub open spec fn is_search_separator(c: char) -> bool {
    c == '_' || c == '-' || c == ':' || c == '/'
}

/// A title prepared for searching the artwork service: marks dropped,
/// separators turned into spaces, then cleaned as a file name.
pub open spec fn search_title_spec(title: Seq<char>) -> Seq<char> {
    clean_rom_spec(
        title.filter(|c: char| !is_mark(c)).map_values(
            |c: char|
                if is_search_separator(c) {
                    ' '
                } else {
                    c
                },
        ),
    )
}

/// A title prepared for searching the artwork service.
pub fn normalize_search_title(title: &str) -> (r: String)
    ensures
        r@ == search_title_spec(title@),
{
    let v = chars_of(title);
    let mut out: Vec<char> = Vec::new();
    let mut i: usize = 0;
    while i < v.len()
        invariant
            v@ == title@,
            i <= v@.len(),
            out@ == v@.take(i as int).filter(|c: char| !is_mark(c)).map_values(
                |c: char|
                    if is_search_separator(c) {
                        ' '
                    } else {
                        c
                    },
            ),
        decreases v@.len() - i,
    {
        let c = v[i];
        proof {
            reveal(Seq::filter);
            assert(v@.take(i as int + 1).drop_last() =~= v@.take(i as int));
        }
        if !(c == '\u{ae}' || c == '\u{2122}' || c == '\u{a9}') {
            let d = if c == '_' || c == '-' || c == ':' || c == '/' {
                ' '
            } else {
                c
            };
            let ghost o0 = out@;
            out.push(d);
            proof {
                assert(out@ =~= v@.take(i as int + 1).filter(|c: char| !is_mark(c)).map_values(
                    |c: char|
                        if is_search_separator(c) {
                            ' '
                        } else {
                            c
                        },
                ));
            }
        } else {
            proof {
                assert(v@.take(i as int + 1).filter(|c: char| !is_mark(c)) == v@.take(i as int).filter(
                    |c: char| !is_mark(c),
                ));
            }
        }
        i = i + 1;
    }
    proof {
        assert(v@.take(i as int) =~= v@);
    }
    let s = string_of(out.as_slice());
    clean_rom_name(s.as_str())
}

/// Unicode control characters (general category Cc), as `char::is_control`
/// documents them.
pub open spec fn is_control(c: char) -> bool {
    ('\u{0}' <= c && c <= '\u{1f}') || ('\u{7f}' <= c && c <= '\u{9f}')
}

/// A title with control characters and white space runs turned into single
/// spaces, and no leading or trailing space.
pub open spec fn normalized_title(raw: Seq<char>) -> Seq<char> {
    collapse_ws(
        raw.map_values(
            |c: char|
                if is_control(c) || is_ws(c) {
                    ' '
                } else {
                    c
                },
        ),
    )
}

/// A title as stored in a game's metadata made displayable: control
/// characters become spaces and white space collapses; every other
/// character, marks included, is kept.
pub fn normalize_title(raw: &str) -> (r: String)
    ensures
        r@ == normalized_title(raw@),
{
    let v = chars_of(raw);
    let mut out: Vec<char> = Vec::new();
    let mut i: usize = 0;
    while i < v.len()
        invariant
            v@ == raw@,
            i <= v@.len(),
            out@ == v@.take(i as int).map_values(
                |c: char|
                    if is_control(c) || is_ws(c) {
                        ' '
                    } else {
                        c
                    },
            ),
        decreases v@.len() - i,
    {
        let c = v[i];
        let control = ('\u{0}' <= c && c <= '\u{1f}') || ('\u{7f}' <= c && c <= '\u{9f}');
        let d = if control || crate::text::is_whitespace(c) {
            ' '
        } else {
            c
        };
        out.push(d);
        proof {
            assert(out@ =~= v@.take(i as int + 1).map_values(
                |c: char|
                    if is_control(c) || is_ws(c) {
                        ' '
                    } else {
                        c
                    },
            ));
        }
        i = i + 1;
    }
    proof {
        assert(v@.take(i as int) =~= v@);
    }
    collapse_whitespace(out.as_slice())
}

/// A directory entry that is never a game: hidden files and the thumbnail
/// and desktop files other systems leave behind.
pub open spec fn is_junk_spec(name: Seq<char>) -> bool {
    let base = after_last(name, '/');
    (base.len() > 0 && base[0] == '.') || lower_seq(base) == lower_seq("Thumbs.db"@) || lower_seq(base)
        == lower_seq("desktop.ini"@)
}

/// Whether a directory entry (the part after its last `/`) is junk.
pub fn is_junk_name(name: &str) -> (b: bool)
    ensures
        b == is_junk_spec(name@),
{
    let all = chars_of(name);
    proof {
        lemma_last_index_of(all@, '/');
    }
    let sl = all.as_slice();
    let found = find_last(sl, '/');
    let start = match found {
        Some(i) => {
            assert(sl@ == all@);
            assert(last_index_of(all@, '/') == i as int);
            assert(i < all@.len());
            assert(all@.len() == all.len());
            i + 1
        },
        None => 0,
    };
    let mut base: Vec<char> = Vec::new();
    let mut i = start;
    while i < all.len()
        invariant
            all@ == name@,
            start <= i <= all@.len(),
            base@ == all@.subrange(start as int, i as int),
        decreases all@.len() - i,
    {
        base.push(all[i]);
        proof {
            assert(base@ =~= all@.subrange(start as int, i as int + 1));
        }
        i = i + 1;
    }
    proof {
        assert(base@ =~= after_last(name@, '/'));
    }
    let b = string_of(base.as_slice());
    (base.len() > 0 && base[0] == '.') || eq_ignore_ascii_case(b.as_str(), "Thumbs.db")
        || eq_ignore_ascii_case(b.as_str(), "desktop.ini")
}

/// Whether `dir` is exactly one of the disabled directories.
pub fn is_dir_disabled(dir: &str, disabled_dirs: &[String]) -> (b: bool)
    ensures
        b == views(disabled_dirs@).contains(dir@),
{
    let mut i: usize = 0;
    while i < disabled_dirs.len()
        invariant
            i <= disabled_dirs@.len(),
            forall|j: int| 0 <= j < i ==> views(disabled_dirs@)[j] != dir@,
        decreases disabled_dirs@.len() - i,
    {
        if str_equal(disabled_dirs[i].as_str(), dir) {
            proof {
                assert(views(disabled_dirs@)[i as int] == dir@);
            }
            return true;
        }
        i = i + 1;
    }
    false
}

/// `s` with every trailing copy of `p` removed (`trim_end_matches`).
pub open spec fn trim_suffix_all(s: Seq<char>, p: Seq<char>) -> Seq<char>
    decreases s.len(),
{
    if p.len() > 0 && p.len() <= s.len() && s.skip(s.len() - p.len()) == p {
        trim_suffix_all(s.take(s.len() - p.len()), p)
    } else {
        s
    }
}

/// A raw name with disc-image extensions and the separators `-`, `_` and
/// space removed.
pub open spec fn undecorated_id(raw: Seq<char>) -> Seq<char> {
    trim_suffix_all(
        trim_suffix_all(trim_suffix_all(trim_suffix_all(raw, ".iso"@), ".ISO"@), ".cso"@),
        ".CSO"@,
    ).filter(|c: char| c != '-' && c != '_' && c != ' ')
}

pub open spec fn is_ascii_alpha(c: char) -> bool {
    ('a' <= c && c <= 'z') || ('A' <= c && c <= 'Z')
}

pub open spec fn is_ascii_digit(c: char) -> bool {
    '0' <= c && c <= '9'
}

/// The shape of a Sony title id: four ASCII letters then five ASCII digits.
pub open spec fn title_id_shape(s: Seq<char>) -> bool {
    &&& s.len() == 9
    &&& forall|i: int| 0 <= i < 4 ==> is_ascii_alpha(#[trigger] s[i])
    &&& forall|i: int| 4 <= i < 9 ==> is_ascii_digit(#[trigger] s[i])
}

fn trim_suffix_all_exec(s: String, p: &str) -> (r: String)
    ensures
        r@ == trim_suffix_all(s@, p@),
    decreases s@.len(),
{
    if p.is_empty() {
        return s;
    }
    if ends_with(s.as_str(), p) {
        let v = chars_of(s.as_str());
        let pv = chars_of(p);
        let keep = v.len() - pv.len();
        let mut t: Vec<char> = Vec::new();
        let mut i: usize = 0;
        while i < keep
            invariant
                v@ == s@,
                keep <= v@.len(),
                i <= keep,
                t@ == v@.take(i as int),
            decreases keep - i,
        {
            t.push(v[i]);
            proof {
                assert(v@.take(i as int + 1) =~= v@.take(i as int).push(v@[i as int]));
            }
            i = i + 1;
        }
        let shorter = string_of(t.as_slice());
        trim_suffix_all_exec(shorter, p)
    } else {
        s
    }
}

/// A raw name without disc-image extensions and separators.
pub fn strip_title_id_decorations(raw: &str) -> (r: String)
    ensures
        r@ == undecorated_id(raw@),
{
    let a = trim_suffix_all_exec(raw.to_owned(), ".iso");
    let b = trim_suffix_all_exec(a, ".ISO");
    let c = trim_suffix_all_exec(b, ".cso");
    let d = trim_suffix_all_exec(c, ".CSO");
    let v = chars_of(d.as_str());
    let mut out: Vec<char> = Vec::new();
    let mut i: usize = 0;
    while i < v.len()
        invariant
            i <= v@.len(),
            out@ == v@.take(i as int).filter(|c: char| c != '-' && c != '_' && c != ' '),
        decreases v@.len() - i,
    {
        let ch = v[i];
        proof {
            reveal(Seq::filter);
            assert(v@.take(i as int + 1).drop_last() =~= v@.take(i as int));
        }
        if ch != '-' && ch != '_' && ch != ' ' {
            out.push(ch);
        }
        i = i + 1;
    }
    proof {
        assert(v@.take(i as int) =~= v@);
    }
    string_of(out.as_slice())
}

/// `s` itself when it has the shape of a Sony title id, otherwise nothing.
pub fn title_id_if_shaped(s: String) -> (r: Option<String>)
    ensures
        title_id_shape(s@) ==> r == Some(s),
        !title_id_shape(s@) ==> r is None,
{
    let v = chars_of(s.as_str());
    if v.len() != 9 {
        return None;
    }
    let mut i: usize = 0;
    while i < 9
        invariant
            v@ == s@,
            v@.len() == 9,
            i <= 9,
            forall|j: int| 0 <= j < i && j < 4 ==> is_ascii_alpha(#[trigger] v@[j]),
            forall|j: int| 4 <= j < i ==> is_ascii_digit(#[trigger] v@[j]),
        decreases 9 - i,
    {
        let c = v[i];
        let ok = if i < 4 {
            ('a' <= c && c <= 'z') || ('A' <= c && c <= 'Z')
        } else {
            '0' <= c && c <= '9'
        };
        if !ok {
            return None;
        }
        i = i + 1;
    }
    Some(s)
}

/// What sanitizing an ASCII name gives: its undecorated text in ASCII upper
/// case, when that has the shape of a title id.
pub open spec fn ascii_sanitized(raw: Seq<char>) -> Option<Seq<char>> {
    let u = upper_seq(undecorated_id(raw));
    if title_id_shape(u) {
        Some(u)
    } else {
        None
    }
}

/// Four ASCII upper-case letters, then five ASCII digits.
pub open spec fn upper_title_shape(s: Seq<char>) -> bool {
    &&& s.len() == 9
    &&& forall|i: int| 0 <= i < 4 ==> 'A' <= #[trigger] s[i] && s[i] <= 'Z'
    &&& forall|i: int| 4 <= i < 9 ==> is_ascii_digit(#[trigger] s[i])
}

proof fn lemma_trim_suffix_prefix(s: Seq<char>, p: Seq<char>)
    ensures
        trim_suffix_all(s, p).len() <= s.len(),
        trim_suffix_all(s, p) == s.take(trim_suffix_all(s, p).len() as int),
    decreases s.len(),
{
    if p.len() > 0 && p.len() <= s.len() && s.skip(s.len() - p.len()) == p {
        let t = s.take(s.len() - p.len());
        lemma_trim_suffix_prefix(t, p);
        assert(t.take(trim_suffix_all(s, p).len() as int) =~= s.take(trim_suffix_all(s, p).len() as int));
    } else {
        assert(s.take(s.len() as int) =~= s);
    }
}

proof fn lemma_ascii_take(s: Seq<char>, n: int)
    requires
        all_ascii(s),
        0 <= n <= s.len(),
    ensures
        all_ascii(s.take(n)),
{
    assert forall|i: int| 0 <= i < s.take(n).len() implies (#[trigger] s.take(n)[i] as u32) < 128 by {
        assert(s.take(n)[i] == s[i]);
    }
}

proof fn lemma_undecorated_ascii(raw: Seq<char>)
    requires
        all_ascii(raw),
    ensures
        all_ascii(undecorated_id(raw)),
{
    let a = trim_suffix_all(raw, ".iso"@);
    lemma_trim_suffix_prefix(raw, ".iso"@);
    lemma_ascii_take(raw, a.len() as int);
    let b = trim_suffix_all(a, ".ISO"@);
    lemma_trim_suffix_prefix(a, ".ISO"@);
    lemma_ascii_take(a, b.len() as int);
    let c = trim_suffix_all(b, ".cso"@);
    lemma_trim_suffix_prefix(b, ".cso"@);
    lemma_ascii_take(b, c.len() as int);
    let d = trim_suffix_all(c, ".CSO"@);
    lemma_trim_suffix_prefix(c, ".CSO"@);
    lemma_ascii_take(c, d.len() as int);
    let pred = |ch: char| ch != '-' && ch != '_' && ch != ' ';
    let f = d.filter(pred);
    assert forall|i: int| 0 <= i < f.len() implies (#[trigger] f[i] as u32) < 128 by {
        d.lemma_filter_contains_rev(pred, f[i]);
        let k = choose|k: int| 0 <= k < d.len() && d[k] == f[i];
        assert((d[k] as u32) < 128);
    }
}

/// The Sony title id a raw name stands for (extensions and separators
/// removed, upper-cased), when it has the shape of one. For an ASCII name
/// that is its undecorated text in ASCII upper case.
pub fn sanitize_sony_title_id(raw: &str) -> (r: Option<String>)
    ensures
        title_id_shape(unicode_upper(undecorated_id(raw@))) ==> (r matches Some(t) && t@ == unicode_upper(
            undecorated_id(raw@),
        )),
        !title_id_shape(unicode_upper(undecorated_id(raw@))) ==> r is None,
        all_ascii(raw@) ==> match r {
            Some(t) => ascii_sanitized(raw@) == Some(t@),
            None => ascii_sanitized(raw@) is None,
        },
{
    let stripped = strip_title_id_decorations(raw);
    proof {
        if all_ascii(raw@) {
            lemma_undecorated_ascii(raw@);
        }
    }
    let upper = to_uppercase(stripped.as_str());
    title_id_if_shaped(upper)
}

/// Sanitizing an ASCII name that stands for a title id gives four upper-case
/// letters and five digits, and sanitizing that again changes nothing.
pub proof fn law_sanitize_idempotent(raw: Seq<char>)
    requires
        all_ascii(raw),
        ascii_sanitized(raw) is Some,
    ensures
        upper_title_shape(ascii_sanitized(raw)->0),
        all_ascii(ascii_sanitized(raw)->0),
        ascii_sanitized(ascii_sanitized(raw)->0) == ascii_sanitized(raw),
{
    let x = undecorated_id(raw);
    let t = upper_seq(x);
    assert forall|i: int| 0 <= i < 4 implies 'A' <= #[trigger] t[i] && t[i] <= 'Z' by {
        assert(t[i] == ascii_upper(x[i]));
        assert(is_ascii_alpha(t[i]));
    }
    assert forall|i: int| 0 <= i < t.len() implies (#[trigger] t[i] as u32) < 128 by {
        if i < 4 {
            assert('A' <= t[i] && t[i] <= 'Z');
        } else {
            assert(is_ascii_digit(t[i]));
        }
    }
    // No disc-image extension ends it (its last character is a digit) and it
    // holds no separator, so undecorating leaves it as it is.
    assert(t[8] != 'o' && t[8] != 'O') by {
        assert(is_ascii_digit(t[8]));
    }
    assert(trim_suffix_all(t, ".iso"@) == t) by {
        reveal_strlit(".iso");
        if t.skip(5) == ".iso"@ {
            assert(t.skip(5)[3] == t[8]);
        }
    }
    assert(trim_suffix_all(t, ".ISO"@) == t) by {
        reveal_strlit(".ISO");
        if t.skip(5) == ".ISO"@ {
            assert(t.skip(5)[3] == t[8]);
        }
    }
    assert(trim_suffix_all(t, ".cso"@) == t) by {
        reveal_strlit(".cso");
        if t.skip(5) == ".cso"@ {
            assert(t.skip(5)[3] == t[8]);
        }
    }
    assert(trim_suffix_all(t, ".CSO"@) == t) by {
        reveal_strlit(".CSO");
        if t.skip(5) == ".CSO"@ {
            assert(t.skip(5)[3] == t[8]);
        }
    }
    let pred = |ch: char| ch != '-' && ch != '_' && ch != ' ';
    assert forall|i: int| 0 <= i < t.len() implies pred(#[trigger] t[i]) by {
        if i >= 4 {
            assert(is_ascii_digit(t[i]));
        }
    }
    lemma_filter_all(t, pred);
    assert(undecorated_id(t) == t);
    assert(upper_seq(t) =~= t) by {
        assert forall|i: int| 0 <= i < t.len() implies upper_seq(t)[i] == t[i] by {
            if i >= 4 {
                assert(is_ascii_digit(t[i]));
            }
        }
    }
}

proof fn lemma_filter_all(s: Seq<char>, p: spec_fn(char) -> bool)
    requires
        forall|i: int| 0 <= i < s.len() ==> p(#[trigger] s[i]),
    ensures
        s.filter(p) == s,
    decreases s.len(),
{
    reveal(Seq::filter);
    if s.len() > 0 {
        let u = s.drop_last();
        assert forall|i: int| 0 <= i < u.len() implies p(#[trigger] u[i]) by {
            assert(u[i] == s[i]);
        }
        lemma_filter_all(u, p);
        assert(p(s[s.len() - 1]));
        assert(u.push(s.last()) =~= s);
    } else {
        assert(s.filter(p) =~= s);
    }
}

/// Title ids of known homebrew tools and system utilities.
pub open spec fn is_utility_id(id: Seq<char>) -> bool {
    id == "PSPEMUCFW"@ || id == "SKGB4TF1X"@ || id == "SKGD3PL0Y"@ || id == "VITASHELL"@ || id
        == "VITADBDLD"@ || id == "AUTOPLUG2"@ || id == "PKGJ00000"@ || id == "SKGTLSE12"@ || id
        == "SHRKBR33D"@ || id == "VGCF00001"@ || id == "VITAHBSRT"@ || id == "BHBB00001"@ || id
        == "VHBB00001"@ || id == "CTMANAGER"@ || id == "PSVIDENT0"@ || id == "OPENNOWV0"@ || id
        == "VITAFORGE"@ || id == "RETROFLOW"@ || id == "RETROLNCR"@ || id == "RETROVITA"@ || id
        == "PCSI00011"@
}

/// Words that mark a title as a tool rather than a game.
pub open spec fn utility_keyword(i: int) -> Seq<char> {
    if i == 0 {
        "adrenaline"@
    } else if i == 1 {
        "batteryfixer"@
    } else if i == 2 {
        "vitadeploy"@
    } else if i == 3 {
        "vitashell"@
    } else if i == 4 {
        "autoplugin"@
    } else if i == 5 {
        "homebrew browser"@
    } else if i == 6 {
        "custom themes manager"@
    } else if i == 7 {
        "psvident"@
    } else if i == 8 {
        "vitagrafix"@
    } else if i == 9 {
        "vitadb"@
    } else if i == 10 {
        "pkgj"@
    } else if i == 11 {
        "itls-enso"@
    } else if i == 12 {
        "sharkbr33d"@
    } else if i == 13 {
        "psm runtime"@
    } else if i == 14 {
        "retroflow"@
    } else {
        "retroarch"@
    }
}

/// How many utility keywords there are.
pub const UTILITY_KEYWORD_COUNT: usize = 16;

fn utility_keyword_at(i: usize) -> (k: &'static str)
    requires
        i < UTILITY_KEYWORD_COUNT,
    ensures
        k@ == utility_keyword(i as int),
{
    if i == 0 {
        "adrenaline"
    } else if i == 1 {
        "batteryfixer"
    } else if i == 2 {
        "vitadeploy"
    } else if i == 3 {
        "vitashell"
    } else if i == 4 {
        "autoplugin"
    } else if i == 5 {
        "homebrew browser"
    } else if i == 6 {
        "custom themes manager"
    } else if i == 7 {
        "psvident"
    } else if i == 8 {
        "vitagrafix"
    } else if i == 9 {
        "vitadb"
    } else if i == 10 {
        "pkgj"
    } else if i == 11 {
        "itls-enso"
    } else if i == 12 {
        "sharkbr33d"
    } else if i == 13 {
        "psm runtime"
    } else if i == 14 {
        "retroflow"
    } else {
        "retroarch"
    }
}

/// Whether the category of a game's metadata marks a utility.
pub open spec fn is_utility_category(cat: Seq<char>) -> bool {
    let t = lower_seq(trim_seq(cat));
    t == lower_seq("sd"@) || t == lower_seq("gda"@) || t == lower_seq("Utility"@)
}

/// The utility decision from already normalized inputs: the sanitized (or
/// upper-cased) id, the upper-cased raw id, the category, and the
/// lower-cased title.
pub open spec fn utility_decision_spec(
    sanitized: Seq<char>,
    upper_id: Seq<char>,
    category: Option<Seq<char>>,
    lower_title: Seq<char>,
) -> bool {
    ||| is_utility_id(sanitized)
    ||| (upper_id.len() >= 3 && upper_id.take(3) == "SKG"@)
    ||| (category matches Some(c) && is_utility_category(c))
    ||| exists|i: int| 0 <= i < UTILITY_KEYWORD_COUNT && contains_seq(lower_title, #[trigger] utility_keyword(i))
}

fn is_utility_id_exec(id: &str) -> (b: bool)
    ensures
        b == is_utility_id(id@),
{
    str_equal(id, "PSPEMUCFW") || str_equal(id, "SKGB4TF1X") || str_equal(id, "SKGD3PL0Y")
        || str_equal(id, "VITASHELL") || str_equal(id, "VITADBDLD") || str_equal(id, "AUTOPLUG2")
        || str_equal(id, "PKGJ00000") || str_equal(id, "SKGTLSE12") || str_equal(id, "SHRKBR33D")
        || str_equal(id, "VGCF00001") || str_equal(id, "VITAHBSRT") || str_equal(id, "BHBB00001")
        || str_equal(id, "VHBB00001") || str_equal(id, "CTMANAGER") || str_equal(id, "PSVIDENT0")
        || str_equal(id, "OPENNOWV0") || str_equal(id, "VITAFORGE") || str_equal(id, "RETROFLOW")
        || str_equal(id, "RETROLNCR") || str_equal(id, "RETROVITA") || str_equal(id, "PCSI00011")
}

/// Decides whether a title is a utility from its normalized id, upper-cased
/// raw id, category and lower-cased title.
pub fn utility_decision(sanitized: &str, upper_id: &str, category: Option<&str>, lower_title: &str) -> (b: bool)
    ensures
        b == utility_decision_spec(
            sanitized@,
            upper_id@,
            match category {
                Some(c) => Some(c@),
                None => None,
            },
            lower_title@,
        ),
{
    if is_utility_id_exec(sanitized) {
        return true;
    }
    if starts_with(upper_id, "SKG") {
        proof {
            reveal_strlit("SKG");
            assert(upper_id@.take(3) =~= upper_id@.subrange(0, 3));
        }
        return true;
    }
    proof {
        reveal_strlit("SKG");
        if upper_id@.len() >= 3 {
            assert(upper_id@.take(3) =~= upper_id@.subrange(0, 3));
        }
    }
    match category {
        Some(cat) => {
            let t = trim(cat);
            if eq_ignore_ascii_case(t.as_str(), "sd") || eq_ignore_ascii_case(t.as_str(), "gda")
                || eq_ignore_ascii_case(t.as_str(), "Utility") {
                return true;
            }
        },
        None => {},
    }
    let mut i: usize = 0;
    while i < UTILITY_KEYWORD_COUNT
        invariant
            i <= UTILITY_KEYWORD_COUNT,
            forall|j: int| 0 <= j < i ==> !contains_seq(lower_title@, #[trigger] utility_keyword(j)),
        decreases UTILITY_KEYWORD_COUNT - i,
    {
        if str_contains(lower_title, utility_keyword_at(i)) {
            return true;
        }
        i = i + 1;
    }
    false
}

/// Whether a title is a homebrew tool or system utility rather than a game,
/// judged by its id, the category in its metadata and words in its title.
pub open spec fn known_utility_spec(title_id: Seq<char>, title: Seq<char>, category: Option<Seq<char>>) -> bool {
    utility_decision_spec(
        if title_id_shape(unicode_upper(undecorated_id(title_id))) {
            unicode_upper(undecorated_id(title_id))
        } else {
            unicode_upper(title_id)
        },
        unicode_upper(title_id),
        category,
        unicode_lower(title),
    )
}

/// Whether a title is a homebrew tool or system utility rather than a game,
/// judged by its id, the category in its metadata and words in its title.
pub fn is_known_utility(title_id: &str, title: &str, category: Option<&str>) -> (b: bool)
    ensures
        b == known_utility_spec(
            title_id@,
            title@,
            match category {
                Some(c) => Some(c@),
                None => None,
            },
        ),
        b == utility_decision_spec(
            if title_id_shape(unicode_upper(undecorated_id(title_id@))) {
                unicode_upper(undecorated_id(title_id@))
            } else {
                unicode_upper(title_id@)
            },
            unicode_upper(title_id@),
            match category {
                Some(c) => Some(c@),
                None => None,
            },
            unicode_lower(title@),
        ),
{
    let upper_id = to_uppercase(title_id);
    let sanitized = match sanitize_sony_title_id(title_id) {
        Some(s) => s,
        None => upper_id.clone(),
    };
    let lower_title = to_lowercase(title);
    utility_decision(sanitized.as_str(), upper_id.as_str(), category, lower_title.as_str())
}

/// The (key, value) texts of metadata fields.
pub open spec fn field_views(v: Seq<(String, String)>) -> Seq<(Seq<char>, Seq<char>)> {
    v.map_values(|p: (String, String)| (p.0@, p.1@))
}

/// The value of the first field named `key`.
pub open spec fn first_value(f: Seq<(Seq<char>, Seq<char>)>, key: Seq<char>) -> Option<Seq<char>>
    decreases f.len(),
{
    if f.len() == 0 {
        None
    } else if f[0].0 == key {
        Some(f[0].1)
    } else {
        first_value(f.drop_first(), key)
    }
}

fn find_field<'a>(fields: &'a [(String, String)], key: &str) -> (r: Option<&'a String>)
    ensures
        match r {
            Some(v) => first_value(field_views(fields@), key@) == Some(v@),
            None => first_value(field_views(fields@), key@) is None,
        },
{
    let ghost f = field_views(fields@);
    let mut i: usize = 0;
    proof {
        assert(f.skip(0) =~= f);
    }
    while i < fields.len()
        invariant
            f == field_views(fields@),
            i <= fields@.len(),
            first_value(f, key@) == first_value(f.skip(i as int), key@),
        decreases fields@.len() - i,
    {
        proof {
            assert(f.skip(i as int).drop_first() =~= f.skip(i as int + 1));
        }
        if str_equal(fields[i].0.as_str(), key) {
            return Some(&fields[i].1);
        }
        i = i + 1;
    }
    proof {
        assert(f.skip(i as int).len() == 0);
    }
    None
}

/// Title id prefixes of PlayStation discs.
pub open spec fn has_psx_prefix(id: Seq<char>) -> bool {
    exists|p: Seq<char>|
        (p == "SL"@ || p == "SC"@ || p == "SI"@ || p == "SE"@ || p == "ES"@ || p == "HP"@ || p == "CP"@
            || p == "PA"@) && p.len() <= id.len() && #[trigger] id.take(p.len() as int) == p
}

/// The platform of a game found in the PSP emulator folders: from the
/// category in its metadata when that tells, else from its id's prefix.
pub open spec fn classify_pspemu_spec(id: Seq<char>, fields: Option<Seq<(Seq<char>, Seq<char>)>>) -> System {
    let by_prefix = if has_psx_prefix(id) {
        System::Psx
    } else {
        System::Psp
    };
    match fields {
        Some(f) => match first_value(f, "CATEGORY"@) {
            Some(c) => {
                let t = trim_seq(c);
                if t == "ME"@ || t == "MA"@ {
                    System::Psx
                } else if t == "MG"@ || t == "UG"@ || t == "EG"@ || t == "MS"@ {
                    System::Psp
                } else {
                    by_prefix
                }
            },
            None => by_prefix,
        },
        None => by_prefix,
    }
}

/// Whether a title id starts with one of the PlayStation disc prefixes
/// `SL`, `SC`, `SI`, `SE`, `ES`, `HP`, `CP`, `PA`, letter by letter.
pub open spec fn disc_prefixed(id: Seq<char>) -> bool {
    id.len() >= 2 && {
        let (a, b) = (id[0], id[1]);
        ||| a == 'S' && (b == 'L' || b == 'C' || b == 'I' || b == 'E')
        ||| a == 'E' && b == 'S'
        ||| a == 'H' && b == 'P'
        ||| a == 'C' && b == 'P'
        ||| a == 'P' && b == 'A'
    }
}

/// A game in the PSP emulator folders is a PS1 game when its metadata's
/// `CATEGORY` (trimmed) is `ME` or `MA` and a PSP game when it is `MG`, `UG`,
/// `EG` or `MS`; with no metadata, no category, or another category, it is a
/// PS1 game exactly when its id starts with a PlayStation disc prefix.
pub proof fn law_pspemu_category(id: Seq<char>, fields: Option<Seq<(Seq<char>, Seq<char>)>>)
    ensures
        ({
            let cat = match fields {
                Some(f) => first_value(f, seq!['C', 'A', 'T', 'E', 'G', 'O', 'R', 'Y']),
                None => None,
            };
            let t = match cat {
                Some(c) => trim_seq(c),
                None => Seq::empty(),
            };
            let psx_cat = cat is Some && (t == seq!['M', 'E'] || t == seq!['M', 'A']);
            let psp_cat = cat is Some && (t == seq!['M', 'G'] || t == seq!['U', 'G'] || t == seq!['E', 'G'] || t
                == seq!['M', 'S']);
            &&& psx_cat ==> classify_pspemu_spec(id, fields) == System::Psx
            &&& psp_cat ==> classify_pspemu_spec(id, fields) == System::Psp
            &&& !psx_cat && !psp_cat ==> classify_pspemu_spec(id, fields) == (if disc_prefixed(id) {
                System::Psx
            } else {
                System::Psp
            })
        }),
{
    reveal_strlit("CATEGORY");
    reveal_strlit("ME");
    reveal_strlit("MA");
    reveal_strlit("MG");
    reveal_strlit("UG");
    reveal_strlit("EG");
    reveal_strlit("MS");
    assert("CATEGORY"@ =~= seq!['C', 'A', 'T', 'E', 'G', 'O', 'R', 'Y']);
    assert("ME"@ =~= seq!['M', 'E']);
    assert("MA"@ =~= seq!['M', 'A']);
    assert("MG"@ =~= seq!['M', 'G']);
    assert("UG"@ =~= seq!['U', 'G']);
    assert("EG"@ =~= seq!['E', 'G']);
    assert("MS"@ =~= seq!['M', 'S']);
    lemma_psx_prefix_letters(id);
}

proof fn lemma_psx_prefix_letters(id: Seq<char>)
    ensures
        has_psx_prefix(id) == disc_prefixed(id),
{
    reveal_strlit("SL");
    reveal_strlit("SC");
    reveal_strlit("SI");
    reveal_strlit("SE");
    reveal_strlit("ES");
    reveal_strlit("HP");
    reveal_strlit("CP");
    reveal_strlit("PA");
    if id.len() >= 2 {
        let t = id.take(2);
        assert(t[0] == id[0] && t[1] == id[1]);
        if disc_prefixed(id) {
            assert(t =~= seq![id[0], id[1]]);
            if id[0] == 'S' && id[1] == 'L' { assert(t =~= "SL"@); }
            if id[0] == 'S' && id[1] == 'C' { assert(t =~= "SC"@); }
            if id[0] == 'S' && id[1] == 'I' { assert(t =~= "SI"@); }
            if id[0] == 'S' && id[1] == 'E' { assert(t =~= "SE"@); }
            if id[0] == 'E' && id[1] == 'S' { assert(t =~= "ES"@); }
            if id[0] == 'H' && id[1] == 'P' { assert(t =~= "HP"@); }
            if id[0] == 'C' && id[1] == 'P' { assert(t =~= "CP"@); }
            if id[0] == 'P' && id[1] == 'A' { assert(t =~= "PA"@); }
        }
        if has_psx_prefix(id) {
            let p = choose|p: Seq<char>|
                (p == "SL"@ || p == "SC"@ || p == "SI"@ || p == "SE"@ || p == "ES"@ || p == "HP"@ || p == "CP"@
                    || p == "PA"@) && p.len() <= id.len() && #[trigger] id.take(p.len() as int) == p;
            assert(p.len() == 2);
            assert(p[0] == id[0] && p[1] == id[1]);
        }
    } else {
        if has_psx_prefix(id) {
            let p = choose|p: Seq<char>|
                (p == "SL"@ || p == "SC"@ || p == "SI"@ || p == "SE"@ || p == "ES"@ || p == "HP"@ || p == "CP"@
                    || p == "PA"@) && p.len() <= id.len() && #[trigger] id.take(p.len() as int) == p;
            assert(p.len() == 2);
        }
    }
}

fn prefix_matches(id: &str, p: &str) -> (b: bool)
    ensures
        b == (p@.len() <= id@.len() && id@.take(p@.len() as int) == p@),
{
    let b = starts_with(id, p);
    proof {
        if p@.len() <= id@.len() {
            assert(id@.take(p@.len() as int) =~= id@.subrange(0, p@.len() as int));
        }
    }
    b
}

fn psx_prefixed(id: &str) -> (b: bool)
    ensures
        b == has_psx_prefix(id@),
{
    let r = prefix_matches(id, "SL") || prefix_matches(id, "SC") || prefix_matches(id, "SI")
        || prefix_matches(id, "SE") || prefix_matches(id, "ES") || prefix_matches(id, "HP")
        || prefix_matches(id, "CP") || prefix_matches(id, "PA");
    proof {
        if !r {
            assert forall|p: Seq<char>|
                !((p == "SL"@ || p == "SC"@ || p == "SI"@ || p == "SE"@ || p == "ES"@ || p == "HP"@ || p
                    == "CP"@ || p == "PA"@) && p.len() <= id@.len() && #[trigger] id@.take(p.len() as int) == p) by {}
        }
    }
    r
}

/// The platform of a game found in the PSP emulator folders.
pub fn classify_pspemu(title_id: &str, sfo_fields: Option<&[(String, String)]>) -> (s: System)
    ensures
        s == classify_pspemu_spec(
            title_id@,
            match sfo_fields {
                Some(f) => Some(field_views(f@)),
                None => None,
            },
        ),
{
    match sfo_fields {
        Some(fields) => match find_field(fields, "CATEGORY") {
            Some(category) => {
                let cat = trim(category.as_str());
                let c = cat.as_str();
                if str_equal(c, "ME") || str_equal(c, "MA") {
                    return System::Psx;
                }
                if str_equal(c, "MG") || str_equal(c, "UG") || str_equal(c, "EG") || str_equal(c, "MS") {
                    return System::Psp;
                }
            },
            None => {},
        },
        None => {},
    }
    if psx_prefixed(title_id) {
        System::Psx
    } else {
        System::Psp
    }
}

/// The disc id named in a game's metadata (`DISC_ID`, else `TITLE_ID`),
/// trimmed and without dashes; nothing when absent or blank.
pub open spec fn disc_id_spec(f: Seq<(Seq<char>, Seq<char>)>) -> Option<Seq<char>> {
    let v = match first_value(f, "DISC_ID"@) {
        Some(v) => Some(v),
        None => first_value(f, "TITLE_ID"@),
    };
    match v {
        Some(v) => if trim_seq(v).len() > 0 {
            Some(trim_seq(v).filter(|c: char| c != '-'))
        } else {
            None
        },
        None => None,
    }
}

/// The disc id named in a game's metadata, trimmed and without dashes.
pub fn disc_id_from_sfo(fields: &[(String, String)]) -> (r: Option<String>)
    ensures
        match r {
            Some(s) => disc_id_spec(field_views(fields@)) == Some(s@),
            None => disc_id_spec(field_views(fields@)) is None,
        },
{
    let found = match find_field(fields, "DISC_ID") {
        Some(v) => Some(v),
        None => find_field(fields, "TITLE_ID"),
    };
    match found {
        Some(v) => {
            let t = trim(v.as_str());
            if t.as_str().is_empty() {
                return None;
            }
            let cs = chars_of(t.as_str());
            let mut out: Vec<char> = Vec::new();
            let mut i: usize = 0;
            while i < cs.len()
                invariant
                    i <= cs@.len(),
                    out@ == cs@.take(i as int).filter(|c: char| c != '-'),
                decreases cs@.len() - i,
            {
                proof {
                    reveal(Seq::filter);
                    assert(cs@.take(i as int + 1).drop_last() =~= cs@.take(i as int));
                }
                if cs[i] != '-' {
                    out.push(cs[i]);
                }
                i = i + 1;
            }
            proof {
                assert(cs@.take(i as int) =~= cs@);
            }
            Some(string_of(out.as_slice()))
        },
        None => None,
    }
}

/// The artwork key named by a game's metadata: its disc id, upper-cased.
pub fn art_key_from_sfo(sfo_fields: Option<&[(String, String)]>) -> (r: Option<String>)
    ensures
        match sfo_fields {
            Some(f) => match disc_id_spec(field_views(f@)) {
                Some(d) => r matches Some(k) && k@ == unicode_upper(d),
                None => r is None,
            },
            None => r is None,
        },
{
    match sfo_fields {
        Some(fields) => match disc_id_from_sfo(fields) {
            Some(d) => Some(to_uppercase(d.as_str())),
            None => None,
        },
        None => None,
    }
}

/// `a + b`, saturating at the largest `usize`.
pub open spec fn sat_add(a: int, b: int) -> int {
    if a + b > usize::MAX {
        usize::MAX as int
    } else {
        a + b
    }
}

/// Where the zero-terminated string at `start` ends (its terminator, or the
/// end of the data).
pub open spec fn cstr_end(d: Seq<u8>, start: int) -> int
    decreases d.len() - start,
{
    if start >= d.len() {
        d.len() as int
    } else if d[start] == 0 {
        start
    } else {
        cstr_end(d, start + 1)
    }
}

proof fn lemma_cstr_end(d: Seq<u8>, start: int)
    requires
        0 <= start <= d.len(),
    ensures
        start <= cstr_end(d, start) <= d.len(),
    decreases d.len() - start,
{
    if start < d.len() && d[start] != 0 {
        lemma_cstr_end(d, start + 1);
    }
}

/// The bytes of the zero-terminated string at `start`.
pub open spec fn cstr_at(d: Seq<u8>, start: int) -> Seq<u8> {
    d.subrange(start, cstr_end(d, start))
}

/// A metadata file starts with the `\0PSF` magic and a full header.
pub open spec fn sfo_header_ok(d: Seq<u8>) -> bool {
    d.len() >= 20 && d[0] == 0u8 && d[1] == 0x50u8 && d[2] == 0x53u8 && d[3] == 0x46u8
}

pub open spec fn u16_at(d: Seq<u8>, p: int) -> int {
    le_u16(d[p], d[p + 1]) as int
}

pub open spec fn u32_at(d: Seq<u8>, p: int) -> int {
    le_u32(d[p], d[p + 1], d[p + 2], d[p + 3]) as int
}

/// The wanted fields among the first `k` index entries of a metadata file,
/// in file order. An entry that runs past the data ends the table; one whose
/// key or value lies outside the data is skipped; names are decoded lossily.
pub open spec fn sfo_found(d: Seq<u8>, wanted: Seq<Seq<char>>, k: nat) -> Seq<(Seq<char>, Seq<char>)>
    decreases k,
{
    if k == 0 {
        Seq::empty()
    } else {
        let prev = sfo_found(d, wanted, (k - 1) as nat);
        let e = 20 + 16 * (k - 1);
        if e + 16 > d.len() {
            prev
        } else {
            let key_start = sat_add(u32_at(d, 8), u16_at(d, e));
            let data_start = sat_add(u32_at(d, 12), u32_at(d, e + 12));
            if key_start >= d.len() || data_start > d.len() {
                prev
            } else {
                let key = utf8_lossy(cstr_at(d, key_start));
                if wanted.contains(key) {
                    prev.push((key, utf8_lossy(cstr_at(d, data_start))))
                } else {
                    prev
                }
            }
        }
    }
}

/// Position of `key` among the wanted names (their count when absent).
pub open spec fn rank_of(wanted: Seq<Seq<char>>, key: Seq<char>) -> int
    decreases wanted.len(),
{
    if wanted.len() == 0 {
        0
    } else if wanted[0] == key {
        0
    } else {
        1 + rank_of(wanted.drop_first(), key)
    }
}

/// The fields of rank `r`, in their order.
pub open spec fn of_rank(items: Seq<(Seq<char>, Seq<char>)>, wanted: Seq<Seq<char>>, r: int) -> Seq<(Seq<char>, Seq<char>)> {
    items.filter(|kv: (Seq<char>, Seq<char>)| rank_of(wanted, kv.0) == r)
}

/// The fields of rank below `r`, grouped by rank, each group in its order:
/// a stable sort by rank.
pub open spec fn by_rank(items: Seq<(Seq<char>, Seq<char>)>, wanted: Seq<Seq<char>>, r: nat) -> Seq<(Seq<char>, Seq<char>)>
    decreases r,
{
    if r == 0 {
        Seq::empty()
    } else {
        by_rank(items, wanted, (r - 1) as nat) + of_rank(items, wanted, r - 1)
    }
}

/// The wanted fields of a metadata file, ordered by the position of their
/// name among the wanted names (stable); nothing when the header is bad.
pub open spec fn parse_sfo_spec(d: Seq<u8>, wanted: Seq<Seq<char>>) -> Option<Seq<(Seq<char>, Seq<char>)>> {
    if !sfo_header_ok(d) {
        None
    } else {
        Some(by_rank(sfo_found(d, wanted, u32_at(d, 16) as nat), wanted, wanted.len()))
    }
}

proof fn lemma_sfo_found_wanted(d: Seq<u8>, wanted: Seq<Seq<char>>, k: nat)
    ensures
        forall|i: int| 0 <= i < sfo_found(d, wanted, k).len() ==> wanted.contains(#[trigger] sfo_found(d, wanted, k)[i].0),
    decreases k,
{
    if k > 0 {
        let prev = sfo_found(d, wanted, (k - 1) as nat);
        lemma_sfo_found_wanted(d, wanted, (k - 1) as nat);
        let cur = sfo_found(d, wanted, k);
        assert forall|i: int| 0 <= i < cur.len() implies wanted.contains(#[trigger] cur[i].0) by {
            if i < prev.len() {
                assert(cur[i] == prev[i]);
            }
        }
    }
}

proof fn lemma_by_rank_from(items: Seq<(Seq<char>, Seq<char>)>, wanted: Seq<Seq<char>>, r: nat)
    ensures
        forall|i: int| 0 <= i < by_rank(items, wanted, r).len() ==> items.contains(#[trigger] by_rank(items, wanted, r)[i]),
        forall|i: int, j: int|
            0 <= i < j < by_rank(items, wanted, r).len() ==> rank_of(wanted, (#[trigger] by_rank(items, wanted, r)[i]).0)
                <= rank_of(wanted, (#[trigger] by_rank(items, wanted, r)[j]).0),
        forall|i: int| 0 <= i < by_rank(items, wanted, r).len() ==> rank_of(wanted, (#[trigger] by_rank(items, wanted, r)[i]).0) < r,
    decreases r,
{
    if r > 0 {
        let rp = (r - 1) as nat;
        lemma_by_rank_from(items, wanted, rp);
        let a = by_rank(items, wanted, rp);
        let f = |kv: (Seq<char>, Seq<char>)| rank_of(wanted, kv.0) == r - 1;
        let b = of_rank(items, wanted, r - 1);
        let c = by_rank(items, wanted, r);
        assert(c == a + b);
        assert forall|i: int| 0 <= i < b.len() implies items.contains(#[trigger] b[i]) && rank_of(wanted, b[i].0) == r - 1 by {
            assert(b.contains(b[i]));
            items.lemma_filter_contains_rev(f, b[i]);
            items.lemma_filter_pred(f, i);
        }
        assert forall|i: int| 0 <= i < c.len() implies items.contains(#[trigger] c[i]) && rank_of(wanted, c[i].0) < r by {
            if i < a.len() {
                assert(c[i] == a[i]);
            } else {
                assert(c[i] == b[i - a.len()]);
            }
        }
        assert forall|i: int, j: int| 0 <= i < j < c.len() implies rank_of(wanted, (#[trigger] c[i]).0) <= rank_of(
            wanted,
            (#[trigger] c[j]).0,
        ) by {
            if j < a.len() {
                assert(c[i] == a[i] && c[j] == a[j]);
            } else if i < a.len() {
                assert(c[i] == a[i] && c[j] == b[j - a.len()]);
            } else {
                assert(c[i] == b[i - a.len()] && c[j] == b[j - a.len()]);
            }
        }
    }
}

/// A metadata file parses exactly when it has at least 20 bytes and starts
/// with `00 50 53 46` (`\0PSF`); every field it gives is one of the wanted
/// names, and the fields come in the order of the wanted names.
pub proof fn law_sfo_fields(d: Seq<u8>, wanted: Seq<Seq<char>>)
    ensures
        (d.len() >= 20 && d[0] == 0 && d[1] == 80 && d[2] == 83 && d[3] == 70) <==> parse_sfo_spec(d, wanted) is Some,
        parse_sfo_spec(d, wanted) matches Some(f) ==> forall|i: int| 0 <= i < f.len() ==> wanted.contains(#[trigger] f[i].0),
        parse_sfo_spec(d, wanted) matches Some(f) ==> forall|i: int, j: int|
            0 <= i < j < f.len() ==> rank_of(wanted, (#[trigger] f[i]).0) <= rank_of(wanted, (#[trigger] f[j]).0),
{
    if sfo_header_ok(d) {
        let items = sfo_found(d, wanted, u32_at(d, 16) as nat);
        lemma_sfo_found_wanted(d, wanted, u32_at(d, 16) as nat);
        lemma_by_rank_from(items, wanted, wanted.len());
        let f = by_rank(items, wanted, wanted.len());
        assert forall|i: int| 0 <= i < f.len() implies wanted.contains(#[trigger] f[i].0) by {
            assert(items.contains(f[i]));
            let m = choose|m: int| 0 <= m < items.len() && items[m] == f[i];
            assert(wanted.contains(items[m].0));
        }
    }
}

/// The zero-terminated string at `start`, decoded lossily.
pub fn read_cstr(data: &[u8], start: usize) -> (s: String)
    requires
        start <= data@.len(),
    ensures
        s@ == utf8_lossy(cstr_at(data@, start as int)),
{
    let mut bytes: Vec<u8> = Vec::new();
    let mut i = start;
    proof {
        lemma_cstr_end(data@, start as int);
    }
    while i < data.len() && data[i] != 0
        invariant
            start <= i <= data@.len(),
            cstr_end(data@, start as int) == cstr_end(data@, i as int),
            bytes@ == data@.subrange(start as int, i as int),
        decreases data@.len() - i,
    {
        bytes.push(data[i]);
        proof {
            assert(bytes@ =~= data@.subrange(start as int, i as int + 1));
        }
        i = i + 1;
    }
    proof {
        assert(cstr_end(data@, i as int) == i);
    }
    decode_utf8_lossy(bytes.as_slice())
}

fn sat_add_usize(a: usize, b: usize) -> (r: usize)
    ensures
        r == sat_add(a as int, b as int),
{
    a.saturating_add(b)
}

fn wanted_contains(wanted: &[&str], key: &str) -> (b: bool)
    ensures
        b == wanted@.map_values(|w: &str| w@).contains(key@),
{
    let ghost w = wanted@.map_values(|w: &str| w@);
    let mut j: usize = 0;
    while j < wanted.len()
        invariant
            w == wanted@.map_values(|w: &str| w@),
            j <= wanted@.len(),
            forall|m: int| 0 <= m < j ==> w[m] != key@,
        decreases wanted@.len() - j,
    {
        if str_equal(wanted[j], key) {
            proof {
                assert(w[j as int] == key@);
            }
            return true;
        }
        j = j + 1;
    }
    false
}

fn rank_exec(wanted: &[&str], key: &str) -> (r: usize)
    ensures
        r == rank_of(wanted@.map_values(|w: &str| w@), key@),
{
    let ghost w = wanted@.map_values(|w: &str| w@);
    let mut i: usize = 0;
    proof {
        assert(w.skip(0) =~= w);
    }
    while i < wanted.len()
        invariant
            w == wanted@.map_values(|w: &str| w@),
            i <= wanted@.len(),
            rank_of(w, key@) == i + rank_of(w.skip(i as int), key@),
        decreases wanted@.len() - i,
    {
        proof {
            assert(w.skip(i as int).drop_first() =~= w.skip(i as int + 1));
        }
        if str_equal(wanted[i], key) {
            return i;
        }
        i = i + 1;
    }
    i
}

/// The wanted fields of a metadata (`param.sfo`) file, ordered as the
/// wanted names are; `None` when the data does not start with a valid header.
pub fn parse_sfo_fields(data: &[u8], wanted: &[&str]) -> (r: Option<Vec<(String, String)>>)
    ensures
        match r {
            Some(v) => parse_sfo_spec(data@, wanted@.map_values(|w: &str| w@)) == Some(field_views(v@)),
            None => parse_sfo_spec(data@, wanted@.map_values(|w: &str| w@)) is None,
        },
{
    let ghost w = wanted@.map_values(|w: &str| w@);
    if data.len() < 20 || data[0] != 0 || data[1] != 0x50 || data[2] != 0x53 || data[3] != 0x46 {
        return None;
    }
    let key_table = read_u32_le(data, 8) as usize;
    let data_table = read_u32_le(data, 12) as usize;
    let count = read_u32_le(data, 16);
    let mut found: Vec<(String, String)> = Vec::new();
    let mut k: u32 = 0;
    let mut entry: usize = 20;
    while k < count && entry <= data.len() - 16
        invariant
            w == wanted@.map_values(|w: &str| w@),
            data@.len() >= 20,
            key_table == u32_at(data@, 8),
            data_table == u32_at(data@, 12),
            count == u32_at(data@, 16),
            k <= count,
            entry == 20 + 16 * k,
            entry <= data@.len(),
            field_views(found@) == sfo_found(data@, w, k as nat),
        decreases count - k,
    {
        let key_offset = read_u16_le(data, entry) as usize;
        let value_offset = read_u32_le(data, entry + 12) as usize;
        let key_start = sat_add_usize(key_table, key_offset);
        let data_start = sat_add_usize(data_table, value_offset);
        if !(key_start >= data.len() || data_start > data.len()) {
            let key = read_cstr(data, key_start);
            let hit = wanted_contains(wanted, key.as_str());
            if hit {
                let value = read_cstr(data, data_start);
                let ghost f0 = found@;
                found.push((key, value));
                proof {
                    assert(field_views(found@) =~= field_views(f0).push((key@, value@)));
                }
            }
        }
        k = k + 1;
        entry = entry + 16;
    }
    proof {
        if k < count {
            // Every later entry runs past the data as well.
            lemma_sfo_found_past_end(data@, w, k as nat, count as nat);
        }
    }
    let mut sorted: Vec<(String, String)> = Vec::new();
    let ghost items = field_views(found@);
    let mut r: usize = 0;
    while r < wanted.len()
        invariant
            w == wanted@.map_values(|w: &str| w@),
            items == field_views(found@),
            r <= wanted@.len(),
            field_views(sorted@) == by_rank(items, w, r as nat),
        decreases wanted@.len() - r,
    {
        let ghost before = field_views(sorted@);
        let mut i: usize = 0;
        while i < found.len()
            invariant
                w == wanted@.map_values(|w: &str| w@),
                items == field_views(found@),
                r < wanted@.len(),
                i <= found@.len(),
                field_views(sorted@) == before + of_rank(items.take(i as int), w, r as int),
            decreases found@.len() - i,
        {
            proof {
                reveal(Seq::filter);
                assert(items.take(i as int + 1).drop_last() =~= items.take(i as int));
            }
            if rank_exec(wanted, found[i].0.as_str()) == r {
                let pair = (found[i].0.clone(), found[i].1.clone());
                let ghost s0 = sorted@;
                sorted.push(pair);
                proof {
                    assert(field_views(sorted@) =~= field_views(s0).push(items[i as int]));
                    assert(of_rank(items.take(i as int + 1), w, r as int) == of_rank(items.take(i as int), w, r as int).push(items[i as int]));
                }
            }
            i = i + 1;
        }
        proof {
            assert(items.take(i as int) =~= items);
        }
        r = r + 1;
    }
    Some(sorted)
}

proof fn lemma_sfo_found_past_end(d: Seq<u8>, wanted: Seq<Seq<char>>, k: nat, m: nat)
    requires
        k <= m,
        20 + 16 * k + 16 > d.len(),
    ensures
        sfo_found(d, wanted, m) == sfo_found(d, wanted, k),
    decreases m - k,
{
    if m > k {
        lemma_sfo_found_past_end(d, wanted, k, (m - 1) as nat);
        assert(20 + 16 * (m - 1) + 16 > d.len()) by (nonlinear_arith)
            requires
                k <= m - 1,
                20 + 16 * k + 16 > d.len(),
        ;
    }
}

/// The value of the first field whose value is not blank.
pub open spec fn first_nonblank_value(f: Seq<(Seq<char>, Seq<char>)>) -> Option<Seq<char>>
    decreases f.len(),
{
    if f.len() == 0 {
        None
    } else if trim_seq(f[0].1).len() > 0 {
        Some(f[0].1)
    } else {
        first_nonblank_value(f.drop_first())
    }
}

/// The title in a metadata file: the first non-blank of its `TITLE` and
/// `STITLE` fields, made displayable.
pub open spec fn sfo_title_spec(d: Seq<u8>) -> Option<Seq<char>> {
    match parse_sfo_spec(d, seq!["TITLE"@, "STITLE"@]) {
        Some(f) => match first_nonblank_value(f) {
            Some(v) => Some(normalized_title(v)),
            None => None,
        },
        None => None,
    }
}

/// The title in a metadata (`param.sfo`) file, if it has a non-blank one.
pub fn parse_sfo_title(data: &[u8]) -> (r: Option<String>)
    ensures
        match r {
            Some(t) => sfo_title_spec(data@) == Some(t@),
            None => sfo_title_spec(data@) is None,
        },
{
    let wanted: Vec<&str> = vec!["TITLE", "STITLE"];
    proof {
        assert(wanted@.map_values(|w: &str| w@) =~= seq!["TITLE"@, "STITLE"@]);
    }
    let fields = match parse_sfo_fields(data, wanted.as_slice()) {
        Some(f) => f,
        None => return None,
    };
    let ghost f = field_views(fields@);
    let mut i: usize = 0;
    proof {
        assert(f.skip(0) =~= f);
    }
    while i < fields.len()
        invariant
            f == field_views(fields@),
            parse_sfo_spec(data@, seq!["TITLE"@, "STITLE"@]) == Some(f),
            i <= fields@.len(),
            first_nonblank_value(f) == first_nonblank_value(f.skip(i as int)),
        decreases fields@.len() - i,
    {
        proof {
            assert(f.skip(i as int).drop_first() =~= f.skip(i as int + 1));
            assert(f.skip(i as int)[0] == (fields@[i as int].0@, fields@[i as int].1@));
        }
        let trimmed = trim(fields[i].1.as_str());
        if !trimmed.as_str().is_empty() {
            return Some(normalize_title(fields[i].1.as_str()));
        }
        i = i + 1;
    }
    proof {
        assert(f.skip(i as int).len() == 0);
    }
    None
}

/// The category in a metadata file.
pub open spec fn sfo_category_spec(d: Seq<u8>) -> Option<Seq<char>> {
    match parse_sfo_spec(d, seq!["CATEGORY"@]) {
        Some(f) => first_value(f, "CATEGORY"@),
        None => None,
    }
}

/// The category in a metadata (`param.sfo`) file, if it has one.
pub fn parse_sfo_category(data: &[u8]) -> (r: Option<String>)
    ensures
        match r {
            Some(c) => sfo_category_spec(data@) == Some(c@),
            None => sfo_category_spec(data@) is None,
        },
{
    let wanted: Vec<&str> = vec!["CATEGORY"];
    proof {
        assert(wanted@.map_values(|w: &str| w@) =~= seq!["CATEGORY"@]);
    }
    match parse_sfo_fields(data, wanted.as_slice()) {
        Some(fields) => match find_field(fields.as_slice(), "CATEGORY") {
            Some(v) => Some(v.clone()),
            None => None,
        },
        None => None,
    }
}

/// The section offsets of an `EBOOT.PBP` header: its metadata, icon and
/// the section after the icon. Nothing unless the header is complete and
/// starts with the `\0PBP` magic.
pub open spec fn pbp_offsets_spec(h: Seq<u8>) -> Option<(u32, u32, u32)> {
    if h.len() >= 0x28 && h[0] == 0u8 && h[1] == 0x50u8 && h[2] == 0x42u8 && h[3] == 0x50u8 {
        Some((
            le_u32(h[8], h[9], h[10], h[11]),
            le_u32(h[12], h[13], h[14], h[15]),
            le_u32(h[16], h[17], h[18], h[19]),
        ))
    } else {
        None
    }
}

/// An `EBOOT.PBP` header of at least 40 bytes that starts with `00 50 42 50`
/// gives the offsets of its metadata, icon and next section as the
/// little-endian 32-bit numbers at bytes 8, 12 and 16; any other header
/// gives none.
pub proof fn law_pbp_offsets(h: Seq<u8>)
    ensures
        (h.len() >= 40 && h[0] == 0 && h[1] == 80 && h[2] == 66 && h[3] == 80) <==> pbp_offsets_spec(h) is Some,
        pbp_offsets_spec(h) matches Some(o) ==> o.0 as int == h[8] + 256 * h[9] + 65536 * h[10] + 16777216 * h[11]
            && o.1 as int == h[12] + 256 * h[13] + 65536 * h[14] + 16777216 * h[15] && o.2 as int == h[16] + 256 * h[17]
            + 65536 * h[18] + 16777216 * h[19],
{
    if h.len() >= 40 {
        lemma_le_values(h[8], h[9], h[10], h[11]);
        lemma_le_values(h[12], h[13], h[14], h[15]);
        lemma_le_values(h[16], h[17], h[18], h[19]);
    }
}

/// The section offsets of an `EBOOT.PBP` header.
pub fn pbp_offsets(header: &[u8]) -> (r: Option<(u32, u32, u32)>)
    ensures
        r == pbp_offsets_spec(header@),
{
    if header.len() < 0x28 || header[0] != 0 || header[1] != 0x50 || header[2] != 0x42 || header[3] != 0x50 {
        return None;
    }
    Some((read_u32_le(header, 8), read_u32_le(header, 12), read_u32_le(header, 16)))
}

/// The largest section read out of an `EBOOT.PBP`.
pub const MAX_PBP_SECTION_BYTES: u32 = 4194304;

/// How many bytes to read for the section from `start` to `end`: none when
/// the range is empty or larger than the limit.
pub fn pbp_section_len(start: u32, end: u32) -> (n: u32)
    ensures
        n == if end <= start || end - start > MAX_PBP_SECTION_BYTES {
            0
        } else {
            end - start
        },
{
    if end <= start {
        return 0;
    }
    let len = end - start;
    if len > MAX_PBP_SECTION_BYTES {
        0
    } else {
        len
    }
}

/// The two sections the launcher reads from an `EBOOT.PBP`.
pub struct PbpSections {
    pub param_sfo: Vec<u8>,
    pub icon0: Vec<u8>,
}

/// Value of a string of ASCII digits.
pub open spec fn digits_value(d: Seq<char>) -> int
    decreases d.len(),
{
    if d.len() == 0 {
        0
    } else {
        digits_value(d.drop_last()) * 10 + (d.last() as int - '0' as int)
    }
}

/// The digits part of a byte value: without one leading `+`.
pub open spec fn u8_digits(s: Seq<char>) -> Seq<char> {
    if s.len() > 0 && s[0] == '+' {
        s.drop_first()
    } else {
        s
    }
}

/// What `str::parse::<u8>` gives: an optional `+`, then one or more ASCII
/// digits whose value fits in a byte.
pub open spec fn parse_u8_spec(s: Seq<char>) -> Option<u8> {
    let d = u8_digits(s);
    if d.len() > 0 && (forall|i: int| 0 <= i < d.len() ==> is_ascii_digit(#[trigger] d[i])) && digits_value(d)
        <= 255 {
        Some(digits_value(d) as u8)
    } else {
        None
    }
}

proof fn lemma_digits_value_nonneg(d: Seq<char>)
    requires
        forall|i: int| 0 <= i < d.len() ==> is_ascii_digit(#[trigger] d[i]),
    ensures
        digits_value(d) >= 0,
    decreases d.len(),
{
    if d.len() > 0 {
        lemma_digits_value_nonneg(d.drop_last());
    }
}

proof fn lemma_digits_value_grows(d: Seq<char>, i: int)
    requires
        0 <= i <= d.len(),
        forall|j: int| 0 <= j < d.len() ==> is_ascii_digit(#[trigger] d[j]),
    ensures
        digits_value(d.take(i)) <= digits_value(d),
    decreases d.len() - i,
{
    if i < d.len() {
        lemma_digits_value_grows(d, i + 1);
        assert(d.take(i + 1).drop_last() =~= d.take(i));
        lemma_digits_value_nonneg(d.take(i));
    } else {
        assert(d.take(i) =~= d);
    }
}

/// Parses a byte value as `str::parse::<u8>` does.
pub fn parse_u8(s: &str) -> (r: Option<u8>)
    ensures
        r == parse_u8_spec(s@),
{
    let v = chars_of(s);
    let mut i: usize = 0;
    if v.len() > 0 && v[0] == '+' {
        i = 1;
    }
    let start = i;
    let ghost d = u8_digits(s@);
    proof {
        assert(d =~= v@.skip(start as int));
    }
    if start == v.len() {
        proof {
            assert(d.len() == 0);
            assert(parse_u8_spec(s@) is None);
        }
        return None;
    }
    let mut value: u32 = 0;
    while i < v.len()
        invariant
            v@ == s@,
            d == u8_digits(s@),
            d =~= v@.skip(start as int),
            start <= i <= v@.len(),
            forall|j: int| 0 <= j < i - start ==> is_ascii_digit(#[trigger] d[j]),
            value == digits_value(d.take(i - start)),
            value <= 255,
        decreases v@.len() - i,
    {
        let c = v[i];
        proof {
            assert(d.take(i - start + 1).drop_last() =~= d.take(i - start));
            assert(d[i - start] == c);
        }
        if !('0' <= c && c <= '9') {
            proof {
                assert(!is_ascii_digit(d[i - start]));
                assert(!(forall|j: int| 0 <= j < d.len() ==> is_ascii_digit(#[trigger] d[j])));
                assert(parse_u8_spec(s@) is None);
            }
            return None;
        }
        let digit = (c as u32) - ('0' as u32);
        let next = value * 10 + digit;
        if next > 255 {
            proof {
                assert forall|j: int| 0 <= j < i - start + 1 implies is_ascii_digit(#[trigger] d[j]) by {}
                if forall|j: int| 0 <= j < d.len() ==> is_ascii_digit(#[trigger] d[j]) {
                    lemma_digits_value_grows(d, i - start + 1);
                }
            }
            return None;
        }
        value = next;
        i = i + 1;
    }
    proof {
        assert(d.take(i - start) =~= d);
    }
    Some(value as u8)
}

/// The override map built by a sequence of (id, value) assignments, later
/// ones winning.
pub open spec fn assignments_map(v: Seq<(Seq<char>, u8)>) -> Map<Seq<char>, u8>
    decreases v.len(),
{
    if v.len() == 0 {
        Map::empty()
    } else {
        assignments_map(v.drop_last()).insert(v.last().0, v.last().1)
    }
}

/// The assignment a trimmed line of the overrides file makes, if any: the
/// line `ID = N`, with `ID` upper-cased and `N` a byte value. Comment lines
/// start with `#`.
pub open spec fn override_line(l: Seq<char>) -> Option<(Seq<char>, u8)> {
    let eq = first_index(l, '=');
    if l.len() > 0 && l[0] == '#' {
        None
    } else if eq < 0 {
        None
    } else {
        match parse_u8_spec(trim_seq(l.skip(eq + 1))) {
            Some(n) => Some((unicode_upper(trim_seq(l.take(eq))), n)),
            None => None,
        }
    }
}

/// Index of the first `c` in `s`, or -1.
pub open spec fn first_index(s: Seq<char>, c: char) -> int
    decreases s.len(),
{
    if s.len() == 0 {
        -1
    } else if s[0] == c {
        0
    } else if first_index(s.drop_first(), c) < 0 {
        -1
    } else {
        1 + first_index(s.drop_first(), c)
    }
}

/// The assignments made by the lines of the overrides file, in order.
pub open spec fn override_assignments(lines: Seq<Seq<char>>) -> Seq<(Seq<char>, u8)>
    decreases lines.len(),
{
    if lines.len() == 0 {
        Seq::empty()
    } else {
        let prev = override_assignments(lines.drop_last());
        match override_line(lines.last()) {
            Some(a) => prev.push(a),
            None => prev,
        }
    }
}

pub(crate) fn find_first(v: &[char], c: char) -> (r: Option<usize>)
    ensures
        match r {
            Some(i) => first_index(v@, c) == i,
            None => first_index(v@, c) == -1,
        },
{
    let mut i: usize = 0;
    proof {
        assert(v@.skip(0) =~= v@);
    }
    while i < v.len()
        invariant
            i <= v@.len(),
            forall|j: int| 0 <= j < i ==> v@[j] != c,
        decreases v@.len() - i,
    {
        if v[i] == c {
            proof {
                lemma_first_index_at(v@, c, i as int);
            }
            return Some(i);
        }
        i = i + 1;
    }
    proof {
        lemma_first_index_none(v@, c);
    }
    None
}

pub(crate) proof fn lemma_first_index_bound(s: Seq<char>, c: char)
    ensures
        -1 <= first_index(s, c) < s.len(),
    decreases s.len(),
{
    if s.len() > 0 {
        lemma_first_index_bound(s.drop_first(), c);
    }
}

proof fn lemma_first_index_at(s: Seq<char>, c: char, i: int)
    requires
        0 <= i < s.len(),
        s[i] == c,
        forall|j: int| 0 <= j < i ==> s[j] != c,
    ensures
        first_index(s, c) == i,
    decreases i,
{
    if i > 0 {
        lemma_first_index_at(s.drop_first(), c, i - 1);
    }
}

proof fn lemma_first_index_none(s: Seq<char>, c: char)
    requires
        forall|j: int| 0 <= j < s.len() ==> s[j] != c,
    ensures
        first_index(s, c) == -1,
    decreases s.len(),
{
    if s.len() > 0 {
        lemma_first_index_none(s.drop_first(), c);
    }
}

/// The assignments of the overrides file's text (`ID = N` per line), in order.
pub fn parse_overrides(text: &str) -> (v: Vec<(String, u8)>)
    ensures
        v@.map_values(|p: (String, u8)| (p.0@, p.1)) == override_assignments(content_lines(text@)),
{
    let lines = content_lines_of(text);
    let ghost ls = views(lines@);
    let mut out: Vec<(String, u8)> = Vec::new();
    let mut i: usize = 0;
    while i < lines.len()
        invariant
            ls == views(lines@),
            ls == content_lines(text@),
            i <= lines@.len(),
            out@.map_values(|p: (String, u8)| (p.0@, p.1)) == override_assignments(ls.take(i as int)),
        decreases lines@.len() - i,
    {
        proof {
            assert(ls.take(i as int + 1).drop_last() =~= ls.take(i as int));
            assert(ls.take(i as int + 1).last() == lines@[i as int]@);
        }
        let cs = chars_of(lines[i].as_str());
        if !(cs.len() > 0 && cs[0] == '#') {
            let sl = cs.as_slice();
            let found = find_first(sl, '=');
            proof {
                lemma_first_index_bound(cs@, '=');
                assert(sl@ == cs@);
            }
            match found {
                Some(eq) => {
                    let mut before: Vec<char> = Vec::new();
                    let mut after: Vec<char> = Vec::new();
                    let mut j: usize = 0;
                    while j < cs.len()
                        invariant
                            eq < cs@.len(),
                            j <= cs@.len(),
                            before@ == cs@.take(if j < eq { j as int } else { eq as int }),
                            after@ == if j <= eq { Seq::<char>::empty() } else { cs@.subrange(eq as int + 1, j as int) },
                        decreases cs@.len() - j,
                    {
                        if j < eq {
                            before.push(cs[j]);
                            proof {
                                assert(before@ =~= cs@.take(j as int + 1));
                            }
                        } else if j > eq {
                            after.push(cs[j]);
                            proof {
                                assert(after@ =~= cs@.subrange(eq as int + 1, j as int + 1));
                            }
                        } else {
                            proof {
                                assert(cs@.subrange(eq as int + 1, j as int + 1) =~= Seq::<char>::empty());
                            }
                        }
                        j = j + 1;
                    }
                    proof {
                        assert(after@ =~= cs@.skip(eq as int + 1));
                    }
                    let val = trim(string_of(after.as_slice()).as_str());
                    match parse_u8(val.as_str()) {
                        Some(n) => {
                            let id = trim(string_of(before.as_slice()).as_str());
                            let key = to_uppercase(id.as_str());
                            let ghost o0 = out@;
                            out.push((key, n));
                            proof {
                                assert(out@.map_values(|p: (String, u8)| (p.0@, p.1)) =~= o0.map_values(
                                    |p: (String, u8)| (p.0@, p.1),
                                ).push((key@, n)));
                            }
                        },
                        None => {},
                    }
                },
                None => {},
            }
        }
        i = i + 1;
    }
    proof {
        assert(ls.take(i as int) =~= ls);
    }
    out
}

proof fn lemma_assignments_last(v: Seq<(Seq<char>, u8)>, k: Seq<char>, i: int)
    requires
        0 <= i < v.len(),
        v[i].0 == k,
        forall|j: int| i < j < v.len() ==> v[j].0 != k,
    ensures
        assignments_map(v).contains_key(k),
        assignments_map(v)[k] == v[i].1,
    decreases v.len(),
{
    if i < v.len() - 1 {
        lemma_assignments_last(v.drop_last(), k, i);
    }
}

proof fn lemma_assignments_absent(v: Seq<(Seq<char>, u8)>, k: Seq<char>)
    requires
        forall|j: int| 0 <= j < v.len() ==> v[j].0 != k,
    ensures
        !assignments_map(v).contains_key(k),
    decreases v.len(),
{
    if v.len() > 0 {
        lemma_assignments_absent(v.drop_last(), k);
    }
}

/// The override value in force for an app directory name, if any (exact match).
pub fn override_for(overrides: &[(String, u8)], dir_name: &str) -> (r: Option<u8>)
    ensures
        ({
            let m = assignments_map(overrides@.map_values(|p: (String, u8)| (p.0@, p.1)));
            r == if m.contains_key(dir_name@) {
                Some(m[dir_name@])
            } else {
                None
            }
        }),
{
    let ghost v = overrides@.map_values(|p: (String, u8)| (p.0@, p.1));
    let mut i = overrides.len();
    while i > 0
        invariant
            v == overrides@.map_values(|p: (String, u8)| (p.0@, p.1)),
            i <= overrides@.len(),
            forall|j: int| i <= j < overrides@.len() ==> v[j].0 != dir_name@,
        decreases i,
    {
        if str_equal(overrides[i - 1].0.as_str(), dir_name) {
            proof {
                lemma_assignments_last(v, dir_name@, i - 1);
            }
            return Some(overrides[i - 1].1);
        }
        i = i - 1;
    }
    proof {
        lemma_assignments_absent(v, dir_name@);
    }
    None
}

/// The platform of an installed app, and whether to hide it, as decided from
/// the override in force, the app id, whether it has a PSP boot image, the
/// platform of its matching emulator entry and whether its id has an
/// `EBOOT.PBP`.
pub open spec fn classify_app_spec(
    dir_name: Seq<char>,
    override_value: Option<u8>,
    has_boot_bin: bool,
    pspemu_hint: Option<System>,
    has_pbp: bool,
) -> (System, bool) {
    match override_value {
        Some(n) => if n == 1 {
            (System::Vita, false)
        } else if n == 2 {
            (System::Psp, false)
        } else if n == 3 {
            (System::Psx, false)
        } else if n == 4 {
            (System::Vita, true)
        } else {
            (System::Vita, false)
        },
        None => if dir_name.len() >= 3 && dir_name.take(3) == "PCS"@ && !(dir_name.len() >= 4
            && dir_name.take(4) == "PCSI"@) {
            (System::Vita, false)
        } else if has_boot_bin {
            match pspemu_hint {
                Some(h) => (h, false),
                None => if has_pbp {
                    (System::Psx, false)
                } else {
                    (System::Psp, false)
                },
            }
        } else {
            (System::Vita, false)
        },
    }
}

/// An override in the overrides file decides an app's platform whatever its
/// id and files: 1 makes it a Vita app, 2 a PSP game, 3 a PS1 game, and 4 a
/// Vita app that is hidden; any other value leaves it a Vita app, shown.
/// Without an override, an app whose id starts with `PCS` (and not `PCSI`)
/// or that has no emulator boot file is a Vita app, and nothing is hidden.
pub proof fn law_classify_overrides(
    dir_name: Seq<char>,
    override_value: Option<u8>,
    has_boot_bin: bool,
    pspemu_hint: Option<System>,
    has_pbp: bool,
)
    ensures
        override_value == Some(1u8) ==> classify_app_spec(dir_name, override_value, has_boot_bin, pspemu_hint, has_pbp)
            == (System::Vita, false),
        override_value == Some(2u8) ==> classify_app_spec(dir_name, override_value, has_boot_bin, pspemu_hint, has_pbp)
            == (System::Psp, false),
        override_value == Some(3u8) ==> classify_app_spec(dir_name, override_value, has_boot_bin, pspemu_hint, has_pbp)
            == (System::Psx, false),
        override_value == Some(4u8) ==> classify_app_spec(dir_name, override_value, has_boot_bin, pspemu_hint, has_pbp)
            == (System::Vita, true),
        override_value matches Some(n) && (n == 0 || n > 4) ==> classify_app_spec(
            dir_name,
            override_value,
            has_boot_bin,
            pspemu_hint,
            has_pbp,
        ) == (System::Vita, false),
        override_value is None ==> !classify_app_spec(dir_name, override_value, has_boot_bin, pspemu_hint, has_pbp).1,
        override_value is None && !has_boot_bin ==> classify_app_spec(dir_name, override_value, has_boot_bin, pspemu_hint, has_pbp).0
            == System::Vita,
        override_value is None && has_boot_bin && dir_name.len() >= 3 && dir_name[0] == 'P' && dir_name[1] == 'C'
            && dir_name[2] == 'S' && !(dir_name.len() >= 4 && dir_name[3] == 'I') ==> classify_app_spec(
            dir_name,
            override_value,
            has_boot_bin,
            pspemu_hint,
            has_pbp,
        ).0 == System::Vita,
        override_value is None && has_boot_bin && !(dir_name.len() >= 3 && dir_name[0] == 'P' && dir_name[1] == 'C'
            && dir_name[2] == 'S' && !(dir_name.len() >= 4 && dir_name[3] == 'I')) ==> classify_app_spec(
            dir_name,
            override_value,
            has_boot_bin,
            pspemu_hint,
            has_pbp,
        ).0 == match pspemu_hint {
            Some(h) => h,
            None => if has_pbp { System::Psx } else { System::Psp },
        },
{
    reveal_strlit("PCS");
    reveal_strlit("PCSI");
    if dir_name.len() >= 3 && dir_name.take(3) == "PCS"@ {
        assert(dir_name[0] == dir_name.take(3)[0] && dir_name[1] == dir_name.take(3)[1] && dir_name[2] == dir_name.take(3)[2]);
        if dir_name.len() >= 4 && dir_name[3] == 'I' {
            assert(dir_name.take(4) =~= "PCSI"@);
        }
    }
    if dir_name.len() >= 3 && dir_name[0] == 'P' && dir_name[1] == 'C' && dir_name[2] == 'S' {
        assert(dir_name.take(3) =~= "PCS"@);
        if dir_name.len() >= 4 && dir_name.take(4) == "PCSI"@ {
            assert(dir_name[3] == dir_name.take(4)[3]);
        }
    }
}

/// The platform of an installed app, and whether to hide it.
pub fn classify_app(
    dir_name: &str,
    override_value: Option<u8>,
    has_boot_bin: bool,
    pspemu_hint: Option<System>,
    has_pbp: bool,
) -> (r: (System, bool))
    ensures
        r == classify_app_spec(dir_name@, override_value, has_boot_bin, pspemu_hint, has_pbp),
{
    match override_value {
        Some(n) => {
            return if n == 1 {
                (System::Vita, false)
            } else if n == 2 {
                (System::Psp, false)
            } else if n == 3 {
                (System::Psx, false)
            } else if n == 4 {
                (System::Vita, true)
            } else {
                (System::Vita, false)
            };
        },
        None => {},
    }
    proof {
        reveal_strlit("PCS");
        reveal_strlit("PCSI");
    }
    if prefix_matches(dir_name, "PCS") && !prefix_matches(dir_name, "PCSI") {
        return (System::Vita, false);
    }
    if has_boot_bin {
        match pspemu_hint {
            Some(h) => return (h, false),
            None => {},
        }
        if has_pbp {
            return (System::Psx, false);
        }
        return (System::Psp, false);
    }
    (System::Vita, false)
}

/// The Sony title id a raw name stands for, as `sanitize_sony_title_id`
/// gives it.
pub open spec fn sanitized_id(raw: Seq<char>) -> Option<Seq<char>> {
    if title_id_shape(unicode_upper(undecorated_id(raw))) {
        Some(unicode_upper(undecorated_id(raw)))
    } else {
        None
    }
}

fn sanitized(raw: &str) -> (r: Option<String>)
    ensures
        match r {
            Some(s) => sanitized_id(raw@) == Some(s@),
            None => sanitized_id(raw@) is None,
        },
{
    sanitize_sony_title_id(raw)
}

/// The first `TITLE` or `STITLE` field whose value is not blank.
pub open spec fn first_title_field(f: Seq<(Seq<char>, Seq<char>)>) -> Option<Seq<char>>
    decreases f.len(),
{
    if f.len() == 0 {
        None
    } else if (f[0].0 == "TITLE"@ || f[0].0 == "STITLE"@) && trim_seq(f[0].1).len() > 0 {
        Some(f[0].1)
    } else {
        first_title_field(f.drop_first())
    }
}

/// The title of a game in the PSP emulator folders: its first non-blank
/// title field, made displayable, or else its folder name.
pub open spec fn pbp_title_spec(id: Seq<char>, fields: Option<Seq<(Seq<char>, Seq<char>)>>) -> Seq<char> {
    match fields {
        Some(f) => match first_title_field(f) {
            Some(v) => normalized_title(v),
            None => id,
        },
        None => id,
    }
}

/// The title of a game in the PSP emulator folders, from its metadata.
pub fn pbp_title(title_id: &str, sfo_fields: Option<&[(String, String)]>) -> (r: String)
    ensures
        r@ == pbp_title_spec(
            title_id@,
            match sfo_fields {
                Some(f) => Some(field_views(f@)),
                None => None,
            },
        ),
{
    match sfo_fields {
        Some(fields) => {
            let ghost f = field_views(fields@);
            let mut i: usize = 0;
            proof {
                assert(f.skip(0) =~= f);
            }
            while i < fields.len()
                invariant
                    sfo_fields == Some(fields),
                    f == field_views(fields@),
                    i <= fields@.len(),
                    first_title_field(f) == first_title_field(f.skip(i as int)),
                decreases fields@.len() - i,
            {
                proof {
                    assert(f.skip(i as int).drop_first() =~= f.skip(i as int + 1));
                    assert(f.skip(i as int)[0] == (fields@[i as int].0@, fields@[i as int].1@));
                }
                let k = fields[i].0.as_str();
                let is_title_key = str_equal(k, "TITLE") || str_equal(k, "STITLE");
                let trimmed = trim(fields[i].1.as_str());
                if is_title_key && !trimmed.as_str().is_empty() {
                    proof {
                        assert(trim_seq(fields@[i as int].1@).len() > 0);
                        assert(first_title_field(f.skip(i as int)) == Some(fields@[i as int].1@));
                    }
                    let r = normalize_title(fields[i].1.as_str());
                    return r;
                }
                i = i + 1;
            }
            proof {
                assert(f.skip(i as int).len() == 0);
            }
            title_id.to_owned()
        },
        None => title_id.to_owned(),
    }
}

/// The artwork key of an installed app: its own id for a Vita app; for an
/// emulated game the key of its emulator entry, else its sanitized id, else
/// its id.
pub open spec fn app_art_key_spec(system: System, id: Seq<char>, pspemu_art_key: Option<Seq<char>>) -> Seq<char> {
    match system {
        System::Vita => id,
        _ => match pspemu_art_key {
            Some(k) => k,
            None => match sanitized_id(id) {
                Some(s) => s,
                None => id,
            },
        },
    }
}

/// The artwork key of an installed app.
pub fn app_art_key(system: System, title_id: &str, pspemu_art_key: Option<&str>) -> (r: String)
    ensures
        r@ == app_art_key_spec(
            system,
            title_id@,
            match pspemu_art_key {
                Some(k) => Some(k@),
                None => None,
            },
        ),
{
    match system {
        System::Vita => title_id.to_owned(),
        _ => match pspemu_art_key {
            Some(k) => k.to_owned(),
            None => match sanitized(title_id) {
                Some(s) => s,
                None => title_id.to_owned(),
            },
        },
    }
}

/// The title shown for an installed app: its own non-blank title when that
/// differs from its id, else the title of its emulator entry when that
/// differs, else its own non-blank title, else its id.
pub open spec fn app_title_spec(id: Seq<char>, local: Option<Seq<char>>, pspemu: Option<Seq<char>>) -> Seq<char> {
    let own = match local {
        Some(t) => if trim_seq(t).len() > 0 {
            Some(t)
        } else {
            None
        },
        None => None,
    };
    if own is Some && own->0 != id {
        own->0
    } else if pspemu is Some && pspemu->0 != id {
        pspemu->0
    } else if own is Some {
        own->0
    } else {
        id
    }
}

/// The title shown for an installed app.
pub fn choose_app_title(title_id: &str, local_title: Option<String>, pspemu_title: Option<&str>) -> (r: String)
    ensures
        r@ == app_title_spec(
            title_id@,
            match local_title {
                Some(t) => Some(t@),
                None => None,
            },
            match pspemu_title {
                Some(t) => Some(t@),
                None => None,
            },
        ),
{
    let own = match local_title {
        Some(t) => if trim(t.as_str()).as_str().is_empty() {
            None
        } else {
            Some(t)
        },
        None => None,
    };
    let own_differs = match &own {
        Some(t) => !str_equal(t.as_str(), title_id),
        None => false,
    };
    if own_differs {
        return own.unwrap();
    }
    match pspemu_title {
        Some(p) => if !str_equal(p, title_id) {
            return p.to_owned();
        },
        None => {},
    }
    match own {
        Some(t) => t,
        None => title_id.to_owned(),
    }
}

/// Whether `s` ends with `p`.
pub open spec fn has_suffix(s: Seq<char>, p: Seq<char>) -> bool {
    p.len() <= s.len() && s.skip(s.len() - p.len()) == p
}

/// A disc image in the emulator's ISO folders: the name it is known by
/// (without extension), its artwork key and its title.
pub struct IsoEntry {
    pub stem: String,
    pub art_key: String,
    pub title: String,
}

/// What a disc image file name gives: nothing for junk, for a file that is
/// not `.iso` or `.cso` (in any case), or when no title is left; otherwise
/// its stem, its artwork key (the sanitized id of the name, else of the
/// title, else the title) and its title.
pub open spec fn iso_entry_spec(name: Seq<char>) -> Option<(Seq<char>, Seq<char>, Seq<char>)> {
    let lower = unicode_lower(name);
    let title = clean_rom_spec(name);
    let stem = before_last(name, '.');
    let art_key = match sanitized_id(name) {
        Some(s) => s,
        None => match sanitized_id(title) {
            Some(s) => s,
            None => title,
        },
    };
    if is_junk_spec(name) {
        None
    } else if !(has_suffix(lower, ".iso"@) || has_suffix(lower, ".cso"@)) {
        None
    } else if title.len() == 0 {
        None
    } else if is_junk_spec(stem) {
        None
    } else {
        Some((stem, art_key, title))
    }
}

fn chars_prefix(v: &[char], n: usize) -> (s: String)
    requires
        n <= v@.len(),
    ensures
        s@ == v@.take(n as int),
{
    let mut out: Vec<char> = Vec::new();
    let mut i: usize = 0;
    while i < n
        invariant
            n <= v@.len(),
            i <= n,
            out@ == v@.take(i as int),
        decreases n - i,
    {
        out.push(v[i]);
        proof {
            assert(out@ =~= v@.take(i as int + 1));
        }
        i = i + 1;
    }
    string_of(out.as_slice())
}

/// The entry a disc image file name gives, if any.
pub fn iso_entry(name: &str) -> (r: Option<IsoEntry>)
    ensures
        match r {
            Some(e) => iso_entry_spec(name@) == Some((e.stem@, e.art_key@, e.title@)),
            None => iso_entry_spec(name@) is None,
        },
{
    if is_junk_name(name) {
        return None;
    }
    let lower = to_lowercase(name);
    if !(ends_with(lower.as_str(), ".iso") || ends_with(lower.as_str(), ".cso")) {
        return None;
    }
    let title = clean_rom_name(name);
    if title.as_str().is_empty() {
        return None;
    }
    let art_key = match sanitized(name) {
        Some(s) => s,
        None => match sanitized(title.as_str()) {
            Some(s) => s,
            None => title.clone(),
        },
    };
    let all = chars_of(name);
    proof {
        lemma_last_index_of(all@, '.');
    }
    let stem = match find_last(all.as_slice(), '.') {
        Some(i) => chars_prefix(all.as_slice(), i),
        None => name.to_owned(),
    };
    if is_junk_name(stem.as_str()) {
        return None;
    }
    Some(IsoEntry { stem, art_key, title })
}

/// An emulator entry is found by `needle` through its artwork key or its
/// name, ignoring ASCII case.
pub open spec fn entry_matches(e: (Seq<char>, Seq<char>), needle: Seq<char>) -> bool {
    lower_seq(e.1) == lower_seq(needle) || lower_seq(e.0) == lower_seq(needle)
}

/// What an app's folder name is looked up by among emulator entries when no
/// entry has that name: its sanitized id, else its upper-cased name.
pub open spec fn pspemu_needle(bubble: Seq<char>) -> Seq<char> {
    match sanitized_id(bubble) {
        Some(s) => s,
        None => unicode_upper(bubble),
    }
}

/// The (name, artwork key) texts of emulator entries.
pub open spec fn entry_views(v: Seq<(String, String)>) -> Seq<(Seq<char>, Seq<char>)> {
    v.map_values(|p: (String, String)| (p.0@, p.1@))
}

/// The emulator entry (given as name and artwork key) that an installed
/// app's folder name refers to: the first entry with that very name, else
/// the first one its needle matches.
pub fn find_pspemu_entry(entries: &[(String, String)], bubble_id: &str) -> (r: Option<usize>)
    ensures
        ({
            let e = entry_views(entries@);
            let exact = exists|j: int| 0 <= j < e.len() && #[trigger] e[j].0 == bubble_id@;
            match r {
                Some(i) => i < e.len() && if exact {
                    e[i as int].0 == bubble_id@ && forall|j: int| 0 <= j < i ==> #[trigger] e[j].0 != bubble_id@
                } else {
                    entry_matches(e[i as int], pspemu_needle(bubble_id@)) && forall|j: int|
                        0 <= j < i ==> !entry_matches(#[trigger] e[j], pspemu_needle(bubble_id@))
                },
                None => !exact && forall|j: int|
                    0 <= j < e.len() ==> !entry_matches(#[trigger] e[j], pspemu_needle(bubble_id@)),
            }
        }),
{
    let ghost e = entry_views(entries@);
    let mut i: usize = 0;
    while i < entries.len()
        invariant
            e == entry_views(entries@),
            i <= entries@.len(),
            forall|j: int| 0 <= j < i ==> #[trigger] e[j].0 != bubble_id@,
        decreases entries@.len() - i,
    {
        if str_equal(entries[i].0.as_str(), bubble_id) {
            return Some(i);
        }
        i = i + 1;
    }
    let needle = match sanitized(bubble_id) {
        Some(s) => s,
        None => to_uppercase(bubble_id),
    };
    let mut i: usize = 0;
    while i < entries.len()
        invariant
            e == entry_views(entries@),
            i <= entries@.len(),
            needle@ == pspemu_needle(bubble_id@),
            forall|j: int| 0 <= j < e.len() ==> #[trigger] e[j].0 != bubble_id@,
            forall|j: int| 0 <= j < i ==> !entry_matches(#[trigger] e[j], pspemu_needle(bubble_id@)),
        decreases entries@.len() - i,
    {
        if eq_ignore_ascii_case(entries[i].1.as_str(), needle.as_str()) || eq_ignore_ascii_case(
            entries[i].0.as_str(),
            needle.as_str(),
        ) {
            return Some(i);
        }
        i = i + 1;
    }
    None
}

/// Image bytes and whether they are PNG (otherwise JPEG).
pub type ImageBytes = (bool, Vec<u8>);

/// A game in the library.
#[derive(Clone)]
pub struct Game {
    pub title_id: String,
    pub art_key: String,
    pub title: String,
    pub system: System,
    pub cover_bytes: Option<ImageBytes>,
    pub hero_bytes: Option<ImageBytes>,
    pub logo_bytes: Option<ImageBytes>,
    pub has_box_art: bool,
    pub has_hero: bool,
    pub has_logo: bool,
    pub is_game: Option<bool>,
    pub music_path: Option<String>,
    pub music_resolved: bool,
    pub has_bubble: bool,
    pub file_path: Option<String>,
}

/// What is remembered of a game between launches (no image bytes).
#[derive(Clone)]
pub struct CachedGame {
    pub title_id: String,
    pub art_key: String,
    pub title: String,
    pub system: System,
    pub has_box_art: bool,
    pub has_hero: bool,
    pub has_logo: bool,
    pub is_game: Option<bool>,
    pub music_path: Option<String>,
    pub music_resolved: bool,
    pub has_bubble: bool,
    pub file_path: Option<String>,
}

/// `c` keeps everything of `g` but its images.
pub open spec fn cached_matches(c: CachedGame, g: Game) -> bool {
    &&& c.title_id@ == g.title_id@
    &&& c.art_key@ == g.art_key@
    &&& c.title@ == g.title@
    &&& c.system == g.system
    &&& c.has_box_art == g.has_box_art
    &&& c.has_hero == g.has_hero
    &&& c.has_logo == g.has_logo
    &&& c.is_game == g.is_game
    &&& c.music_path == g.music_path
    &&& c.music_resolved == g.music_resolved
    &&& c.has_bubble == g.has_bubble
    &&& c.file_path == g.file_path
}

pub(crate) fn clone_opt_string(o: &Option<String>) -> (r: Option<String>)
    ensures
        r == *o,
{
    match o {
        Some(s) => Some(s.clone()),
        None => None,
    }
}

impl CachedGame {
    /// The remembered part of a game.
    pub fn from_game(g: &Game) -> (c: Self)
        ensures
            cached_matches(c, *g),
    {
        CachedGame {
            title_id: g.title_id.clone(),
            art_key: g.art_key.clone(),
            title: g.title.clone(),
            system: g.system,
            has_box_art: g.has_box_art,
            has_hero: g.has_hero,
            has_logo: g.has_logo,
            is_game: g.is_game,
            music_path: clone_opt_string(&g.music_path),
            music_resolved: g.music_resolved,
            has_bubble: g.has_bubble,
            file_path: clone_opt_string(&g.file_path),
        }
    }
}

impl Game {
    /// A game restored from what was remembered; its images are loaded later.
    pub fn from_cached(c: CachedGame) -> (g: Self)
        ensures
            cached_matches(c, g),
            g.cover_bytes is None,
            g.hero_bytes is None,
            g.logo_bytes is None,
    {
        Game {
            title_id: c.title_id,
            art_key: c.art_key,
            title: c.title,
            system: c.system,
            cover_bytes: None,
            hero_bytes: None,
            logo_bytes: None,
            has_box_art: c.has_box_art,
            has_hero: c.has_hero,
            has_logo: c.has_logo,
            is_game: c.is_game,
            music_path: c.music_path,
            music_resolved: c.music_resolved,
            has_bubble: c.has_bubble,
            file_path: c.file_path,
        }
    }
}

/// The remembered part of each game, in order.
pub fn cache_entries(games: &[Game]) -> (v: Vec<CachedGame>)
    ensures
        v@.len() == games@.len(),
        forall|i: int| 0 <= i < v@.len() ==> cached_matches(#[trigger] v@[i], games@[i]),
{
    let mut v: Vec<CachedGame> = Vec::new();
    let mut i: usize = 0;
    while i < games.len()
        invariant
            i <= games@.len(),
            v@.len() == i,
            forall|j: int| 0 <= j < i ==> cached_matches(#[trigger] v@[j], games@[j]),
        decreases games@.len() - i,
    {
        v.push(CachedGame::from_game(&games[i]));
        i = i + 1;
    }
    v
}

/// Games restored from the remembered list; nothing when the list is empty.
pub fn games_from_cache(cached: Vec<CachedGame>) -> (r: Option<Vec<Game>>)
    ensures
        cached@.len() == 0 ==> r is None,
        cached@.len() > 0 ==> (r matches Some(g) && g@.len() == cached@.len() && forall|i: int|
            0 <= i < g@.len() ==> cached_matches(cached@[i], #[trigger] g@[i])),
{
    if cached.len() == 0 {
        return None;
    }
    let ghost c0 = cached@;
    let mut rest = cached;
    let mut games: Vec<Game> = Vec::new();
    while rest.len() > 0
        invariant
            games@.len() + rest@.len() == c0.len(),
            rest@ == c0.skip(games@.len() as int),
            forall|j: int| 0 <= j < games@.len() ==> cached_matches(c0[j], #[trigger] games@[j]),
        decreases rest@.len(),
    {
        let c = rest.remove(0);
        proof {
            assert(c == c0[games@.len() as int]);
        }
        games.push(Game::from_cached(c));
        proof {
            assert(rest@ =~= c0.skip(games@.len() as int));
        }
    }
    Some(games)
}

/// Where a game's music is: its own file, else the cached download when one
/// exists.
pub fn resolved_music_path(game: &Game, cached_music_exists: bool) -> (r: Option<String>)
    ensures
        game.music_path is Some ==> r == game.music_path,
        game.music_path is None && cached_music_exists ==> (r matches Some(p) && p@ == cache_path(
            music_dir(),
            game.system,
            game.art_key@,
        ) + ".mp3"@),
        game.music_path is None && !cached_music_exists ==> r is None,
{
    match &game.music_path {
        Some(p) => Some(p.clone()),
        None => {
            if cached_music_exists {
                let mut p = music_cache_path(game.system, game.art_key.as_str());
                push_str(&mut p, ".mp3");
                Some(p)
            } else {
                None
            }
        },
    }
}

/// The keys games are ordered by.
pub open spec fn title_keys(games: Seq<Game>) -> Seq<Seq<char>> {
    games.map_values(|g: Game| unicode_lower(g.title@))
}

/// The key games are ordered by: the lower-cased title.
pub open spec fn game_title_key() -> spec_fn(Game) -> Seq<char> {
    |g: Game| unicode_lower(g.title@)
}

/// Orders games by their lower-cased title (stable), as the library shows them.
pub fn sort_games_by_title(games: &mut Vec<Game>)
    ensures
        final(games)@.to_multiset() == old(games)@.to_multiset(),
        forall|k: Seq<char>| final(games)@.filter(#[trigger] has_key(game_title_key(), k)) == old(games)@.filter(
            has_key(game_title_key(), k),
        ),
        forall|i: int, j: int| 0 <= i < j < final(games)@.len() ==> !seq_lt(
            #[trigger] title_keys(final(games)@)[j],
            #[trigger] title_keys(final(games)@)[i],
        ),
{
    let ghost orig = games@;
    let mut out: Vec<Game> = Vec::new();
    let mut keys: Vec<String> = Vec::new();
    proof {
        assert(out@ + games@ =~= games@);
        lemma_stable_start(orig, game_title_key());
        assert(out@ =~= Seq::<Game>::empty());
    }
    while games.len() > 0
        invariant
            keys@.len() == out@.len(),
            forall|k: int| 0 <= k < keys@.len() ==> (#[trigger] keys@[k])@ == unicode_lower(out@[k].title@),
            forall|a: int, b: int| 0 <= a < b < keys@.len() ==> !seq_lt(#[trigger] keys@[b]@, #[trigger] keys@[a]@),
            (out@ + games@).to_multiset() == orig.to_multiset(),
            forall|k: Seq<char>| out@.filter(#[trigger] has_key(game_title_key(), k)) + games@.filter(has_key(game_title_key(), k))
                == orig.filter(has_key(game_title_key(), k)),
        decreases games@.len(),
    {
        let ghost before_rest = games@;
        let g = games.remove(0);
        let key = to_lowercase(g.title.as_str());
        // Insert after every key that is not greater, so that equal keys keep their order.
        let mut j: usize = 0;
        while j < keys.len() && !str_lt(key.as_str(), keys[j].as_str())
            invariant
                j <= keys@.len(),
                forall|k: int| 0 <= k < j ==> !seq_lt(key@, #[trigger] keys@[k]@),
            decreases keys@.len() - j,
        {
            j = j + 1;
        }
        let ghost kb = keys@;
        let ghost ob = out@;
        let ghost kv = key@;
        keys.insert(j, key);
        out.insert(j, g);
        proof {
            assert forall|a: int, b: int| 0 <= a < b < keys@.len() implies !seq_lt(#[trigger] keys@[b]@, #[trigger] keys@[a]@) by {
                if a < j && b == j {
                    assert(!seq_lt(kv, kb[a]@));
                } else if a == j && b > j {
                    if j < kb.len() {
                        assert(seq_lt(kv, kb[j as int]@));
                        if b - 1 > j {
                            assert(!seq_lt(kb[b - 1]@, kb[j as int]@));
                            lemma_seq_lt_total(kb[j as int]@, kb[b - 1]@);
                            if seq_lt(kb[b - 1]@, kv) {
                                if kb[j as int]@ == kb[b - 1]@ {
                                    lemma_seq_lt_asymmetric(kv, kb[j as int]@);
                                } else {
                                    lemma_seq_lt_transitive(kb[j as int]@, kb[b - 1]@, kv);
                                    lemma_seq_lt_asymmetric(kv, kb[j as int]@);
                                }
                            }
                        } else {
                            lemma_seq_lt_asymmetric(kv, kb[j as int]@);
                        }
                    }
                } else if a < j && b > j {
                    assert(keys@[a] == kb[a]);
                    assert(keys@[b] == kb[b - 1]);
                } else if a > j {
                    assert(keys@[a] == kb[a - 1]);
                    assert(keys@[b] == kb[b - 1]);
                }
            }
            assert forall|k: int| 0 <= k < keys@.len() implies (#[trigger] keys@[k])@ == unicode_lower(out@[k].title@) by {
                if k < j {
                    assert(keys@[k] == kb[k]);
                    assert(out@[k] == ob[k]);
                } else if k > j {
                    assert(keys@[k] == kb[k - 1]);
                    assert(out@[k] == ob[k - 1]);
                }
            }
            broadcast use vstd::multiset::group_multiset_axioms;
            assert(before_rest =~= seq![g] + games@);
            vstd::seq_lib::to_multiset_insert(ob, j as int, g);
            vstd::seq_lib::lemma_multiset_commutative(ob, before_rest);
            vstd::seq_lib::lemma_multiset_commutative(out@, games@);
            vstd::seq_lib::lemma_multiset_commutative(seq![g], games@);
            vstd::seq_lib::to_multiset_build(games@, g);
            assert(games@.push(g).to_multiset() == (seq![g] + games@).to_multiset()) by {
                assert(games@.push(g) =~= games@ + seq![g]);
                vstd::seq_lib::lemma_multiset_commutative(games@, seq![g]);
            }
            assert((out@ + games@).to_multiset() =~= (ob + before_rest).to_multiset());
            let kbs = kb.map_values(|e: String| e@);
            assert forall|m: int| 0 <= m < ob.len() implies game_title_key()(#[trigger] ob[m]) == kbs[m] by {}
            assert forall|a: int, b: int| 0 <= a < b < kbs.len() implies !text_order()(#[trigger] kbs[b], #[trigger] kbs[a]) by {}
            crate::text::lemma_seq_lt_irreflexive(kv);
            lemma_stable_step(ob, kbs, j as int, g, games@, orig, game_title_key(), text_order());
        }
    }
    proof {
        assert(out@ + games@ =~= out@);
        assert forall|k: Seq<char>| out@.filter(#[trigger] has_key(game_title_key(), k)) == orig.filter(has_key(game_title_key(), k)) by {
            crate::text::lemma_filter_none(games@, has_key(game_title_key(), k));
            assert(out@.filter(has_key(game_title_key(), k)) + Seq::<Game>::empty() =~= out@.filter(has_key(game_title_key(), k)));
        }
        assert forall|a: int, b: int| 0 <= a < b < out@.len() implies !seq_lt(
            #[trigger] title_keys(out@)[b],
            #[trigger] title_keys(out@)[a],
        ) by {
            assert(title_keys(out@)[a] == keys@[a]@);
            assert(title_keys(out@)[b] == keys@[b]@);
        }
    }
    *games = out;
}

/// The launcher's own title id, never listed as a game.
pub open spec fn own_title_id() -> Seq<char> {
    "VITADECK1"@
}

/// The app folders taken as Vita titles, from the folder names found under
/// the app roots (each with its root's index, roots in search order): a
/// name of 9 bytes that is not the launcher's own id, the first time it is
/// seen (a title in an earlier root wins).
pub open spec fn vita_app_dirs(entries: Seq<(usize, Seq<char>)>) -> Seq<(usize, Seq<char>)>
    decreases entries.len(),
{
    if entries.len() == 0 {
        Seq::empty()
    } else {
        let prev = vita_app_dirs(entries.drop_last());
        let (root, name) = entries.last();
        if crate::store::utf8_len(name) == 9 && name != own_title_id() && !prev.map_values(
            |p: (usize, Seq<char>)| p.1,
        ).contains(name) {
            prev.push((root, name))
        } else {
            prev
        }
    }
}

/// Picks the app folders that are Vita titles from the folder names found
/// under the app roots, in order.
pub fn select_vita_apps(entries: &[(usize, String)]) -> (r: Vec<(usize, String)>)
    ensures
        r@.map_values(|p: (usize, String)| (p.0, p.1@)) == vita_app_dirs(
            entries@.map_values(|p: (usize, String)| (p.0, p.1@)),
        ),
{
    let ghost ev = entries@.map_values(|p: (usize, String)| (p.0, p.1@));
    let mut out: Vec<(usize, String)> = Vec::new();
    let mut seen: Vec<String> = Vec::new();
    let mut i: usize = 0;
    proof {
        assert(ev.take(0) =~= Seq::<(usize, Seq<char>)>::empty());
        assert(out@.map_values(|p: (usize, String)| (p.0, p.1@)) =~= Seq::<(usize, Seq<char>)>::empty());
        assert(views(seen@) =~= Seq::<Seq<char>>::empty());
    }
    while i < entries.len()
        invariant
            i <= entries@.len(),
            ev == entries@.map_values(|p: (usize, String)| (p.0, p.1@)),
            out@.map_values(|p: (usize, String)| (p.0, p.1@)) == vita_app_dirs(ev.take(i as int)),
            views(seen@) == vita_app_dirs(ev.take(i as int)).map_values(|p: (usize, Seq<char>)| p.1),
        decreases entries@.len() - i,
    {
        proof {
            assert(ev.take(i as int + 1).drop_last() =~= ev.take(i as int));
            assert(ev.take(i as int + 1).last() == ev[i as int]);
        }
        let root = entries[i].0;
        let name = entries[i].1.as_str();
        if crate::store::utf8_len_is(name, 9) && !str_equal(name, "VITADECK1") && !crate::text::contains_string(&seen, name) {
            let ghost o0 = out@;
            let ghost s0 = seen@;
            let ghost prev = vita_app_dirs(ev.take(i as int));
            out.push((root, name.to_owned()));
            seen.push(name.to_owned());
            proof {
                reveal_strlit("VITADECK1");
                assert(out@.map_values(|p: (usize, String)| (p.0, p.1@)) =~= o0.map_values(
                    |p: (usize, String)| (p.0, p.1@),
                ).push((root, name@)));
                crate::text::lemma_views_push(s0, seen@.last());
                assert(prev.push((root, name@)).map_values(|p: (usize, Seq<char>)| p.1) =~= prev.map_values(
                    |p: (usize, Seq<char>)| p.1,
                ).push(name@));
            }
        } else {
            proof {
                reveal_strlit("VITADECK1");
            }
        }
        i = i + 1;
    }
    proof {
        assert(ev.take(i as int) =~= ev);
    }
    out
}

/// What the index of PSP emulator folders knows of an app: its artwork
/// key, its title and the platform it hints at.
pub struct AppHit {
    pub art_key: String,
    pub title: String,
    pub system: System,
}

/// How an installed app is listed: its platform, artwork key, title and
/// whether it is known not to be a game.
pub struct AppIdentity {
    pub system: System,
    pub art_key: String,
    pub title: String,
    pub is_game: Option<bool>,
}

/// The listing of an installed app from what its folder and metadata show:
/// the platform and hiding decided by `classify_app_spec`, the artwork key
/// and title by `app_art_key_spec` and `app_title_spec`, and `Some(false)`
/// (not a game) when hidden or when its id or artwork key marks a utility.
pub open spec fn app_identity_spec(
    id: Seq<char>,
    local_title: Option<Seq<char>>,
    category: Option<Seq<char>>,
    hit: Option<(Seq<char>, Seq<char>, System)>,
    override_value: Option<u8>,
    has_boot_bin: bool,
    has_pbp: bool,
) -> (System, Seq<char>, Seq<char>, Option<bool>) {
    let hint = match hit { Some(h) => Some(h.2), None => None };
    let (system, hidden) = classify_app_spec(id, override_value, has_boot_bin, hint, has_pbp);
    let art_key = app_art_key_spec(system, id, match hit { Some(h) => Some(h.0), None => None });
    let title = app_title_spec(id, local_title, match hit { Some(h) => Some(h.1), None => None });
    let utility = known_utility_spec(id, title, category) || known_utility_spec(art_key, title, category);
    (system, art_key, title, if hidden || utility { Some(false) } else { None })
}

/// Decides how an installed app is listed.
pub fn vita_app_identity(
    title_id: &str,
    local_title: Option<String>,
    category: Option<&str>,
    hit: Option<&AppHit>,
    override_value: Option<u8>,
    has_boot_bin: bool,
    has_pbp: bool,
) -> (r: AppIdentity)
    ensures
        (r.system, r.art_key@, r.title@, r.is_game) == app_identity_spec(
            title_id@,
            match local_title { Some(t) => Some(t@), None => None },
            match category { Some(c) => Some(c@), None => None },
            match hit { Some(h) => Some((h.art_key@, h.title@, h.system)), None => None },
            override_value,
            has_boot_bin,
            has_pbp,
        ),
{
    let hint = match hit { Some(h) => Some(h.system), None => None };
    let (system, hidden) = classify_app(title_id, override_value, has_boot_bin, hint, has_pbp);
    let art_key = app_art_key(system, title_id, match hit { Some(h) => Some(h.art_key.as_str()), None => None });
    let title = choose_app_title(title_id, local_title, match hit { Some(h) => Some(h.title.as_str()), None => None });
    let utility = is_known_utility(title_id, title.as_str(), category)
        || is_known_utility(art_key.as_str(), title.as_str(), category);
    let is_game = if hidden || utility { Some(false) } else { None };
    AppIdentity { system, art_key, title, is_game }
}

/// The path of entry `name` under folder `dir`.
pub open spec fn child_path(dir: Seq<char>, name: Seq<char>) -> Seq<char> {
    dir + "/"@ + name
}

/// The category folders among the entries of `dir` (each entry with whether
/// it is a folder that holds no game of its own): the paths of those that
/// are such folders and not junk, in ascending order without repeats.
pub fn category_children(dir: &str, entries: &[(String, bool)]) -> (r: Vec<String>)
    ensures
        strictly_sorted(views(r@)),
        forall|k: Seq<char>| #[trigger] views(r@).contains(k) == exists|i: int|
            0 <= i < entries@.len() && entries@[i].1 && !is_junk_spec(entries@[i].0@) && k == child_path(
                dir@,
                #[trigger] entries@[i].0@,
            ),
{
    let mut out: Vec<String> = Vec::new();
    let prefix = concat(dir, "/");
    proof {
        reveal_strlit("/");
        assert(views(out@) =~= Seq::<Seq<char>>::empty());
    }
    let mut i: usize = 0;
    while i < entries.len()
        invariant
            i <= entries@.len(),
            prefix@ == dir@ + "/"@,
            strictly_sorted(views(out@)),
            forall|k: Seq<char>| #[trigger] views(out@).contains(k) == exists|j: int|
                0 <= j < i && entries@[j].1 && !is_junk_spec(entries@[j].0@) && k == child_path(
                    dir@,
                    #[trigger] entries@[j].0@,
                ),
        decreases entries@.len() - i,
    {
        let ghost before = views(out@);
        if entries[i].1 && !is_junk_name(entries[i].0.as_str()) {
            let path = concat(prefix.as_str(), entries[i].0.as_str());
            insert_sorted(&mut out, path);
            proof {
                assert forall|k: Seq<char>| #[trigger] views(out@).contains(k) == exists|j: int|
                    0 <= j < i + 1 && entries@[j].1 && !is_junk_spec(entries@[j].0@) && k == child_path(
                        dir@,
                        #[trigger] entries@[j].0@,
                    ) by {
                    if k == path@ {
                        assert(entries@[i as int].0@ == entries@[i as int].0@);
                    }
                }
            }
        } else {
            proof {
                assert forall|k: Seq<char>| #[trigger] views(out@).contains(k) == exists|j: int|
                    0 <= j < i + 1 && entries@[j].1 && !is_junk_spec(entries@[j].0@) && k == child_path(
                        dir@,
                        #[trigger] entries@[j].0@,
                    ) by {
                    if exists|j: int| 0 <= j < i + 1 && entries@[j].1 && !is_junk_spec(entries@[j].0@) && k == child_path(
                        dir@,
                        #[trigger] entries@[j].0@,
                    ) {
                        let j = choose|j: int| 0 <= j < i + 1 && entries@[j].1 && !is_junk_spec(entries@[j].0@) && k == child_path(
                            dir@,
                            #[trigger] entries@[j].0@,
                        );
                        assert(j < i);
                    }
                }
            }
        }
        i = i + 1;
    }
    out
}

/// Paths in ascending order without repeats.
pub fn sorted_unique(paths: &[String]) -> (r: Vec<String>)
    ensures
        strictly_sorted(views(r@)),
        forall|k: Seq<char>| #[trigger] views(r@).contains(k) == views(paths@).contains(k),
{
    let mut out: Vec<String> = Vec::new();
    proof {
        assert(views(out@) =~= Seq::<Seq<char>>::empty());
    }
    let mut i: usize = 0;
    while i < paths.len()
        invariant
            i <= paths@.len(),
            strictly_sorted(views(out@)),
            forall|k: Seq<char>| #[trigger] views(out@).contains(k) == views(paths@.take(i as int)).contains(k),
        decreases paths@.len() - i,
    {
        proof {
            assert(views(paths@.take(i as int + 1)) =~= views(paths@.take(i as int)).push(paths@[i as int]@));
        }
        let x = paths[i].clone();
        insert_sorted(&mut out, x);
        proof {
            let a = views(paths@.take(i as int));
            assert forall|k: Seq<char>| #[trigger] a.push(paths@[i as int]@).contains(k) == (a.contains(k) || k == paths@[i as int]@) by {
                if a.push(paths@[i as int]@).contains(k) {
                    let j = choose|j: int| 0 <= j < a.len() + 1 && a.push(paths@[i as int]@)[j] == k;
                    if j < a.len() {
                        assert(a[j] == k);
                    }
                }
                if a.contains(k) {
                    let j = choose|j: int| 0 <= j < a.len() && a[j] == k;
                    assert(a.push(paths@[i as int]@)[j] == k);
                }
                if k == paths@[i as int]@ {
                    assert(a.push(paths@[i as int]@)[a.len() as int] == k);
                }
            }
        }
        i = i + 1;
    }
    proof {
        assert(paths@.take(i as int) =~= paths@);
    }
    out
}

/// What the card shows of an installed app's artwork and music.
pub struct AppMedia {
    pub has_box_art: bool,
    pub has_hero: bool,
    pub has_logo: bool,
    /// Music found in the app's folder.
    pub music_path: Option<String>,
    /// Music already in the cache.
    pub music_cached: bool,
}

/// The library entry of an installed app with a LiveArea bubble: its id and
/// listing, no image loaded yet, the artwork and music found for it (music
/// counts as found when it is in the folder or the cache), and as its file
/// the emulator folder's file when the PSP emulator index knows the app,
/// else the app's folder.
pub fn vita_app_game(
    title_id: String,
    identity: AppIdentity,
    media: AppMedia,
    dir: String,
    pspemu_file: Option<String>,
) -> (g: Game)
    ensures
        g.title_id == title_id,
        g.art_key == identity.art_key,
        g.title == identity.title,
        g.system == identity.system,
        g.is_game == identity.is_game,
        g.cover_bytes is None && g.hero_bytes is None && g.logo_bytes is None,
        g.has_box_art == media.has_box_art,
        g.has_hero == media.has_hero,
        g.has_logo == media.has_logo,
        g.music_resolved == (media.music_path is Some || media.music_cached),
        g.music_path == media.music_path,
        g.has_bubble,
        g.file_path == Some(match pspemu_file { Some(f) => f, None => dir }),
{
    let music_resolved = media.music_path.is_some() || media.music_cached;
    let file = match pspemu_file {
        Some(f) => f,
        None => dir,
    };
    Game {
        title_id,
        art_key: identity.art_key,
        title: identity.title,
        system: identity.system,
        cover_bytes: None,
        hero_bytes: None,
        logo_bytes: None,
        has_box_art: media.has_box_art,
        has_hero: media.has_hero,
        has_logo: media.has_logo,
        is_game: identity.is_game,
        music_path: media.music_path,
        music_resolved,
        has_bubble: true,
        file_path: Some(file),
    }
}

} // verus!
