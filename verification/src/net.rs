use vstd::prelude::*;

use crate::scanner::{digits_value, is_ascii_digit, u8_digits, last_index_of};
use crate::text::{
    chars_of, concat, decode_utf8_lossy, find_chars, find_from, lower_seq, push_decimal, push_str, str_equal,
    string_of, trim, trim_seq, utf8_lossy, views, lemma_views_push, eq_ignore_ascii_case, starts_with, decimal,
};

verus! {

/// The value of an unsigned decimal as `str::parse` reads it (an optional
/// `+`, then ASCII digits), when it is at most `max`.
pub open spec fn parse_uint_spec(s: Seq<char>, max: nat) -> Option<nat> {
    let d = u8_digits(s);
    if d.len() > 0 && (forall|i: int| 0 <= i < d.len() ==> is_ascii_digit(#[trigger] d[i])) && digits_value(d) <= max {
        Some(digits_value(d) as nat)
    } else {
        None
    }
}

proof fn lemma_digits_nonneg(d: Seq<char>)
    requires
        forall|j: int| 0 <= j < d.len() ==> is_ascii_digit(#[trigger] d[j]),
    ensures
        digits_value(d) >= 0,
    decreases d.len(),
{
    if d.len() > 0 {
        lemma_digits_nonneg(d.drop_last());
    }
}

proof fn lemma_digits_grow(d: Seq<char>, i: int)
    requires
        0 <= i <= d.len(),
        forall|j: int| 0 <= j < d.len() ==> is_ascii_digit(#[trigger] d[j]),
    ensures
        digits_value(d.take(i)) <= digits_value(d),
    decreases d.len() - i,
{
    if i < d.len() {
        lemma_digits_grow(d, i + 1);
        assert(d.take(i + 1).drop_last() =~= d.take(i));
        lemma_digits_nonneg(d.take(i));
    } else {
        assert(d.take(i) =~= d);
    }
}

/// Parses an unsigned decimal no larger than `max`, as `str::parse` does
/// for an unsigned type whose largest value is `max`.
pub fn parse_uint(s: &str, max: u64) -> (r: Option<u64>)
    ensures
        match r {
            Some(v) => parse_uint_spec(s@, max as nat) == Some(v as nat) && v <= max,
            None => parse_uint_spec(s@, max as nat) is None,
        },
{
    let v = chars_of(s);
    let mut i: usize = 0;
    if v.len() > 0 && v[0] == '+' {
        i = 1;
    }
    let start = i;
    let ghost d = u8_digits(s@);
    proof {
        assert(d =~= v@.skip(start as int));
    }
    if start == v.len() {
        proof {
            assert(d.len() == 0);
        }
        return None;
    }
    let mut value: u128 = 0;
    while i < v.len()
        invariant
            v@ == s@,
            d == u8_digits(s@),
            d =~= v@.skip(start as int),
            start <= i <= v@.len(),
            forall|j: int| 0 <= j < i - start ==> is_ascii_digit(#[trigger] d[j]),
            value == digits_value(d.take(i - start)),
            value <= max,
        decreases v@.len() - i,
    {
        let c = v[i];
        proof {
            assert(d.take(i - start + 1).drop_last() =~= d.take(i - start));
            assert(d[i - start] == c);
        }
        if !('0' <= c && c <= '9') {
            proof {
                assert(!is_ascii_digit(d[i - start]));
                assert(!(forall|j: int| 0 <= j < d.len() ==> is_ascii_digit(#[trigger] d[j])));
            }
            return None;
        }
        let digit = (c as u32 - '0' as u32) as u128;
        let next = value * 10 + digit;
        if next > max as u128 {
            proof {
                assert forall|j: int| 0 <= j < i - start + 1 implies is_ascii_digit(#[trigger] d[j]) by {}
                if forall|j: int| 0 <= j < d.len() ==> is_ascii_digit(#[trigger] d[j]) {
                    lemma_digits_grow(d, i - start + 1);
                }
            }
            return None;
        }
        value = next;
        i = i + 1;
    }
    proof {
        assert(d.take(i - start) =~= d);
    }
    Some(value as u64)
}

/// A parsed `http`/`https` URL.
#[derive(Debug, Clone)]
pub struct Url {
    pub https: bool,
    pub host: String,
    pub port: u16,
    pub path: String,
}

/// Why a URL or response could not be used.
#[derive(Debug, Clone, Copy, PartialEq, Eq, Structural)]
pub enum NetError {
    UnsupportedScheme,
    BadPort,
    RedirectWithoutLocation,
    HttpStatus(u16),
    TooManyRedirects,
}

/// `p` begins `s`.
pub open spec fn begins(s: Seq<char>, p: Seq<char>) -> bool {
    p.len() <= s.len() && s.take(p.len() as int) == p
}

/// What a URL parses to: scheme, authority up to the first `/` (the path,
/// `/` when none), and a port after the authority's last `:` (else the
/// scheme's default).
pub open spec fn parse_url_spec(url: Seq<char>) -> Result<(bool, Seq<char>, u16, Seq<char>), NetError> {
    let https = begins(url, "https://"@);
    let http = begins(url, "http://"@);
    if !https && !http {
        Err(NetError::UnsupportedScheme)
    } else {
        let rest = if https {
            url.skip(8)
        } else {
            url.skip(7)
        };
        let slash = find_from(rest, "/"@, 0);
        let authority = if slash >= 0 {
            rest.take(slash)
        } else {
            rest
        };
        let path = if slash >= 0 {
            rest.skip(slash)
        } else {
            "/"@
        };
        let colon = last_index_of(authority, ':');
        if colon >= 0 {
            match parse_uint_spec(authority.skip(colon + 1), 65535) {
                Some(p) => Ok((https, authority.take(colon), p as u16, path)),
                None => Err(NetError::BadPort),
            }
        } else {
            Ok((https, authority, if https { 443u16 } else { 80u16 }, path))
        }
    }
}

fn char_range(v: &Vec<char>, from: usize, to: usize) -> (s: String)
    requires
        from <= to <= v@.len(),
    ensures
        s@ == v@.subrange(from as int, to as int),
{
    let mut out: Vec<char> = Vec::new();
    let mut i = from;
    while i < to
        invariant
            from <= i <= to,
            to <= v@.len(),
            out@ == v@.subrange(from as int, i as int),
        decreases to - i,
    {
        out.push(v[i]);
        proof {
            assert(out@ =~= v@.subrange(from as int, i as int + 1));
        }
        i = i + 1;
    }
    string_of(out.as_slice())
}

fn last_colon(v: &Vec<char>) -> (r: Option<usize>)
    ensures
        match r {
            Some(i) => last_index_of(v@, ':') == i && i < v@.len(),
            None => last_index_of(v@, ':') == -1,
        },
{
    let mut i = v.len();
    proof {
        assert(v@.take(i as int) =~= v@);
    }
    while i > 0
        invariant
            i <= v@.len(),
            last_index_of(v@, ':') == last_index_of(v@.take(i as int), ':'),
        decreases i,
    {
        proof {
            assert(v@.take(i as int).drop_last() =~= v@.take(i as int - 1));
        }
        if v[i - 1] == ':' {
            return Some(i - 1);
        }
        i = i - 1;
    }
    None
}

/// Parses an `http`/`https` URL into scheme, host, port and path.
pub fn parse_url(url: &str) -> (r: Result<Url, NetError>)
    ensures
        match r {
            Ok(u) => parse_url_spec(url@) == Ok::<(bool, Seq<char>, u16, Seq<char>), NetError>((u.https, u.host@, u.port, u.path@)),
            Err(e) => parse_url_spec(url@) == Err::<(bool, Seq<char>, u16, Seq<char>), NetError>(e),
        },
{
    let v = chars_of(url);
    proof {
        reveal_strlit("https://");
        reveal_strlit("http://");
        reveal_strlit("/");
        if url@.len() >= 8 {
            assert(url@.take(8) =~= url@.subrange(0, 8));
        }
        if url@.len() >= 7 {
            assert(url@.take(7) =~= url@.subrange(0, 7));
        }
    }
    let https = starts_with(url, "https://");
    let http = starts_with(url, "http://");
    if !https && !http {
        return Err(NetError::UnsupportedScheme);
    }
    let skip: usize = if https {
        8
    } else {
        7
    };
    let rest_s = char_range(&v, skip, v.len());
    let rest = chars_of(rest_s.as_str());
    let slash_v = chars_of("/");
    let rsl = rest.as_slice();
    let ssl = slash_v.as_slice();
    let found = find_chars(rsl, ssl);
    proof {
        assert(rsl@ == rest@);
        assert(ssl@ == slash_v@);
        assert(rest@ =~= url@.skip(skip as int));
    }
    let (authority, path) = match found {
        Some(i) => (char_range(&rest, 0, i), char_range(&rest, i, rest.len())),
        None => (char_range(&rest, 0, rest.len()), "/".to_owned()),
    };
    proof {
        assert(rest@.subrange(0, rest@.len() as int) =~= rest@);
        if let Some(i) = found {
            assert(rest@.subrange(0, i as int) =~= rest@.take(i as int));
            assert(rest@.subrange(i as int, rest@.len() as int) =~= rest@.skip(i as int));
        }
    }
    let av = chars_of(authority.as_str());
    match last_colon(&av) {
        Some(c) => {
            let host = char_range(&av, 0, c);
            let port_text = char_range(&av, c + 1, av.len());
            proof {
                assert(av@.subrange(0, c as int) =~= authority@.take(c as int));
                assert(av@.subrange(c + 1, av@.len() as int) =~= authority@.skip(c + 1));
            }
            match parse_uint(port_text.as_str(), 65535) {
                Some(p) => Ok(Url { https, host, port: p as u16, path }),
                None => Err(NetError::BadPort),
            }
        },
        None => Ok(Url {
            https,
            host: authority,
            port: if https {
                443
            } else {
                80
            },
            path,
        }),
    }
}

/// The first position of `needle` in `haystack`.
pub open spec fn find_bytes_from(h: Seq<u8>, n: Seq<u8>, i: int) -> int
    decreases h.len() + 1 - i,
{
    if i < 0 || i + n.len() > h.len() {
        -1
    } else if h.subrange(i, i + n.len()) == n {
        i
    } else {
        find_bytes_from(h, n, i + 1)
    }
}

/// The first position of `needle` in `haystack` (a non-empty needle).
pub fn find_subslice(haystack: &[u8], needle: &[u8]) -> (r: Option<usize>)
    requires
        needle@.len() > 0,
    ensures
        match r {
            Some(i) => find_bytes_from(haystack@, needle@, 0) == i,
            None => find_bytes_from(haystack@, needle@, 0) == -1,
        },
{
    if needle.len() > haystack.len() {
        return None;
    }
    let last = haystack.len() - needle.len();
    let mut i: usize = 0;
    proof {
        assert(haystack@.len() == haystack.len());
    }
    while i <= last
        invariant
            haystack@.len() <= usize::MAX,
            last + needle@.len() == haystack@.len(),
            needle@.len() > 0,
            last < usize::MAX,
            i <= last + 1,
            find_bytes_from(haystack@, needle@, 0) == find_bytes_from(haystack@, needle@, i as int),
        decreases last + 1 - i,
    {
        let mut k: usize = 0;
        let mut same = true;
        while k < needle.len()
            invariant
                i <= last,
                haystack@.len() <= usize::MAX,
                last + needle@.len() == haystack@.len(),
                k <= needle@.len(),
                same == forall|m: int| 0 <= m < k ==> haystack@[i + m] == needle@[m],
            decreases needle@.len() - k,
        {
            if haystack[i + k] != needle[k] {
                same = false;
            }
            k = k + 1;
        }
        proof {
            if same {
                assert(haystack@.subrange(i as int, i + needle@.len()) =~= needle@);
            } else {
                let m = choose|m: int| 0 <= m < k && haystack@[i + m] != needle@[m];
                assert(haystack@.subrange(i as int, i + needle@.len())[m] != needle@[m]);
            }
        }
        if same {
            return Some(i);
        }
        i = i + 1;
    }
    None
}

/// Splitting `s` at each `\r\n`, read left to right: the pieces finished
/// and the piece in progress.
pub open spec fn crlf_fold(s: Seq<char>) -> (Seq<Seq<char>>, Seq<char>)
    decreases s.len(),
{
    if s.len() == 0 {
        (Seq::empty(), Seq::empty())
    } else {
        let p = crlf_fold(s.drop_last());
        let c = s.last();
        if c == '\n' && p.1.len() > 0 && p.1.last() == '\r' {
            (p.0.push(p.1.drop_last()), Seq::empty())
        } else {
            (p.0, p.1.push(c))
        }
    }
}

/// The pieces of `s` between `\r\n` separators (`split("\r\n")`).
pub open spec fn crlf_lines(s: Seq<char>) -> Seq<Seq<char>> {
    let p = crlf_fold(s);
    p.0.push(p.1)
}

/// Reading `s` left to right, splitting at white space: the words finished
/// and the word in progress.
pub open spec fn ws_fold(s: Seq<char>) -> (Seq<Seq<char>>, Seq<char>)
    decreases s.len(),
{
    if s.len() == 0 {
        (Seq::empty(), Seq::empty())
    } else {
        let p = ws_fold(s.drop_last());
        let c = s.last();
        if crate::text::is_ws(c) {
            if p.1.len() > 0 {
                (p.0.push(p.1), Seq::empty())
            } else {
                p
            }
        } else {
            (p.0, p.1.push(c))
        }
    }
}

/// The white-space separated words of `s` (`split_whitespace`).
pub open spec fn ws_words(s: Seq<char>) -> Seq<Seq<char>> {
    let p = ws_fold(s);
    if p.1.len() > 0 {
        p.0.push(p.1)
    } else {
        p.0
    }
}

/// The status code of a status line: its second word as a number, else 0.
pub open spec fn status_of(line: Seq<char>) -> u16 {
    let w = ws_words(line);
    if w.len() > 1 {
        match parse_uint_spec(w[1], 65535) {
            Some(n) => n as u16,
            None => 0,
        }
    } else {
        0
    }
}

/// What the header lines say: (location, content length, chunked), each
/// later line of a kind replacing what an earlier one said.
pub open spec fn headers_fold(lines: Seq<Seq<char>>) -> (Option<Seq<char>>, Option<nat>, bool)
    decreases lines.len(),
{
    if lines.len() == 0 {
        (None, None, false)
    } else {
        let p = headers_fold(lines.drop_last());
        let l = lines.last();
        let c = crate::scanner::first_index(l, ':');
        if c < 0 {
            p
        } else {
            let key = lower_seq(trim_seq(l.take(c)));
            let val = trim_seq(l.skip(c + 1));
            if key == "content-length"@ {
                (p.0, parse_uint_spec(val, usize::MAX as nat), p.2)
            } else if key == "transfer-encoding"@ && lower_seq(val) == lower_seq("chunked"@) {
                (p.0, p.1, true)
            } else if key == "location"@ {
                (Some(val), p.1, p.2)
            } else {
                p
            }
        }
    }
}

/// The head of an HTTP response.
#[derive(Debug, Clone)]
pub struct ResponseHead {
    pub status: u16,
    pub location: Option<String>,
    pub content_length: Option<usize>,
    pub chunked: bool,
}

fn crlf_split(s: &str) -> (v: Vec<String>)
    ensures
        views(v@) == crlf_lines(s@),
{
    let cs = chars_of(s);
    let mut done: Vec<String> = Vec::new();
    let mut cur: Vec<char> = Vec::new();
    let mut i: usize = 0;
    while i < cs.len()
        invariant
            cs@ == s@,
            i <= cs@.len(),
            (views(done@), cur@) == crlf_fold(cs@.take(i as int)),
        decreases cs@.len() - i,
    {
        proof {
            assert(cs@.take(i as int + 1).drop_last() =~= cs@.take(i as int));
        }
        let c = cs[i];
        if c == '\n' && cur.len() > 0 && cur[cur.len() - 1] == '\r' {
            cur.pop();
            let piece = string_of(cur.as_slice());
            let ghost d0 = done@;
            done.push(piece);
            proof {
                lemma_views_push(d0, piece);
            }
            cur = Vec::new();
        } else {
            cur.push(c);
        }
        i = i + 1;
    }
    proof {
        assert(cs@.take(i as int) =~= cs@);
    }
    let piece = string_of(cur.as_slice());
    let ghost d0 = done@;
    done.push(piece);
    proof {
        lemma_views_push(d0, piece);
    }
    done
}

pub(crate) fn ws_split(s: &str) -> (v: Vec<String>)
    ensures
        views(v@) == ws_words(s@),
{
    let cs = chars_of(s);
    let mut done: Vec<String> = Vec::new();
    let mut cur: Vec<char> = Vec::new();
    let mut i: usize = 0;
    while i < cs.len()
        invariant
            cs@ == s@,
            i <= cs@.len(),
            (views(done@), cur@) == ws_fold(cs@.take(i as int)),
        decreases cs@.len() - i,
    {
        proof {
            assert(cs@.take(i as int + 1).drop_last() =~= cs@.take(i as int));
        }
        let c = cs[i];
        if crate::text::is_whitespace(c) {
            if cur.len() > 0 {
                let w = string_of(cur.as_slice());
                let ghost d0 = done@;
                done.push(w);
                proof {
                    lemma_views_push(d0, w);
                }
                cur = Vec::new();
            }
        } else {
            cur.push(c);
        }
        i = i + 1;
    }
    proof {
        assert(cs@.take(i as int) =~= cs@);
    }
    if cur.len() > 0 {
        let w = string_of(cur.as_slice());
        let ghost d0 = done@;
        done.push(w);
        proof {
            lemma_views_push(d0, w);
        }
    }
    done
}

/// The head of an HTTP response from its bytes before the blank line:
/// status, `Location`, `Content-Length` and chunked transfer.
pub fn parse_response_head(header: &[u8]) -> (h: ResponseHead)
    ensures
        ({
            let lines = crlf_lines(utf8_lossy(header@));
            let f = headers_fold(lines.drop_first());
            &&& h.status == status_of(lines[0])
            &&& crate::store::opt_view(h.location) == f.0
            &&& match h.content_length {
                Some(n) => f.1 == Some(n as nat),
                None => f.1 is None,
            }
            &&& h.chunked == f.2
        }),
{
    let text = decode_utf8_lossy(header);
    let lines = crlf_split(text.as_str());
    let ghost ls = views(lines@);
    let words = ws_split(lines[0].as_str());
    let status: u16 = if words.len() > 1 {
        match parse_uint(words[1].as_str(), 65535) {
            Some(n) => n as u16,
            None => 0,
        }
    } else {
        0
    };
    let mut location: Option<String> = None;
    let mut content_length: Option<usize> = None;
    let mut chunked = false;
    let mut i: usize = 1;
    proof {
        assert(ls.drop_first().take(0) =~= Seq::<Seq<char>>::empty());
    }
    while i < lines.len()
        invariant
            ls == views(lines@),
            1 <= i <= lines@.len(),
            ({
                let f = headers_fold(ls.drop_first().take(i - 1));
                &&& crate::store::opt_view(location) == f.0
                &&& match content_length {
                    Some(n) => f.1 == Some(n as nat),
                    None => f.1 is None,
                }
                &&& chunked == f.2
            }),
        decreases lines@.len() - i,
    {
        proof {
            assert(ls.drop_first().take(i as int).drop_last() =~= ls.drop_first().take(i - 1));
            assert(ls.drop_first().take(i as int).last() == lines@[i as int]@);
            reveal_strlit("content-length");
            reveal_strlit("transfer-encoding");
            reveal_strlit("location");
        }
        let lc = chars_of(lines[i].as_str());
        let mut c: usize = 0;
        while c < lc.len() && lc[c] != ':'
            invariant
                c <= lc@.len(),
                forall|m: int| 0 <= m < c ==> lc@[m] != ':',
            decreases lc@.len() - c,
        {
            c = c + 1;
        }
        proof {
            if c < lc.len() {
                lemma_first_index_is(lc@, c as int);
            } else {
                lemma_first_index_none(lc@);
            }
        }
        if c < lc.len() {
            let key_raw = string_of(lc.as_slice());
            let mut kv: Vec<char> = Vec::new();
            let mut j: usize = 0;
            while j < c
                invariant
                    c < lc@.len(),
                    j <= c,
                    kv@ == lc@.take(j as int),
                decreases c - j,
            {
                kv.push(lc[j]);
                proof {
                    assert(kv@ =~= lc@.take(j as int + 1));
                }
                j = j + 1;
            }
            let mut vv: Vec<char> = Vec::new();
            let mut j2: usize = c + 1;
            while j2 < lc.len()
                invariant
                    c < lc@.len(),
                    c + 1 <= j2 <= lc@.len(),
                    vv@ == lc@.subrange(c + 1, j2 as int),
                decreases lc@.len() - j2,
            {
                vv.push(lc[j2]);
                proof {
                    assert(vv@ =~= lc@.subrange(c + 1, j2 as int + 1));
                }
                j2 = j2 + 1;
            }
            proof {
                assert(vv@ =~= lc@.skip(c + 1));
            }
            let key_t = trim(string_of(kv.as_slice()).as_str());
            let key = crate::text::to_ascii_lowercase_string(key_t.as_str());
            let val = trim(string_of(vv.as_slice()).as_str());
            if str_equal(key.as_str(), "content-length") {
                content_length = match parse_uint(val.as_str(), usize::MAX as u64) {
                    Some(n) => {
                        proof {
                            assert((usize::MAX as u64) as int == usize::MAX as int);
                            assert(n <= usize::MAX);
                        }
                        Some(n as usize)
                    },
                    None => None,
                };
            } else if str_equal(key.as_str(), "transfer-encoding") && eq_ignore_ascii_case(val.as_str(), "chunked") {
                chunked = true;
            } else if str_equal(key.as_str(), "location") {
                location = Some(val);
            }
        }
        i = i + 1;
    }
    proof {
        assert(ls.drop_first().take(i - 1) =~= ls.drop_first());
    }
    ResponseHead { status, location, content_length, chunked }
}

proof fn lemma_first_index_is(s: Seq<char>, i: int)
    requires
        0 <= i < s.len(),
        s[i] == ':',
        forall|m: int| 0 <= m < i ==> s[m] != ':',
    ensures
        crate::scanner::first_index(s, ':') == i,
    decreases i,
{
    if i > 0 {
        lemma_first_index_is(s.drop_first(), i - 1);
    }
}

proof fn lemma_first_index_none(s: Seq<char>)
    requires
        forall|m: int| 0 <= m < s.len() ==> s[m] != ':',
    ensures
        crate::scanner::first_index(s, ':') == -1,
    decreases s.len(),
{
    if s.len() > 0 {
        lemma_first_index_none(s.drop_first());
    }
}

/// What to do after a response: it succeeded, follow a redirect to a new
/// URL, or give up.
#[derive(Debug, Clone)]
pub enum NextStep {
    Done,
    Follow(String),
    Fail(NetError),
}

pub open spec fn is_redirect(status: u16) -> bool {
    status == 301 || status == 302 || status == 303 || status == 307 || status == 308
}

/// Where a redirect leads: an absolute `Location` as given, a root-relative
/// one on the same scheme, host and port, anything else as given.
pub open spec fn redirect_target(loc: Seq<char>, https: bool, host: Seq<char>, port: u16) -> Seq<char> {
    if begins(loc, "http://"@) || begins(loc, "https://"@) {
        loc
    } else if loc.len() > 0 && loc[0] == '/' {
        (if https { "https"@ } else { "http"@ }) + "://"@ + host + ":"@ + decimal(port as nat) + "/"@ + loc.drop_first()
    } else {
        loc
    }
}

/// The step after a response with `status` and `location` to a request for `url`.
pub fn next_step(status: u16, location: Option<String>, url: &Url) -> (step: NextStep)
    ensures
        200 <= status <= 299 ==> step is Done,
        is_redirect(status) && location is None ==> step == NextStep::Fail(NetError::RedirectWithoutLocation),
        is_redirect(status) && location is Some ==> (step matches NextStep::Follow(u) && u@ == redirect_target(
            location->0@,
            url.https,
            url.host@,
            url.port,
        )),
        !(200 <= status <= 299) && !is_redirect(status) ==> step == NextStep::Fail(NetError::HttpStatus(status)),
{
    if 200 <= status && status <= 299 {
        return NextStep::Done;
    }
    if !(status == 301 || status == 302 || status == 303 || status == 307 || status == 308) {
        return NextStep::Fail(NetError::HttpStatus(status));
    }
    let loc = match location {
        Some(l) => l,
        None => return NextStep::Fail(NetError::RedirectWithoutLocation),
    };
    proof {
        reveal_strlit("http://");
        reveal_strlit("https://");
        if loc@.len() >= 8 {
            assert(loc@.take(8) =~= loc@.subrange(0, 8));
        }
        if loc@.len() >= 7 {
            assert(loc@.take(7) =~= loc@.subrange(0, 7));
        }
    }
    if starts_with(loc.as_str(), "http://") || starts_with(loc.as_str(), "https://") {
        return NextStep::Follow(loc);
    }
    let lv = chars_of(loc.as_str());
    if lv.len() > 0 && lv[0] == '/' {
        let mut u = if url.https {
            "https".to_owned()
        } else {
            "http".to_owned()
        };
        push_str(&mut u, "://");
        push_str(&mut u, url.host.as_str());
        push_str(&mut u, ":");
        push_decimal(&mut u, url.port as u64);
        push_str(&mut u, "/");
        let mut j: usize = 1;
        let ghost u0 = u@;
        while j < lv.len()
            invariant
                1 <= j <= lv@.len(),
                u@ == u0 + lv@.subrange(1, j as int),
            decreases lv@.len() - j,
        {
            u.push(lv[j]);
            proof {
                assert(u@ =~= u0 + lv@.subrange(1, j as int + 1));
            }
            j = j + 1;
        }
        proof {
            assert(lv@.subrange(1, j as int) =~= loc@.drop_first());
        }
        return NextStep::Follow(u);
    }
    NextStep::Follow(loc)
}


/// An ASCII hexadecimal digit.
pub open spec fn is_hex_digit(c: char) -> bool {
    ('0' <= c && c <= '9') || ('a' <= c && c <= 'f') || ('A' <= c && c <= 'F')
}

/// The value of a hexadecimal digit.
pub open spec fn hex_digit_value(c: char) -> int {
    if '0' <= c && c <= '9' {
        c as int - '0' as int
    } else if 'a' <= c && c <= 'f' {
        c as int - 'a' as int + 10
    } else {
        c as int - 'A' as int + 10
    }
}

/// The value of a string of hexadecimal digits.
pub open spec fn hex_value(d: Seq<char>) -> int
    decreases d.len(),
{
    if d.len() == 0 {
        0
    } else {
        hex_value(d.drop_last()) * 16 + hex_digit_value(d.last())
    }
}

/// The value of an unsigned hexadecimal number as `from_str_radix(_, 16)`
/// reads it (an optional `+`, then hexadecimal digits), when at most `max`.
pub open spec fn parse_hex_spec(s: Seq<char>, max: nat) -> Option<nat> {
    let d = u8_digits(s);
    if d.len() > 0 && (forall|i: int| 0 <= i < d.len() ==> is_hex_digit(#[trigger] d[i])) && hex_value(d) <= max {
        Some(hex_value(d) as nat)
    } else {
        None
    }
}

proof fn lemma_hex_nonneg(d: Seq<char>)
    requires
        forall|j: int| 0 <= j < d.len() ==> is_hex_digit(#[trigger] d[j]),
    ensures
        hex_value(d) >= 0,
    decreases d.len(),
{
    if d.len() > 0 {
        lemma_hex_nonneg(d.drop_last());
    }
}

proof fn lemma_hex_grow(d: Seq<char>, i: int)
    requires
        0 <= i <= d.len(),
        forall|j: int| 0 <= j < d.len() ==> is_hex_digit(#[trigger] d[j]),
    ensures
        hex_value(d.take(i)) <= hex_value(d),
    decreases d.len() - i,
{
    if i < d.len() {
        lemma_hex_grow(d, i + 1);
        assert(d.take(i + 1).drop_last() =~= d.take(i));
        lemma_hex_nonneg(d.take(i));
    } else {
        assert(d.take(i) =~= d);
    }
}

/// Parses an unsigned hexadecimal number no larger than `max`.
pub fn parse_hex(s: &str, max: u64) -> (r: Option<u64>)
    ensures
        match r {
            Some(v) => parse_hex_spec(s@, max as nat) == Some(v as nat) && v <= max,
            None => parse_hex_spec(s@, max as nat) is None,
        },
{
    let v = chars_of(s);
    let mut i: usize = 0;
    if v.len() > 0 && v[0] == '+' {
        i = 1;
    }
    let start = i;
    let ghost d = u8_digits(s@);
    proof {
        assert(d =~= v@.skip(start as int));
    }
    if start == v.len() {
        proof {
            assert(d.len() == 0);
        }
        return None;
    }
    let mut value: u128 = 0;
    while i < v.len()
        invariant
            v@ == s@,
            d == u8_digits(s@),
            d =~= v@.skip(start as int),
            start <= i <= v@.len(),
            forall|j: int| 0 <= j < i - start ==> is_hex_digit(#[trigger] d[j]),
            value == hex_value(d.take(i - start)),
            value <= max,
        decreases v@.len() - i,
    {
        let c = v[i];
        proof {
            assert(d.take(i - start + 1).drop_last() =~= d.take(i - start));
            assert(d[i - start] == c);
        }
        let digit: u128 = if '0' <= c && c <= '9' {
            (c as u32 - '0' as u32) as u128
        } else if 'a' <= c && c <= 'f' {
            (c as u32 - 'a' as u32 + 10) as u128
        } else if 'A' <= c && c <= 'F' {
            (c as u32 - 'A' as u32 + 10) as u128
        } else {
            proof {
                assert(!is_hex_digit(d[i - start]));
                assert(!(forall|j: int| 0 <= j < d.len() ==> is_hex_digit(#[trigger] d[j])));
            }
            return None;
        };
        let next = value * 16 + digit;
        if next > max as u128 {
            proof {
                assert forall|j: int| 0 <= j < i - start + 1 implies is_hex_digit(#[trigger] d[j]) by {}
                if forall|j: int| 0 <= j < d.len() ==> is_hex_digit(#[trigger] d[j]) {
                    lemma_hex_grow(d, i - start + 1);
                }
            }
            return None;
        }
        value = next;
        i = i + 1;
    }
    proof {
        assert(d.take(i - start) =~= d);
    }
    Some(value as u64)
}

/// The text before the first `c`, or all of it.
pub open spec fn before_first(s: Seq<char>, c: char) -> Seq<char> {
    let i = crate::scanner::first_index(s, c);
    if i >= 0 { s.take(i) } else { s }
}

/// The size a chunk-size line of a chunked body announces: the line read
/// as text, without its extensions (from `;`), trimmed, in hexadecimal.
pub open spec fn chunk_size_spec(line: Seq<u8>) -> Option<nat> {
    parse_hex_spec(trim_seq(before_first(utf8_lossy(line), ';')), usize::MAX as nat)
}

/// The size a chunk-size line announces.
pub fn parse_chunk_size(line: &[u8]) -> (r: Option<usize>)
    ensures
        match r {
            Some(n) => chunk_size_spec(line@) == Some(n as nat),
            None => chunk_size_spec(line@) is None,
        },
{
    let text = decode_utf8_lossy(line);
    let cs = chars_of(text.as_str());
    proof {
        crate::scanner::lemma_first_index_bound(cs@, ';');
    }
    let head = match crate::scanner::find_first(cs.as_slice(), ';') {
        Some(i) => {
            let mut out: Vec<char> = Vec::new();
            let mut k: usize = 0;
            while k < i
                invariant
                    k <= i,
                    i <= cs@.len(),
                    out@ == cs@.take(k as int),
                decreases i - k,
            {
                out.push(cs[k]);
                proof {
                    assert(out@ =~= cs@.take(k as int + 1));
                }
                k = k + 1;
            }
            string_of(out.as_slice())
        },
        None => text.clone(),
    };
    let t = trim(head.as_str());
    match parse_hex(t.as_str(), usize::MAX as u64) {
        Some(v) => Some(v as usize),
        None => None,
    }
}

/// What the next piece of a chunked body is, from the bytes received so far.
#[derive(Debug, Clone, Copy, PartialEq, Eq, Structural)]
pub enum ChunkStep {
    /// More bytes are needed to go on.
    NeedMore,
    /// The chunk-size line cannot be read.
    BadSize,
    /// The body would grow past its limit.
    TooLarge,
    /// The last chunk: the body is complete.
    Done,
    /// A chunk of `size` bytes starts at `data_start`; the next piece starts
    /// at `next`.
    Chunk { data_start: usize, size: usize, next: usize },
}

proof fn lemma_find_bytes_bound(h: Seq<u8>, n: Seq<u8>, i: int)
    ensures
        find_bytes_from(h, n, i) >= 0 ==> i <= find_bytes_from(h, n, i) && find_bytes_from(h, n, i) + n.len() <= h.len(),
    decreases h.len() + 1 - i,
{
    if !(i < 0 || i + n.len() > h.len()) && h.subrange(i, i + n.len()) != n {
        lemma_find_bytes_bound(h, n, i + 1);
    }
}

/// Index of the first CRLF in `b`, or -1.
pub open spec fn first_crlf(b: Seq<u8>) -> int {
    find_bytes_from(b, seq![13u8, 10u8], 0)
}

/// Reads the next piece of a chunked body at the start of `buf`, with
/// `collected` bytes already taken out of it and a limit of `max_bytes`.
pub fn chunk_step(buf: &[u8], collected: usize, max_bytes: usize) -> (st: ChunkStep)
    ensures
        ({
            let e = first_crlf(buf@);
            if e < 0 {
                st == ChunkStep::NeedMore
            } else {
                match chunk_size_spec(buf@.take(e)) {
                    None => st == ChunkStep::BadSize,
                    Some(n) => if n == 0 {
                        st == ChunkStep::Done
                    } else if collected + n > max_bytes {
                        st == ChunkStep::TooLarge
                    } else if buf@.len() < e + 2 + n + 2 {
                        st == ChunkStep::NeedMore
                    } else {
                        st == (ChunkStep::Chunk { data_start: (e + 2) as usize, size: n as usize, next: (e + 2 + n + 2) as usize })
                    },
                }
            }
        }),
{
    let crlf: [u8; 2] = [13u8, 10u8];
    let e = match find_subslice(buf, &crlf) {
        Some(e) => e,
        None => return ChunkStep::NeedMore,
    };
    proof {
        lemma_find_bytes_bound(buf@, crlf@, 0);
        assert(crlf@ =~= seq![13u8, 10u8]);
    }
    let line = &buf[0..e];
    proof {
        assert(line@ =~= buf@.take(e as int));
    }
    let n = match parse_chunk_size(line) {
        Some(n) => n,
        None => return ChunkStep::BadSize,
    };
    if n == 0 {
        return ChunkStep::Done;
    }
    if n > max_bytes || collected > max_bytes - n {
        return ChunkStep::TooLarge;
    }
    if buf.len() - e - 2 < n || buf.len() - e - 2 - n < 2 {
        return ChunkStep::NeedMore;
    }
    ChunkStep::Chunk { data_start: e + 2, size: n, next: e + 2 + n + 2 }
}

/// How decoding a chunked body stopped.
#[derive(Clone, Copy, Debug, PartialEq, Eq, Structural)]
pub enum ChunkStatus {
    /// The buffered bytes end inside a chunk: read more.
    NeedMore,
    /// A chunk-size line cannot be read.
    BadSize,
    /// The body would grow past its limit.
    TooLarge,
    /// The last chunk was reached: the body is complete.
    Done,
}

/// Decoding the whole chunks at the start of `buf`, with `collected` body
/// bytes already taken and a limit of `max`: the data of those chunks, the
/// bytes left over, and why decoding stopped.
pub open spec fn dechunk(buf: Seq<u8>, collected: int, max: int) -> (Seq<u8>, Seq<u8>, ChunkStatus)
    decreases buf.len(),
{
    let e = first_crlf(buf);
    if e < 0 {
        (Seq::empty(), buf, ChunkStatus::NeedMore)
    } else {
        match chunk_size_spec(buf.take(e)) {
            None => (Seq::empty(), buf, ChunkStatus::BadSize),
            Some(n) => if n == 0 {
                (Seq::empty(), buf, ChunkStatus::Done)
            } else if collected + n > max {
                (Seq::empty(), buf, ChunkStatus::TooLarge)
            } else if buf.len() < e + 2 + n + 2 {
                (Seq::empty(), buf, ChunkStatus::NeedMore)
            } else {
                let r = dechunk(buf.skip(e + 2 + n + 2), collected + n, max);
                (buf.subrange(e + 2, e + 2 + n) + r.0, r.1, r.2)
            },
        }
    }
}

/// Moves the data of every whole chunk at the start of `pending` onto the
/// end of `body` (keeping it within `max_bytes`), leaves the rest in
/// `pending`, and says why it stopped.
pub fn decode_chunks(pending: &mut Vec<u8>, body: &mut Vec<u8>, max_bytes: usize) -> (st: ChunkStatus)
    ensures
        final(body)@ == old(body)@ + dechunk(old(pending)@, old(body)@.len() as int, max_bytes as int).0,
        final(pending)@ == dechunk(old(pending)@, old(body)@.len() as int, max_bytes as int).1,
        st == dechunk(old(pending)@, old(body)@.len() as int, max_bytes as int).2,
{
    let ghost p0 = pending@;
    let ghost b0 = body@;
    let ghost r0 = dechunk(p0, b0.len() as int, max_bytes as int);
    proof {
        assert(body@.skip(b0.len() as int) =~= Seq::<u8>::empty());
        assert(Seq::<u8>::empty() + r0.0 =~= r0.0);
    }
    loop
        invariant
            p0 == old(pending)@,
            b0 == old(body)@,
            body@.len() >= b0.len(),
            body@.take(b0.len() as int) == b0,
            r0 == dechunk(p0, b0.len() as int, max_bytes as int),
            r0.0 == body@.skip(b0.len() as int) + dechunk(pending@, body@.len() as int, max_bytes as int).0,
            r0.1 == dechunk(pending@, body@.len() as int, max_bytes as int).1,
            r0.2 == dechunk(pending@, body@.len() as int, max_bytes as int).2,
        decreases pending@.len(),
    {
        let ghost pv = pending@;
        let ghost bv = body@;
        let sl = pending.as_slice();
        proof {
            assert(sl@ == pv);
        }
        let step = chunk_step(sl, body.len(), max_bytes);
        proof {
            let e = first_crlf(pv);
            if e >= 0 {
                match chunk_size_spec(pv.take(e)) {
                    Some(n) => {
                        if n > 0 && bv.len() + n <= max_bytes && pv.len() >= e + 2 + n + 2 {
                            assert(step == (ChunkStep::Chunk { data_start: (e + 2) as usize, size: n as usize, next: (e + 2 + n + 2) as usize }));
                        } else {
                            assert(dechunk(pv, bv.len() as int, max_bytes as int).0 =~= Seq::<u8>::empty());
                            assert(dechunk(pv, bv.len() as int, max_bytes as int).1 == pv);
                        }
                    },
                    None => {
                        assert(dechunk(pv, bv.len() as int, max_bytes as int).0 =~= Seq::<u8>::empty());
                    },
                }
            } else {
                assert(dechunk(pv, bv.len() as int, max_bytes as int).0 =~= Seq::<u8>::empty());
                assert(dechunk(pv, bv.len() as int, max_bytes as int).1 == pv);
            }
        }
        match step {
            ChunkStep::NeedMore => {
                proof {
                    assert(dechunk(pv, bv.len() as int, max_bytes as int).0 =~= Seq::<u8>::empty());
                    assert(body@ =~= b0 + body@.skip(b0.len() as int));
                    assert(body@.skip(b0.len() as int) + Seq::<u8>::empty() =~= body@.skip(b0.len() as int));
                }
                return ChunkStatus::NeedMore;
            },
            ChunkStep::BadSize => {
                proof {
                    assert(body@ =~= b0 + body@.skip(b0.len() as int));
                    assert(body@.skip(b0.len() as int) + Seq::<u8>::empty() =~= body@.skip(b0.len() as int));
                }
                return ChunkStatus::BadSize;
            },
            ChunkStep::TooLarge => {
                proof {
                    assert(body@ =~= b0 + body@.skip(b0.len() as int));
                    assert(body@.skip(b0.len() as int) + Seq::<u8>::empty() =~= body@.skip(b0.len() as int));
                }
                return ChunkStatus::TooLarge;
            },
            ChunkStep::Done => {
                proof {
                    assert(body@ =~= b0 + body@.skip(b0.len() as int));
                    assert(body@.skip(b0.len() as int) + Seq::<u8>::empty() =~= body@.skip(b0.len() as int));
                }
                return ChunkStatus::Done;
            },
            ChunkStep::Chunk { data_start, size, next } => {
                let ghost e = first_crlf(pv);
                proof {
                    assert(e >= 0);
                    assert(chunk_size_spec(pv.take(e)) is Some);
                    let n = chunk_size_spec(pv.take(e)).unwrap();
                    assert(n > 0);
                    assert(pv.len() >= e + 2 + n + 2);
                    assert(pv.len() == pending.len());
                    assert(data_start == e + 2);
                    assert(size == n);
                }
                let ghost rest = dechunk(pv.skip(next as int), bv.len() + size, max_bytes as int);
                proof {
                    assert(dechunk(pv, bv.len() as int, max_bytes as int) == (pv.subrange(e + 2, e + 2 + size) + rest.0, rest.1, rest.2));
                }
                let end = data_start + size;
                let mut k: usize = data_start;
                while k < end
                    invariant
                        end == data_start + size,
                        data_start <= k <= end,
                        end <= pending@.len(),
                        pending@ == pv,
                        body@ == bv + pv.subrange(data_start as int, k as int),
                        bv.len() + size <= max_bytes,
                    decreases end - k,
                {
                    body.push(pending[k]);
                    proof {
                        assert(body@ =~= bv + pv.subrange(data_start as int, k as int + 1));
                    }
                    k = k + 1;
                }
                let mut tail: Vec<u8> = Vec::new();
                let mut j: usize = next;
                while j < pending.len()
                    invariant
                        next <= j <= pending@.len(),
                        pending@ == pv,
                        tail@ == pv.subrange(next as int, j as int),
                    decreases pending@.len() - j,
                {
                    tail.push(pending[j]);
                    proof {
                        assert(tail@ =~= pv.subrange(next as int, j as int + 1));
                    }
                    j = j + 1;
                }
                *pending = tail;
                proof {
                    assert(pending@ =~= pv.skip(next as int));
                    assert(body@.take(b0.len() as int) =~= b0) by {
                        assert(bv.take(b0.len() as int) == b0);
                    }
                    assert(body@.skip(b0.len() as int) =~= bv.skip(b0.len() as int) + pv.subrange(e + 2, e + 2 + size));
                    assert(r0.0 =~= body@.skip(b0.len() as int) + rest.0);
                }
            },
        }
    }
}

} // verus!
