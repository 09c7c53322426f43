use vstd::prelude::*;
use vstd::string::StringSliceAdditionalSpecFns;

verus! {

/// Declares std's error type for invalid UTF-8 so that results carrying it can be used.
#[verifier::external_type_specification]
#[verifier::external_body]
pub struct ExUtf8Error(core::str::Utf8Error);

/// `core::str::from_utf8`: std documents that it returns `Ok` exactly when
/// the bytes are valid UTF-8, and then a string slice over those same bytes.
pub assume_specification[ core::str::from_utf8 ](v: &[u8]) -> (r: Result<&str, core::str::Utf8Error>)
    ensures
        r is Ok <==> vstd::utf8::valid_utf8(v@),
        r matches Ok(s) ==> s.spec_bytes() == v@,
;

/// `String::push`: std documents that it appends the character to the end.
pub assume_specification[ String::push ](s: &mut String, ch: char)
    ensures
        final(s)@ == old(s)@.push(ch),
;

/// Byte-wise equality of two string slices.
pub fn str_equal(a: &str, b: &str) -> (r: bool)
    ensures
        r == (a@ == b@),
{
    let ab = a.as_bytes();
    let bb = b.as_bytes();
    proof {
        vstd::utf8::encode_utf8_decode_utf8(a@);
        vstd::utf8::encode_utf8_decode_utf8(b@);
    }
    if ab.len() != bb.len() {
        return false;
    }
    let mut i: usize = 0;
    while i < ab.len()
        invariant
            ab@ == a.spec_bytes(),
            bb@ == b.spec_bytes(),
            ab@.len() == bb@.len(),
            i <= ab@.len(),
            forall|j: int| 0 <= j < i ==> ab@[j] == bb@[j],
        decreases ab@.len() - i,
    {
        if ab[i] != bb[i] {
            return false;
        }
        i = i + 1;
    }
    assert(ab@ =~= bb@);
    true
}



/// The characters of a string slice.
pub fn chars_of(s: &str) -> (v: Vec<char>)
    ensures
        v@ == s@,
{
    let mut v: Vec<char> = Vec::new();
    for c in it: s.chars()
        invariant
            v@ == it.seq().take(it.index() as int),
    {
        v.push(c);
    }
    v
}


/// Builds a string from characters.
pub fn string_of(v: &[char]) -> (s: String)
    ensures
        s@ == v@,
{
    let mut s = String::new();
    let mut i: usize = 0;
    while i < v.len()
        invariant
            i <= v@.len(),
            s@ == v@.take(i as int),
        decreases v@.len() - i,
    {
        s.push(v[i]);
        proof {
            assert(v@.take(i as int + 1) =~= v@.take(i as int).push(v@[i as int]));
        }
        i = i + 1;
    }
    proof {
        assert(v@.take(i as int) =~= v@);
    }
    s
}

/// Appends the characters of `t` to `s`.
pub fn push_str(s: &mut String, t: &str)
    ensures
        final(s)@ == old(s)@ + t@,
{
    let v = chars_of(t);
    let ghost s0 = s@;
    let mut i: usize = 0;
    while i < v.len()
        invariant
            i <= v@.len(),
            v@ == t@,
            s@ == s0 + v@.take(i as int),
        decreases v@.len() - i,
    {
        s.push(v[i]);
        proof {
            assert(v@.take(i as int + 1) =~= v@.take(i as int).push(v@[i as int]));
            assert(s0 + v@.take(i as int + 1) =~= (s0 + v@.take(i as int)).push(v@[i as int]));
        }
        i = i + 1;
    }
    proof {
        assert(v@.take(i as int) =~= v@);
    }
}

/// The concatenation of two strings.
pub fn concat(a: &str, b: &str) -> (s: String)
    ensures
        s@ == a@ + b@,
{
    let mut s = String::new();
    push_str(&mut s, a);
    push_str(&mut s, b);
    proof {
        assert(Seq::<char>::empty() + a@ =~= a@);
    }
    s
}

/// Unicode `White_Space`, the property `char::is_whitespace` documents.
pub open spec fn is_ws(c: char) -> bool {
    ('\u{9}' <= c && c <= '\u{d}') || c == ' ' || c == '\u{85}' || c == '\u{a0}' || c == '\u{1680}'
        || ('\u{2000}' <= c && c <= '\u{200a}') || c == '\u{2028}' || c == '\u{2029}' || c
        == '\u{202f}' || c == '\u{205f}' || c == '\u{3000}'
}

/// Whether `c` is Unicode white space.
pub fn is_whitespace(c: char) -> (b: bool)
    ensures
        b == is_ws(c),
{
    ('\u{9}' <= c && c <= '\u{d}') || c == ' ' || c == '\u{85}' || c == '\u{a0}' || c == '\u{1680}'
        || ('\u{2000}' <= c && c <= '\u{200a}') || c == '\u{2028}' || c == '\u{2029}' || c
        == '\u{202f}' || c == '\u{205f}' || c == '\u{3000}'
}

/// `s` without leading white space.
pub open spec fn trim_start_seq(s: Seq<char>) -> Seq<char>
    decreases s.len(),
{
    if s.len() > 0 && is_ws(s[0]) {
        trim_start_seq(s.drop_first())
    } else {
        s
    }
}

/// `s` without trailing white space.
pub open spec fn trim_end_seq(s: Seq<char>) -> Seq<char>
    decreases s.len(),
{
    if s.len() > 0 && is_ws(s.last()) {
        trim_end_seq(s.drop_last())
    } else {
        s
    }
}

/// `s` without leading or trailing white space, as `str::trim` gives it.
pub open spec fn trim_seq(s: Seq<char>) -> Seq<char> {
    trim_end_seq(trim_start_seq(s))
}

proof fn lemma_trim_start_skip(s: Seq<char>, i: int)
    requires
        0 <= i <= s.len(),
        forall|j: int| 0 <= j < i ==> is_ws(#[trigger] s[j]),
    ensures
        trim_start_seq(s) == trim_start_seq(s.skip(i)),
    decreases i,
{
    if i > 0 {
        assert(s.drop_first().skip(i - 1) =~= s.skip(i));
        lemma_trim_start_skip(s.drop_first(), i - 1);
    } else {
        assert(s.skip(0) =~= s);
    }
}

proof fn lemma_trim_end_take(s: Seq<char>, i: int)
    requires
        0 <= i <= s.len(),
        forall|j: int| i <= j < s.len() ==> is_ws(#[trigger] s[j]),
    ensures
        trim_end_seq(s) == trim_end_seq(s.take(i)),
    decreases s.len() - i,
{
    if i < s.len() {
        assert(s.drop_last().take(i) =~= s.take(i));
        lemma_trim_end_take(s.drop_last(), i);
    } else {
        assert(s.take(i) =~= s);
    }
}

/// The characters of `s` with leading and trailing white space removed.
pub fn trim_chars(s: &[char]) -> (r: Vec<char>)
    ensures
        r@ == trim_seq(s@),
{
    let mut a: usize = 0;
    while a < s.len() && is_whitespace(s[a])
        invariant
            a <= s@.len(),
            forall|j: int| 0 <= j < a ==> is_ws(#[trigger] s@[j]),
        decreases s@.len() - a,
    {
        a = a + 1;
    }
    let mut b: usize = s.len();
    while b > a && is_whitespace(s[b - 1])
        invariant
            a <= b <= s@.len(),
            forall|j: int| b <= j < s@.len() ==> is_ws(#[trigger] s@[j]),
        decreases b,
    {
        b = b - 1;
    }
    let mut r: Vec<char> = Vec::new();
    let mut i = a;
    while i < b
        invariant
            a <= i <= b <= s@.len(),
            r@ == s@.subrange(a as int, i as int),
        decreases b - i,
    {
        r.push(s[i]);
        proof {
            assert(s@.subrange(a as int, i as int + 1) =~= s@.subrange(a as int, i as int).push(s@[i as int]));
        }
        i = i + 1;
    }
    proof {
        lemma_trim_start_skip(s@, a as int);
        let t = s@.skip(a as int);
        if a < s@.len() {
            assert(!is_ws(t[0]));
        }
        assert(trim_start_seq(t) == t);
        assert forall|j: int| b - a <= j < t.len() implies is_ws(#[trigger] t[j]) by {
            assert(t[j] == s@[j + a]);
        }
        lemma_trim_end_take(t, b - a);
        let u = t.take(b - a);
        assert(u =~= s@.subrange(a as int, b as int));
        if b > a {
            assert(!is_ws(u.last()));
        }
        assert(trim_end_seq(u) == u);
    }
    r
}

/// `s` with leading and trailing white space removed.
pub fn trim(s: &str) -> (r: String)
    ensures
        r@ == trim_seq(s@),
{
    let v = chars_of(s);
    let t = trim_chars(v.as_slice());
    string_of(t.as_slice())
}

/// ASCII upper-case of one character (others unchanged).
pub open spec fn ascii_upper(c: char) -> char {
    if 'a' <= c && c <= 'z' {
        ((c as u32) - 32) as char
    } else {
        c
    }
}

/// ASCII lower-case of one character (others unchanged).
pub open spec fn ascii_lower(c: char) -> char {
    if 'A' <= c && c <= 'Z' {
        ((c as u32) + 32) as char
    } else {
        c
    }
}

pub open spec fn upper_seq(s: Seq<char>) -> Seq<char> {
    s.map_values(|c: char| ascii_upper(c))
}

pub open spec fn lower_seq(s: Seq<char>) -> Seq<char> {
    s.map_values(|c: char| ascii_lower(c))
}

pub fn to_ascii_upper(c: char) -> (r: char)
    ensures
        r == ascii_upper(c),
{
    if 'a' <= c && c <= 'z' {
        let u = (c as u32) - 32;
        proof {
            assert(u <= 0x7f);
        }
        (u as u8) as char
    } else {
        c
    }
}

pub fn to_ascii_lower(c: char) -> (r: char)
    ensures
        r == ascii_lower(c),
{
    if 'A' <= c && c <= 'Z' {
        let u = (c as u32) + 32;
        proof {
            assert(u <= 0x7f);
        }
        (u as u8) as char
    } else {
        c
    }
}

/// `s` with ASCII letters upper-cased, as `str::to_ascii_uppercase` gives it.
pub fn to_ascii_uppercase(s: &str) -> (r: String)
    ensures
        r@ == upper_seq(s@),
{
    let v = chars_of(s);
    let mut r = String::new();
    let mut i: usize = 0;
    while i < v.len()
        invariant
            v@ == s@,
            i <= v@.len(),
            r@ == upper_seq(v@.take(i as int)),
        decreases v@.len() - i,
    {
        r.push(to_ascii_upper(v[i]));
        proof {
            assert(upper_seq(v@.take(i as int + 1)) =~= upper_seq(v@.take(i as int)).push(ascii_upper(v@[i as int])));
        }
        i = i + 1;
    }
    proof {
        assert(v@.take(i as int) =~= v@);
    }
    r
}

/// Whether two strings are equal ignoring ASCII case.
pub fn eq_ignore_ascii_case(a: &str, b: &str) -> (r: bool)
    ensures
        r == (lower_seq(a@) == lower_seq(b@)),
{
    let va = chars_of(a);
    let vb = chars_of(b);
    if va.len() != vb.len() {
        proof {
            assert(lower_seq(a@).len() != lower_seq(b@).len());
        }
        return false;
    }
    let mut i: usize = 0;
    while i < va.len()
        invariant
            va@ == a@,
            vb@ == b@,
            va@.len() == vb@.len(),
            i <= va@.len(),
            forall|j: int| 0 <= j < i ==> ascii_lower(#[trigger] va@[j]) == ascii_lower(vb@[j]),
        decreases va@.len() - i,
    {
        if to_ascii_lower(va[i]) != to_ascii_lower(vb[i]) {
            proof {
                assert(lower_seq(a@)[i as int] != lower_seq(b@)[i as int]);
            }
            return false;
        }
        i = i + 1;
    }
    proof {
        assert(lower_seq(a@) =~= lower_seq(b@));
    }
    true
}

/// `needle` occurs in `hay` starting at `i`.
pub open spec fn occurs_at(hay: Seq<char>, needle: Seq<char>, i: int) -> bool {
    0 <= i && i + needle.len() <= hay.len() && hay.subrange(i, i + needle.len()) == needle
}

/// `needle` occurs somewhere in `hay`.
pub open spec fn contains_seq(hay: Seq<char>, needle: Seq<char>) -> bool {
    exists|i: int| occurs_at(hay, needle, i)
}

fn occurs_at_exec(hay: &[char], needle: &[char], i: usize) -> (r: bool)
    requires
        i + needle@.len() <= hay@.len(),
    ensures
        r == occurs_at(hay@, needle@, i as int),
{
    let mut k: usize = 0;
    while k < needle.len()
        invariant
            i + needle@.len() <= hay@.len(),
            hay@.len() == hay.len(),
            k <= needle@.len(),
            forall|j: int| 0 <= j < k ==> hay@[i + j] == needle@[j],
        decreases needle@.len() - k,
    {
        if hay[i + k] != needle[k] {
            proof {
                assert(hay@.subrange(i as int, i + needle@.len())[k as int] != needle@[k as int]);
            }
            return false;
        }
        k = k + 1;
    }
    proof {
        assert(hay@.subrange(i as int, i + needle@.len()) =~= needle@);
    }
    true
}

/// Whether `needle` occurs in `hay`.
pub fn contains_chars(hay: &[char], needle: &[char]) -> (r: bool)
    ensures
        r == contains_seq(hay@, needle@),
{
    if needle.len() > hay.len() {
        return false;
    }
    let mut i: usize = 0;
    while i <= hay.len() - needle.len()
        invariant
            needle@.len() <= hay@.len(),
            i <= hay@.len() - needle@.len() + 1,
            forall|j: int| 0 <= j < i ==> !#[trigger] occurs_at(hay@, needle@, j),
        decreases hay@.len() - needle@.len() + 1 - i,
    {
        if occurs_at_exec(hay, needle, i) {
            return true;
        }
        if i == hay.len() - needle.len() {
            proof {
                assert forall|j: int| #![trigger occurs_at(hay@, needle@, j)] !occurs_at(hay@, needle@, j) by {
                    if 0 <= j < i {
                    } else if j == i {
                    } else {
                    }
                }
            }
            return false;
        }
        i = i + 1;
    }
    false
}

/// Whether `needle` occurs in `hay`.
pub fn str_contains(hay: &str, needle: &str) -> (r: bool)
    ensures
        r == contains_seq(hay@, needle@),
{
    let h = chars_of(hay);
    let n = chars_of(needle);
    contains_chars(h.as_slice(), n.as_slice())
}

/// Whether `s` starts with `p`.
pub fn starts_with(s: &str, p: &str) -> (r: bool)
    ensures
        r == (p@.len() <= s@.len() && s@.take(p@.len() as int) == p@),
{
    let vs = chars_of(s);
    let vp = chars_of(p);
    if vp.len() > vs.len() {
        return false;
    }
    let r = occurs_at_exec(vs.as_slice(), vp.as_slice(), 0);
    proof {
        assert(vs@.subrange(0, vp@.len() as int) =~= vs@.take(vp@.len() as int));
    }
    r
}

/// Whether `s` ends with `p`.
pub fn ends_with(s: &str, p: &str) -> (r: bool)
    ensures
        r == (p@.len() <= s@.len() && s@.skip(s@.len() - p@.len()) == p@),
{
    let vs = chars_of(s);
    let vp = chars_of(p);
    if vp.len() > vs.len() {
        return false;
    }
    let r = occurs_at_exec(vs.as_slice(), vp.as_slice(), vs.len() - vp.len());
    proof {
        assert(vs@.subrange(vs@.len() - vp@.len(), vs@.len() as int) =~= vs@.skip(vs@.len() - vp@.len()));
    }
    r
}

/// `s` with every `from` replaced by `to`.
pub open spec fn replace_char_seq(s: Seq<char>, from: char, to: char) -> Seq<char> {
    s.map_values(|c: char| if c == from { to } else { c })
}

pub fn replace_char(s: &str, from: char, to: char) -> (r: String)
    ensures
        r@ == replace_char_seq(s@, from, to),
{
    let v = chars_of(s);
    let mut r = String::new();
    let mut i: usize = 0;
    while i < v.len()
        invariant
            v@ == s@,
            i <= v@.len(),
            r@ == replace_char_seq(v@.take(i as int), from, to),
        decreases v@.len() - i,
    {
        let c = v[i];
        r.push(if c == from { to } else { c });
        proof {
            assert(replace_char_seq(v@.take(i as int + 1), from, to) =~= replace_char_seq(v@.take(i as int), from, to).push(if c == from { to } else { c }));
        }
        i = i + 1;
    }
    proof {
        assert(v@.take(i as int) =~= v@);
    }
    r
}

/// Decimal digits of `n` (no sign, no leading zeros; "0" for zero).
pub open spec fn decimal(n: nat) -> Seq<char>
    decreases n,
{
    if n < 10 {
        seq![(('0' as u32) + n) as char]
    } else {
        decimal(n / 10).push((('0' as u32) + (n % 10)) as char)
    }
}

fn digit_char(d: u64) -> (c: char)
    requires
        d < 10,
    ensures
        c == (('0' as u32) + d) as char,
{
    ((48u8 + d as u8) as char)
}

/// Appends the decimal digits of `n` to `s`.
pub fn push_decimal(s: &mut String, n: u64)
    ensures
        final(s)@ == old(s)@ + decimal(n as nat),
    decreases n,
{
    if n < 10 {
        s.push(digit_char(n));
        proof {
            assert(old(s)@.push((('0' as u32) + n) as char) =~= old(s)@ + decimal(n as nat));
        }
    } else {
        push_decimal(s, n / 10);
        s.push(digit_char(n % 10));
        proof {
            assert((old(s)@ + decimal((n / 10) as nat)).push((('0' as u32) + (n % 10)) as char) =~= old(s)@ + decimal(n as nat));
        }
    }
}

/// Lexicographic order of character sequences (the order of `str`/`String`).
pub open spec fn seq_lt(a: Seq<char>, b: Seq<char>) -> bool
    decreases a.len(),
{
    if a.len() == 0 {
        b.len() > 0
    } else if b.len() == 0 {
        false
    } else if a[0] != b[0] {
        a[0] < b[0]
    } else {
        seq_lt(a.drop_first(), b.drop_first())
    }
}

pub proof fn lemma_seq_lt_irreflexive(a: Seq<char>)
    ensures
        !seq_lt(a, a),
    decreases a.len(),
{
    if a.len() > 0 {
        lemma_seq_lt_irreflexive(a.drop_first());
    }
}

pub proof fn lemma_seq_lt_transitive(a: Seq<char>, b: Seq<char>, c: Seq<char>)
    requires
        seq_lt(a, b),
        seq_lt(b, c),
    ensures
        seq_lt(a, c),
    decreases a.len(),
{
    if a.len() > 0 && b.len() > 0 && c.len() > 0 {
        if a[0] == b[0] && b[0] == c[0] {
            lemma_seq_lt_transitive(a.drop_first(), b.drop_first(), c.drop_first());
        }
    }
}

pub proof fn lemma_seq_lt_total(a: Seq<char>, b: Seq<char>)
    ensures
        seq_lt(a, b) || seq_lt(b, a) || a == b,
    decreases a.len(),
{
    if a.len() > 0 && b.len() > 0 {
        if a[0] == b[0] {
            lemma_seq_lt_total(a.drop_first(), b.drop_first());
            if a.drop_first() == b.drop_first() {
                assert(a =~= seq![a[0]] + a.drop_first());
                assert(b =~= seq![b[0]] + b.drop_first());
            }
        }
    } else if a.len() == 0 && b.len() == 0 {
        assert(a =~= b);
    }
}

pub proof fn lemma_seq_lt_asymmetric(a: Seq<char>, b: Seq<char>)
    requires
        seq_lt(a, b),
    ensures
        !seq_lt(b, a),
{
    if seq_lt(b, a) {
        lemma_seq_lt_transitive(a, b, a);
        lemma_seq_lt_irreflexive(a);
    }
}

/// Whether `a` sorts before `b`.
pub fn chars_lt(a: &[char], b: &[char]) -> (r: bool)
    ensures
        r == seq_lt(a@, b@),
{
    let mut i: usize = 0;
    proof {
        assert(a@.skip(0) =~= a@);
        assert(b@.skip(0) =~= b@);
    }
    while i < a.len() && i < b.len() && a[i] == b[i]
        invariant
            i <= a@.len(),
            i <= b@.len(),
            seq_lt(a@, b@) == seq_lt(a@.skip(i as int), b@.skip(i as int)),
        decreases a@.len() - i,
    {
        proof {
            assert(a@.skip(i as int).drop_first() =~= a@.skip(i as int + 1));
            assert(b@.skip(i as int).drop_first() =~= b@.skip(i as int + 1));
        }
        i = i + 1;
    }
    if i == a.len() {
        i < b.len()
    } else if i == b.len() {
        false
    } else {
        a[i] < b[i]
    }
}

/// Whether `a` sorts before `b`.
pub fn str_lt(a: &str, b: &str) -> (r: bool)
    ensures
        r == seq_lt(a@, b@),
{
    let va = chars_of(a);
    let vb = chars_of(b);
    chars_lt(va.as_slice(), vb.as_slice())
}

/// The strings' contents, in order.
pub open spec fn views(v: Seq<String>) -> Seq<Seq<char>> {
    v.map_values(|s: String| s@)
}

/// Sorted in ascending lexicographic order.
pub open spec fn sorted_seqs(s: Seq<Seq<char>>) -> bool {
    forall|i: int, j: int| 0 <= i < j < s.len() ==> !seq_lt(#[trigger] s[j], #[trigger] s[i])
}

/// The test that picks the entries whose key is `k`.
pub open spec fn has_key<T, K>(key: spec_fn(T) -> K, k: K) -> spec_fn(T) -> bool {
    |x: T| key(x) == k
}

/// The strict lexicographic order of texts.
pub open spec fn text_order() -> spec_fn(Seq<char>, Seq<char>) -> bool {
    |a: Seq<char>, b: Seq<char>| seq_lt(a, b)
}

pub proof fn lemma_filter_single<T>(x: T, p: spec_fn(T) -> bool)
    ensures
        seq![x].filter(p) == (if p(x) { seq![x] } else { Seq::<T>::empty() }),
{
    reveal(Seq::filter);
    assert(seq![x].drop_last() =~= Seq::<T>::empty());
    assert(seq![x].last() == x);
    assert(Seq::<T>::empty().filter(p) =~= Seq::<T>::empty());
    assert(Seq::<T>::empty().push(x) =~= seq![x]);
}

pub proof fn lemma_filter_none<T>(s: Seq<T>, p: spec_fn(T) -> bool)
    requires
        forall|m: int| 0 <= m < s.len() ==> !p(#[trigger] s[m]),
    ensures
        s.filter(p) == Seq::<T>::empty(),
{
    if s.filter(p).len() > 0 {
        s.lemma_filter_pred(p, 0);
        s.lemma_filter_contains_rev(p, s.filter(p)[0]);
        let m = choose|m: int| 0 <= m < s.len() && s[m] == s.filter(p)[0];
        assert(!p(s[m]));
    }
    assert(s.filter(p) =~= Seq::<T>::empty());
}

/// Inserting `g` into a list ordered by key (under the strict order `lt`),
/// after every entry whose key is not above `g`'s, keeps the entries of each
/// key in their order and puts `g` last among those with its key: the step
/// of a stable insertion sort.
pub proof fn lemma_stable_insert<T, K>(
    ob: Seq<T>,
    kb: Seq<K>,
    j: int,
    g: T,
    key: spec_fn(T) -> K,
    lt: spec_fn(K, K) -> bool,
    k: K,
    p: spec_fn(T) -> bool,
)
    requires
        ob.len() == kb.len(),
        0 <= j <= ob.len(),
        forall|m: int| 0 <= m < ob.len() ==> key(#[trigger] ob[m]) == kb[m],
        forall|a: int, b: int| 0 <= a < b < kb.len() ==> !lt(#[trigger] kb[b], #[trigger] kb[a]),
        j < ob.len() ==> lt(key(g), kb[j]),
        !lt(key(g), key(g)),
        forall|x: T| #[trigger] p(x) == (key(x) == k),
    ensures
        ob.insert(j, g).filter(p) == ob.filter(p) + seq![g].filter(p),
{
    let pre = ob.take(j);
    let post = ob.skip(j);
    assert(ob.insert(j, g) =~= pre + seq![g] + post);
    assert(ob =~= pre + post);
    Seq::filter_distributes_over_add(pre + seq![g], post, p);
    Seq::filter_distributes_over_add(pre, seq![g], p);
    Seq::filter_distributes_over_add(pre, post, p);
    lemma_filter_single(g, p);
    if p(g) {
        assert forall|m: int| 0 <= m < post.len() implies !p(#[trigger] post[m]) by {
            assert(post[m] == ob[m + j]);
            assert(key(ob[m + j]) == kb[m + j]);
            if m > 0 {
                assert(!lt(kb[m + j], kb[j]));
            }
        }
        lemma_filter_none(post, p);
        assert(post.filter(p) + Seq::<T>::empty() =~= post.filter(p));
        assert(pre.filter(p) + Seq::<T>::empty() =~= pre.filter(p));
        assert(pre.filter(p) + seq![g].filter(p) + Seq::<T>::empty() =~= pre.filter(p) + seq![g].filter(p));
    } else {
        assert(pre.filter(p) + Seq::<T>::empty() =~= pre.filter(p));
        assert(ob.filter(p) + Seq::<T>::empty() =~= ob.filter(p));
    }
}

/// The invariant step of a stable insertion sort: moving `g` from the front
/// of the unsorted rest into the sorted part keeps, for every key, the
/// entries with that key in their original order.
pub proof fn lemma_stable_step<T, K>(
    ob: Seq<T>,
    kb: Seq<K>,
    j: int,
    g: T,
    rest: Seq<T>,
    orig: Seq<T>,
    key: spec_fn(T) -> K,
    lt: spec_fn(K, K) -> bool,
)
    requires
        ob.len() == kb.len(),
        0 <= j <= ob.len(),
        forall|m: int| 0 <= m < ob.len() ==> key(#[trigger] ob[m]) == kb[m],
        forall|a: int, b: int| 0 <= a < b < kb.len() ==> !lt(#[trigger] kb[b], #[trigger] kb[a]),
        j < ob.len() ==> lt(key(g), kb[j]),
        !lt(key(g), key(g)),
        forall|k: K| ob.filter(#[trigger] has_key(key, k)) + (seq![g] + rest).filter(has_key(key, k))
            == orig.filter(has_key(key, k)),
    ensures
        forall|k: K| ob.insert(j, g).filter(#[trigger] has_key(key, k)) + rest.filter(has_key(key, k))
            == orig.filter(has_key(key, k)),
{
    assert forall|k: K| ob.insert(j, g).filter(#[trigger] has_key(key, k)) + rest.filter(has_key(key, k))
        == orig.filter(has_key(key, k)) by {
        let p = has_key(key, k);
        assert(ob.filter(p) + (seq![g] + rest).filter(p) == orig.filter(p));
        lemma_stable_insert(ob, kb, j, g, key, lt, k, p);
        Seq::filter_distributes_over_add(seq![g], rest, p);
        assert(ob.insert(j, g).filter(p) + rest.filter(p) =~= ob.filter(p) + (seq![g].filter(p) + rest.filter(p)));
    }
}

/// Before a stable insertion sort starts, the sorted part is empty.
pub proof fn lemma_stable_start<T, K>(orig: Seq<T>, key: spec_fn(T) -> K)
    ensures
        forall|k: K| Seq::<T>::empty().filter(#[trigger] has_key(key, k)) + orig.filter(has_key(key, k))
            == orig.filter(has_key(key, k)),
{
    assert forall|k: K| Seq::<T>::empty().filter(#[trigger] has_key(key, k)) + orig.filter(has_key(key, k))
        == orig.filter(has_key(key, k)) by {
        let p = has_key(key, k);
        lemma_filter_none(Seq::<T>::empty(), p);
        assert(Seq::<T>::empty() + orig.filter(p) =~= orig.filter(p));
    }
}

/// Sorts strings in ascending lexicographic order, as `sort()` does.
pub fn sort_strings(v: &mut Vec<String>)
    ensures
        sorted_seqs(views(final(v)@)),
        views(final(v)@).to_multiset() == views(old(v)@).to_multiset(),
{
    let mut out: Vec<String> = Vec::new();
    let ghost orig = views(v@);
    proof {
        assert(views(out@) =~= Seq::<Seq<char>>::empty());
        assert(views(out@) + views(v@) =~= views(v@));
    }
    while v.len() > 0
        invariant
            sorted_seqs(views(out@)),
            (views(out@) + views(v@)).to_multiset() == orig.to_multiset(),
        decreases v@.len(),
    {
        let ghost v_before = v@;
        let x = v.pop().unwrap();
        let ghost rest = v@;
        proof {
            assert(v_before =~= rest.push(x));
            assert(views(v_before) =~= views(rest).push(x@));
        }
        let mut j: usize = 0;
        while j < out.len() && !str_lt(x.as_str(), out[j].as_str())
            invariant
                j <= out@.len(),
                forall|k: int| 0 <= k < j ==> !seq_lt(x@, #[trigger] views(out@)[k]),
            decreases out@.len() - j,
        {
            j = j + 1;
        }
        let ghost before = views(out@);
        out.insert(j, x);
        proof {
            let after = views(out@);
            assert(after =~= before.insert(j as int, x@));
            assert forall|a: int, b: int| 0 <= a < b < after.len() implies !seq_lt(#[trigger] after[b], #[trigger] after[a]) by {
                if a < j && b == j {
                    assert(!seq_lt(x@, before[a]));
                } else if a == j && b > j {
                    if j < before.len() {
                        assert(seq_lt(x@, before[j as int]));
                        if b - 1 > j {
                            assert(!seq_lt(before[b - 1], before[j as int]));
                            lemma_seq_lt_total(before[j as int], before[b - 1]);
                            if seq_lt(before[b - 1], x@) {
                                if before[j as int] == before[b - 1] {
                                    lemma_seq_lt_asymmetric(x@, before[j as int]);
                                } else {
                                    lemma_seq_lt_transitive(before[j as int], before[b - 1], x@);
                                    lemma_seq_lt_asymmetric(x@, before[j as int]);
                                }
                            }
                        } else {
                            lemma_seq_lt_asymmetric(x@, before[j as int]);
                        }
                    }
                } else if a < j && b > j {
                    assert(after[a] == before[a]);
                    assert(after[b] == before[b - 1]);
                } else if a > j {
                    assert(after[a] == before[a - 1]);
                    assert(after[b] == before[b - 1]);
                }
            }
            broadcast use vstd::multiset::group_multiset_axioms;
            assert(views(rest.push(x)) =~= views(rest).push(x@));
            vstd::seq_lib::lemma_multiset_commutative(before, views(rest).push(x@));
            vstd::seq_lib::lemma_multiset_commutative(after, views(rest));
            vstd::seq_lib::to_multiset_build(views(rest), x@);
            vstd::seq_lib::to_multiset_insert(before, j as int, x@);
            assert((after + views(rest)).to_multiset() =~= (before + views(rest).push(x@)).to_multiset());
        }
    }
    proof {
        assert(views(v@) =~= Seq::<Seq<char>>::empty());
        assert(views(out@) + views(v@) =~= views(out@));
    }
    *v = out;
}

/// Index of the first string in `v` equal to `x`, if any.
pub open spec fn first_index_of(v: Seq<Seq<char>>, x: Seq<char>, i: int) -> bool {
    0 <= i < v.len() && v[i] == x && forall|j: int| 0 <= j < i ==> v[j] != x
}

/// The position of the first string equal to `x`, as `iter().position(..)` finds it.
pub fn position_of(v: &Vec<String>, x: &str) -> (r: Option<usize>)
    ensures
        match r {
            Some(i) => first_index_of(views(v@), x@, i as int),
            None => !views(v@).contains(x@),
        },
{
    let mut i: usize = 0;
    while i < v.len()
        invariant
            i <= v@.len(),
            forall|j: int| 0 <= j < i ==> views(v@)[j] != x@,
        decreases v@.len() - i,
    {
        if str_equal(v[i].as_str(), x) {
            return Some(i);
        }
        i = i + 1;
    }
    None
}

/// Index of the first string in `v` equal to `x` ignoring ASCII case.
pub open spec fn first_index_ignore_case(v: Seq<Seq<char>>, x: Seq<char>, i: int) -> bool {
    0 <= i < v.len() && lower_seq(v[i]) == lower_seq(x)
        && forall|j: int| 0 <= j < i ==> lower_seq(#[trigger] v[j]) != lower_seq(x)
}

/// Some string of `v` equals `x` ignoring ASCII case.
pub open spec fn contains_ignore_case(v: Seq<Seq<char>>, x: Seq<char>) -> bool {
    exists|j: int| 0 <= j < v.len() && lower_seq(#[trigger] v[j]) == lower_seq(x)
}

/// The position of the first string equal to `x` ignoring ASCII case.
pub fn position_ignore_case(v: &Vec<String>, x: &str) -> (r: Option<usize>)
    ensures
        match r {
            Some(i) => first_index_ignore_case(views(v@), x@, i as int),
            None => !contains_ignore_case(views(v@), x@),
        },
{
    let mut i: usize = 0;
    while i < v.len()
        invariant
            i <= v@.len(),
            forall|j: int| 0 <= j < i ==> lower_seq(#[trigger] views(v@)[j]) != lower_seq(x@),
        decreases v@.len() - i,
    {
        if eq_ignore_ascii_case(v[i].as_str(), x) {
            return Some(i);
        }
        i = i + 1;
    }
    None
}

/// Whether some string of `v` equals `x`.
pub fn contains_string(v: &Vec<String>, x: &str) -> (r: bool)
    ensures
        r == views(v@).contains(x@),
{
    match position_of(v, x) {
        Some(i) => {
            proof {
                assert(views(v@)[i as int] == x@);
            }
            true
        },
        None => false,
    }
}

/// Removing an element commutes with taking views.
pub proof fn lemma_views_remove(v: Seq<String>, i: int)
    requires
        0 <= i < v.len(),
    ensures
        views(v.remove(i)) == views(v).remove(i),
{
    assert(views(v.remove(i)) =~= views(v).remove(i));
}

/// Pushing an element commutes with taking views.
pub proof fn lemma_views_push(v: Seq<String>, s: String)
    ensures
        views(v.push(s)) == views(v).push(s@),
{
    assert(views(v.push(s)) =~= views(v).push(s@));
}

/// In strictly ascending lexicographic order (so without repeats).
pub open spec fn strictly_sorted(s: Seq<Seq<char>>) -> bool {
    forall|i: int, j: int| 0 <= i < j < s.len() ==> seq_lt(#[trigger] s[i], #[trigger] s[j])
}

/// Inserts `x` into a strictly sorted list at its place; a string already
/// present leaves the list unchanged. Returns whether `x` was inserted.
pub fn insert_sorted(v: &mut Vec<String>, x: String) -> (inserted: bool)
    requires
        strictly_sorted(views(old(v)@)),
    ensures
        strictly_sorted(views(final(v)@)),
        inserted == !views(old(v)@).contains(x@),
        forall|k: Seq<char>| #[trigger] views(final(v)@).contains(k) == (views(old(v)@).contains(k) || k == x@),
        !inserted ==> final(v)@ == old(v)@,
{
    let ghost before = views(v@);
    let mut j: usize = 0;
    while j < v.len() && str_lt(v[j].as_str(), x.as_str())
        invariant
            j <= v@.len(),
            before == views(v@),
            forall|k: int| 0 <= k < j ==> seq_lt(#[trigger] before[k], x@),
        decreases v@.len() - j,
    {
        j = j + 1;
    }
    if j < v.len() && str_equal(v[j].as_str(), x.as_str()) {
        proof {
            assert(before[j as int] == x@);
        }
        return false;
    }
    proof {
        if j < before.len() {
            lemma_seq_lt_total(before[j as int], x@);
        }
        assert forall|k: int| 0 <= k < before.len() implies before[k] != x@ by {
            if k < j {
                lemma_seq_lt_irreflexive(x@);
            } else {
                if k > j {
                    assert(seq_lt(before[j as int], before[k]));
                    if before[k] == x@ {
                        lemma_seq_lt_asymmetric(before[j as int], x@);
                    }
                }
            }
        }
    }
    let ghost xv = x@;
    v.insert(j, x);
    proof {
        let after = views(v@);
        assert(after =~= before.insert(j as int, xv));
        assert forall|a: int, b: int| 0 <= a < b < after.len() implies seq_lt(#[trigger] after[a], #[trigger] after[b]) by {
            if a < j && b == j {
            } else if a < j && b > j {
                assert(after[b] == before[b - 1]);
            } else if a == j && b > j {
                assert(after[b] == before[b - 1]);
                if b - 1 > j {
                    lemma_seq_lt_transitive(xv, before[j as int], before[b - 1]);
                }
            } else if a > j {
                assert(after[a] == before[a - 1]);
                assert(after[b] == before[b - 1]);
            }
        }
        assert forall|k: Seq<char>| #[trigger] after.contains(k) == (before.contains(k) || k == xv) by {
            if after.contains(k) {
                let m = choose|m: int| 0 <= m < after.len() && after[m] == k;
                if m < j {
                    assert(before[m] == k);
                } else if m > j {
                    assert(before[m - 1] == k);
                }
            }
            if before.contains(k) {
                let m = choose|m: int| 0 <= m < before.len() && before[m] == k;
                if m < j {
                    assert(after[m] == k);
                } else {
                    assert(after[m + 1] == k);
                }
            }
            if k == xv {
                assert(after[j as int] == k);
            }
        }
    }
    true
}

/// Removes `x` from a strictly sorted list; returns whether it was there.
pub fn remove_sorted(v: &mut Vec<String>, x: &str) -> (removed: bool)
    requires
        strictly_sorted(views(old(v)@)),
    ensures
        strictly_sorted(views(final(v)@)),
        removed == views(old(v)@).contains(x@),
        forall|k: Seq<char>| #[trigger] views(final(v)@).contains(k) == (views(old(v)@).contains(k) && k != x@),
        !removed ==> final(v)@ == old(v)@,
{
    let ghost before = views(v@);
    match position_of(v, x) {
        Some(i) => {
            v.remove(i);
            proof {
                let after = views(v@);
                assert(after =~= before.remove(i as int));
                assert forall|a: int, b: int| 0 <= a < b < after.len() implies seq_lt(#[trigger] after[a], #[trigger] after[b]) by {
                    if a < i && b >= i {
                        assert(after[b] == before[b + 1]);
                    } else if a >= i {
                        assert(after[a] == before[a + 1]);
                        assert(after[b] == before[b + 1]);
                    }
                }
                assert forall|k: Seq<char>| #[trigger] after.contains(k) == (before.contains(k) && k != x@) by {
                    if after.contains(k) {
                        let m = choose|m: int| 0 <= m < after.len() && after[m] == k;
                        if m < i {
                            assert(before[m] == k);
                            assert(seq_lt(before[m], before[i as int]));
                            if k == x@ {
                                lemma_seq_lt_irreflexive(k);
                            }
                        } else {
                            assert(before[m + 1] == k);
                            assert(seq_lt(before[i as int], before[m + 1]));
                            if k == x@ {
                                lemma_seq_lt_irreflexive(k);
                            }
                        }
                    }
                    if before.contains(k) && k != x@ {
                        let m = choose|m: int| 0 <= m < before.len() && before[m] == k;
                        if m < i {
                            assert(after[m] == k);
                        } else {
                            assert(m != i);
                            assert(after[m - 1] == k);
                        }
                    }
                }
            }
            true
        },
        None => false,
    }
}

/// Appends a raw line to `done` as its trimmed text, unless that is empty.
pub open spec fn add_line(done: Seq<Seq<char>>, raw: Seq<char>) -> Seq<Seq<char>> {
    if trim_seq(raw).len() > 0 {
        done.push(trim_seq(raw))
    } else {
        done
    }
}

/// Splitting `s` at line feeds, read left to right: the finished lines
/// (trimmed, blank ones dropped) and the raw text of the line in progress.
pub open spec fn split_fold(s: Seq<char>) -> (Seq<Seq<char>>, Seq<char>)
    decreases s.len(),
{
    if s.len() == 0 {
        (Seq::empty(), Seq::empty())
    } else {
        let p = split_fold(s.drop_last());
        if s.last() == '\n' {
            (add_line(p.0, p.1), Seq::empty())
        } else {
            (p.0, p.1.push(s.last()))
        }
    }
}

/// The non-blank lines of a text, each trimmed, in order: what
/// `lines().map(str::trim).filter(|l| !l.is_empty())` yields (a carriage
/// return before a line feed is white space and goes with the trim).
pub open spec fn content_lines(s: Seq<char>) -> Seq<Seq<char>> {
    let p = split_fold(s);
    add_line(p.0, p.1)
}

/// The stored text of a list of lines: each followed by a line feed.
pub open spec fn lines_text(ids: Seq<Seq<char>>) -> Seq<char>
    decreases ids.len(),
{
    if ids.len() == 0 {
        Seq::empty()
    } else {
        lines_text(ids.drop_last()) + ids.last() + seq!['\n']
    }
}

/// A line that reads back as itself: not empty, no line feed, and no white
/// space at either end.
pub open spec fn clean_line(l: Seq<char>) -> bool {
    &&& l.len() > 0
    &&& !l.contains('\n')
    &&& !is_ws(l[0])
    &&& !is_ws(l.last())
}

proof fn lemma_clean_line_trimmed(l: Seq<char>)
    requires
        clean_line(l),
    ensures
        trim_seq(l) == l,
{
    assert(trim_start_seq(l) == l);
    assert(trim_end_seq(l) == l);
}

/// Text without a line feed extends the line in progress.
proof fn lemma_split_fold_extend(t: Seq<char>, l: Seq<char>)
    requires
        !l.contains('\n'),
    ensures
        split_fold(t + l) == (split_fold(t).0, split_fold(t).1 + l),
    decreases l.len(),
{
    if l.len() == 0 {
        assert(t + l =~= t);
        assert(split_fold(t).1 + l =~= split_fold(t).1);
    } else {
        assert((t + l).drop_last() =~= t + l.drop_last());
        assert(!l.drop_last().contains('\n')) by {
            if l.drop_last().contains('\n') {
                let k = choose|k: int| 0 <= k < l.drop_last().len() && l.drop_last()[k] == '\n';
                assert(l[k] == '\n');
            }
        }
        lemma_split_fold_extend(t, l.drop_last());
        assert(l.last() != '\n') by {
            assert(l[l.len() - 1] == l.last());
        }
        assert((split_fold(t).1 + l.drop_last()).push(l.last()) =~= split_fold(t).1 + l);
    }
}

/// After text that ends a line, the lines of `lines_text(ids)` are `ids`
/// when each is clean.
proof fn lemma_split_fold_lines_text(t: Seq<char>, ids: Seq<Seq<char>>)
    requires
        split_fold(t).1 == Seq::<char>::empty(),
        forall|i: int| 0 <= i < ids.len() ==> clean_line(#[trigger] ids[i]),
    ensures
        split_fold(t + lines_text(ids)) == (split_fold(t).0 + ids, Seq::<char>::empty()),
    decreases ids.len(),
{
    if ids.len() == 0 {
        assert(t + lines_text(ids) =~= t);
        assert(split_fold(t).0 + ids =~= split_fold(t).0);
    } else {
        let init = ids.drop_last();
        let l = ids.last();
        assert(clean_line(ids[ids.len() - 1]));
        lemma_split_fold_lines_text(t, init);
        let u = t + lines_text(init);
        lemma_split_fold_extend(u, l);
        assert(Seq::<char>::empty() + l =~= l);
        let w = u + l + seq!['\n'];
        assert(t + lines_text(ids) =~= w);
        assert(w.drop_last() =~= u + l);
        lemma_clean_line_trimmed(l);
        assert((split_fold(t).0 + init).push(l) =~= split_fold(t).0 + ids);
    }
}

/// Text that ends a line, followed by one clean line and a line feed.
pub proof fn lemma_split_fold_one_line(t: Seq<char>, l: Seq<char>)
    requires
        split_fold(t).1 == Seq::<char>::empty(),
        clean_line(l),
    ensures
        split_fold(t + l + seq!['\n']) == (split_fold(t).0.push(l), Seq::<char>::empty()),
{
    lemma_split_fold_lines_text(t, seq![l]);
    assert(lines_text(seq![l]) =~= l + seq!['\n']) by {
        assert(seq![l].drop_last() =~= Seq::<Seq<char>>::empty());
        assert(seq![l].last() == l);
        assert(lines_text(Seq::<Seq<char>>::empty()) == Seq::<char>::empty());
        assert(Seq::<char>::empty() + l =~= l);
    }
    assert(t + lines_text(seq![l]) =~= t + l + seq!['\n']);
    assert(split_fold(t).0 + seq![l] =~= split_fold(t).0.push(l));
}

/// After text that ends a line, more whole lines of clean text.
pub proof fn lemma_split_fold_more_lines(t: Seq<char>, ids: Seq<Seq<char>>)
    requires
        split_fold(t).1 == Seq::<char>::empty(),
        forall|i: int| 0 <= i < ids.len() ==> clean_line(#[trigger] ids[i]),
    ensures
        split_fold(t + lines_text(ids)) == (split_fold(t).0 + ids, Seq::<char>::empty()),
{
    lemma_split_fold_lines_text(t, ids);
}

/// Lines written one per line and read back come back unchanged, when each
/// is clean.
pub proof fn lemma_content_lines_of_lines_text(ids: Seq<Seq<char>>)
    requires
        forall|i: int| 0 <= i < ids.len() ==> clean_line(#[trigger] ids[i]),
    ensures
        content_lines(lines_text(ids)) == ids,
{
    let e = Seq::<char>::empty();
    assert(split_fold(e) == (Seq::<Seq<char>>::empty(), e));
    lemma_split_fold_lines_text(e, ids);
    assert(e + lines_text(ids) =~= lines_text(ids));
    assert(Seq::<Seq<char>>::empty() + ids =~= ids);
    assert(trim_start_seq(e) == e);
    assert(trim_end_seq(e) == e);
}

/// The non-blank lines of `text`, trimmed.
pub fn content_lines_of(text: &str) -> (lines: Vec<String>)
    ensures
        views(lines@) == content_lines(text@),
{
    let chars = chars_of(text);
    let mut done: Vec<String> = Vec::new();
    let mut cur: Vec<char> = Vec::new();
    let mut i: usize = 0;
    while i < chars.len()
        invariant
            chars@ == text@,
            i <= chars@.len(),
            (views(done@), cur@) == split_fold(chars@.take(i as int)),
        decreases chars@.len() - i,
    {
        let c = chars[i];
        proof {
            assert(chars@.take(i as int + 1).drop_last() =~= chars@.take(i as int));
            assert(chars@.take(i as int + 1).last() == c);
        }
        if c == '\n' {
            let t = trim_chars(cur.as_slice());
            if t.len() > 0 {
                let line = string_of(t.as_slice());
                let ghost d0 = done@;
                done.push(line);
                proof {
                    lemma_views_push(d0, line);
                }
            }
            cur = Vec::new();
        } else {
            cur.push(c);
        }
        i = i + 1;
    }
    proof {
        assert(chars@.take(i as int) =~= text@);
    }
    let t = trim_chars(cur.as_slice());
    if t.len() > 0 {
        let line = string_of(t.as_slice());
        let ghost d0 = done@;
        done.push(line);
        proof {
            lemma_views_push(d0, line);
        }
    }
    done
}

/// The Unicode upper-case form of a string, as std's `str::to_uppercase`
/// computes it from the Unicode case tables.
pub uninterp spec fn unicode_upper(s: Seq<char>) -> Seq<char>;

/// The Unicode lower-case form of a string, as std's `str::to_lowercase`
/// computes it from the Unicode case tables.
pub uninterp spec fn unicode_lower(s: Seq<char>) -> Seq<char>;

/// Every character of `s` is ASCII.
pub open spec fn all_ascii(s: Seq<char>) -> bool {
    forall|i: int| 0 <= i < s.len() ==> (#[trigger] s[i] as u32) < 128
}

/// `str::to_uppercase`: its result is named by `unicode_upper` of the
/// argument. Beyond that it claims only what the Unicode case tables give
/// ASCII text: each ASCII letter maps to its ASCII upper case, every other
/// ASCII character to itself.
#[verifier::external_body]
pub(crate) fn to_uppercase(s: &str) -> (r: String)
    ensures
        r@ == unicode_upper(s@),
        all_ascii(s@) ==> r@ == upper_seq(s@),
{
    s.to_uppercase()
}

/// `str::to_lowercase`: its result is named by `unicode_lower` of the
/// argument. Beyond that it claims only what the Unicode case tables give
/// ASCII text: each ASCII letter maps to its ASCII lower case, every other
/// ASCII character to itself.
#[verifier::external_body]
pub(crate) fn to_lowercase(s: &str) -> (r: String)
    ensures
        r@ == unicode_lower(s@),
        all_ascii(s@) ==> r@ == lower_seq(s@),
{
    s.to_lowercase()
}

/// The text of `s` from its second character on (empty when `s` is empty).
pub fn without_first_char(s: &str) -> (r: String)
    ensures
        s@.len() > 0 ==> r@ == s@.drop_first(),
        s@.len() == 0 ==> r@ == Seq::<char>::empty(),
{
    let v = chars_of(s);
    let mut r = String::new();
    if v.len() == 0 {
        return r;
    }
    let mut i: usize = 1;
    while i < v.len()
        invariant
            v@ == s@,
            1 <= i <= v@.len(),
            r@ == v@.subrange(1, i as int),
        decreases v@.len() - i,
    {
        r.push(v[i]);
        proof {
            assert(v@.subrange(1, i as int + 1) =~= v@.subrange(1, i as int).push(v@[i as int]));
        }
        i = i + 1;
    }
    proof {
        assert(v@.subrange(1, i as int) =~= s@.drop_first());
    }
    r
}

/// Reading `s` left to right while collapsing white space: the text so
/// far, and whether a gap is pending before the next word.
pub open spec fn collapse_fold(s: Seq<char>) -> (Seq<char>, bool)
    decreases s.len(),
{
    if s.len() == 0 {
        (Seq::empty(), false)
    } else {
        let p = collapse_fold(s.drop_last());
        let c = s.last();
        if is_ws(c) {
            (p.0, p.0.len() > 0)
        } else if p.1 {
            (p.0.push(' ').push(c), false)
        } else {
            (p.0.push(c), false)
        }
    }
}

/// The words of `s` joined by single spaces, as
/// `split_whitespace().collect::<Vec<_>>().join(" ")` gives them.
pub open spec fn collapse_ws(s: Seq<char>) -> Seq<char> {
    collapse_fold(s).0
}

/// White space in `t` is only single spaces between words.
pub open spec fn single_spaced(t: Seq<char>) -> bool {
    forall|i: int| 0 <= i < t.len() && is_ws(#[trigger] t[i]) ==> t[i] == ' ' && 0 < i < t.len() - 1 && !is_ws(t[i + 1])
}

/// What collapsing white space gives: single spaces between words, and
/// otherwise only characters of the input that are not white space.
pub proof fn lemma_collapse_shape(s: Seq<char>)
    ensures
        single_spaced(collapse_fold(s).0),
        collapse_fold(s).0.len() > 0 ==> !is_ws(collapse_fold(s).0.last()),
        collapse_fold(s).1 ==> collapse_fold(s).0.len() > 0,
        forall|j: int| 0 <= j < collapse_fold(s).0.len() ==> #[trigger] collapse_fold(s).0[j] == ' ' || (!is_ws(
            collapse_fold(s).0[j],
        ) && s.contains(collapse_fold(s).0[j])),
    decreases s.len(),
{
    if s.len() > 0 {
        let u = s.drop_last();
        lemma_collapse_shape(u);
        let p = collapse_fold(u);
        let c = s.last();
        let out = collapse_fold(s).0;
        assert forall|x: char| u.contains(x) implies s.contains(x) by {
            let k = choose|k: int| 0 <= k < u.len() && u[k] == x;
            assert(s[k] == x);
        }
        assert(s[s.len() - 1] == c);
        if is_ws(c) {
        } else if p.1 {
            assert(out == p.0.push(' ').push(c));
            assert forall|i: int| 0 <= i < out.len() && is_ws(#[trigger] out[i]) implies out[i] == ' ' && 0 < i < out.len() - 1
                && !is_ws(out[i + 1]) by {
                if i < p.0.len() {
                    assert(out[i] == p.0[i]);
                    if i + 1 < p.0.len() {
                        assert(out[i + 1] == p.0[i + 1]);
                    } else {
                        assert(!is_ws(p.0.last()));
                        assert(p.0[i] == p.0.last());
                    }
                }
            }
            assert forall|j: int| 0 <= j < out.len() implies #[trigger] out[j] == ' ' || (!is_ws(out[j]) && s.contains(out[j])) by {
                if j < p.0.len() {
                    assert(out[j] == p.0[j]);
                }
            }
        } else {
            assert(out == p.0.push(c));
            assert forall|i: int| 0 <= i < out.len() && is_ws(#[trigger] out[i]) implies out[i] == ' ' && 0 < i < out.len() - 1
                && !is_ws(out[i + 1]) by {
                assert(i < p.0.len());
                assert(out[i] == p.0[i]);
                if i + 1 < p.0.len() {
                    assert(out[i + 1] == p.0[i + 1]);
                } else {
                    assert(!is_ws(p.0.last()));
                    assert(p.0[i] == p.0.last());
                }
            }
            assert forall|j: int| 0 <= j < out.len() implies #[trigger] out[j] == ' ' || (!is_ws(out[j]) && s.contains(out[j])) by {
                if j < p.0.len() {
                    assert(out[j] == p.0[j]);
                }
            }
        }
    }
}

proof fn lemma_collapse_prefix(t: Seq<char>)
    requires
        forall|i: int| 0 <= i < t.len() && is_ws(#[trigger] t[i]) ==> t[i] == ' ' && 0 < i && (i + 1 < t.len()
            ==> !is_ws(t[i + 1])),
    ensures
        collapse_fold(t) == (if t.len() > 0 && is_ws(t.last()) { (t.drop_last(), true) } else { (t, false) }),
    decreases t.len(),
{
    if t.len() > 0 {
        let u = t.drop_last();
        assert forall|i: int| 0 <= i < u.len() && is_ws(#[trigger] u[i]) implies u[i] == ' ' && 0 < i && (i + 1 < u.len()
            ==> !is_ws(u[i + 1])) by {
            assert(u[i] == t[i]);
            if i + 1 < u.len() {
                assert(u[i + 1] == t[i + 1]);
            }
        }
        lemma_collapse_prefix(u);
        let c = t.last();
        assert(t[t.len() - 1] == c);
        if is_ws(c) {
            assert(t.len() - 1 > 0);
            assert(!is_ws(t[t.len() - 2]));
            assert(u.last() == t[t.len() - 2]);
            assert(u.len() > 0);
        } else if u.len() > 0 && is_ws(u.last()) {
            assert(u.last() == t[t.len() - 2]);
            assert(u.last() == ' ');
            assert(u.drop_last().push(' ').push(c) =~= t);
        } else {
            assert(u.push(c) =~= t);
        }
    }
}

/// Collapsing white space changes nothing in a text that is already single
/// spaced, so collapsing twice is collapsing once.
pub proof fn lemma_collapse_fixed(t: Seq<char>)
    requires
        single_spaced(t),
    ensures
        collapse_ws(t) == t,
{
    assert forall|i: int| 0 <= i < t.len() && is_ws(#[trigger] t[i]) implies t[i] == ' ' && 0 < i && (i + 1 < t.len()
        ==> !is_ws(t[i + 1])) by {}
    lemma_collapse_prefix(t);
    if t.len() > 0 && is_ws(t.last()) {
        assert(is_ws(t[t.len() - 1]));
    }
}

/// The words of `v` joined by single spaces.
pub fn collapse_whitespace(v: &[char]) -> (r: String)
    ensures
        r@ == collapse_ws(v@),
{
    let mut out = String::new();
    let mut gap = false;
    let mut i: usize = 0;
    while i < v.len()
        invariant
            i <= v@.len(),
            (out@, gap) == collapse_fold(v@.take(i as int)),
        decreases v@.len() - i,
    {
        let c = v[i];
        proof {
            assert(v@.take(i as int + 1).drop_last() =~= v@.take(i as int));
        }
        if is_whitespace(c) {
            gap = out.as_str().is_empty() == false;
        } else {
            if gap {
                out.push(' ');
            }
            out.push(c);
            gap = false;
        }
        i = i + 1;
    }
    proof {
        assert(v@.take(i as int) =~= v@);
    }
    out
}

/// The text std's `String::from_utf8_lossy` makes of some bytes: valid
/// UTF-8 decoded, each invalid sequence replaced by U+FFFD.
pub uninterp spec fn utf8_lossy(b: Seq<u8>) -> Seq<char>;

/// `String::from_utf8_lossy`: its result is named by `utf8_lossy` of the
/// bytes; nothing more is claimed of it.
#[verifier::external_body]
pub(crate) fn decode_utf8_lossy(b: &[u8]) -> (s: String)
    ensures
        s@ == utf8_lossy(b@),
{
    String::from_utf8_lossy(b).into_owned()
}

/// Index of the first occurrence of `needle` in `hay` at or after `i`, or -1.
pub open spec fn find_from(hay: Seq<char>, needle: Seq<char>, i: int) -> int
    decreases hay.len() + 1 - i,
{
    if i < 0 || i + needle.len() > hay.len() {
        -1
    } else if occurs_at(hay, needle, i) {
        i
    } else {
        find_from(hay, needle, i + 1)
    }
}

proof fn lemma_find_from_bound(hay: Seq<char>, needle: Seq<char>, i: int)
    ensures
        find_from(hay, needle, i) == -1 || (i <= find_from(hay, needle, i) && find_from(hay, needle, i)
            + needle.len() <= hay.len() && occurs_at(hay, needle, find_from(hay, needle, i))),
    decreases hay.len() + 1 - i,
{
    if !(i < 0 || i + needle.len() > hay.len()) && !occurs_at(hay, needle, i) {
        lemma_find_from_bound(hay, needle, i + 1);
    }
}

/// The first position of `needle` in `hay` (`str::find`, counted in characters).
pub fn find_chars(hay: &[char], needle: &[char]) -> (r: Option<usize>)
    ensures
        match r {
            Some(i) => find_from(hay@, needle@, 0) == i && i + needle@.len() <= hay@.len(),
            None => find_from(hay@, needle@, 0) == -1,
        },
{
    if needle.len() > hay.len() {
        return None;
    }
    if needle.len() == 0 {
        proof {
            assert(hay@.subrange(0, 0) =~= needle@);
        }
        return Some(0);
    }
    let last = hay.len() - needle.len();
    let mut i: usize = 0;
    while i <= last
        invariant
            last + needle@.len() == hay@.len(),
            needle@.len() > 0,
            last < usize::MAX,
            i <= last + 1,
            find_from(hay@, needle@, 0) == find_from(hay@, needle@, i as int),
        decreases last + 1 - i,
    {
        if occurs_at_exec(hay, needle, i) {
            return Some(i);
        }
        i = i + 1;
    }
    None
}

/// `s` with ASCII letters lower-cased, as `str::to_ascii_lowercase` gives it.
pub fn to_ascii_lowercase_string(s: &str) -> (r: String)
    ensures
        r@ == lower_seq(s@),
{
    let v = chars_of(s);
    let mut r = String::new();
    let mut i: usize = 0;
    while i < v.len()
        invariant
            v@ == s@,
            i <= v@.len(),
            r@ == lower_seq(v@.take(i as int)),
        decreases v@.len() - i,
    {
        r.push(to_ascii_lower(v[i]));
        proof {
            assert(lower_seq(v@.take(i as int + 1)) =~= lower_seq(v@.take(i as int)).push(ascii_lower(v@[i as int])));
        }
        i = i + 1;
    }
    proof {
        assert(v@.take(i as int) =~= v@);
    }
    r
}

} // verus!
