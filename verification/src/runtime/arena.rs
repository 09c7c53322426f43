use vstd::prelude::*;
use vstd::string::StringSliceAdditionalSpecFns;
use vstd::utf8::{valid_utf8, is_char_boundary, encode_utf8};
use crate::text::str_equal;

verus! {

/// Bytes reserved for each new chunk (more when one string is larger).
pub const CHUNK_SIZE: usize = 65536;

/// Longest string, in bytes, that one reference can describe.
pub const MAX_REF_LEN: usize = 65535;

/// Where a string lives in an arena: chunk, byte offset and byte length.
#[derive(Debug, Clone, Copy, PartialEq, Eq, Structural, Hash, Default)]
pub struct StringRef {
    pub chunk_idx: u16,
    pub offset: u32,
    pub len: u16,
}

impl StringRef {
    /// The reference that stands for the empty string.
    pub fn empty() -> (r: StringRef)
        ensures
            r == empty_ref(),
    {
        StringRef { chunk_idx: 0, offset: 0, len: 0 }
    }

    pub fn is_empty(&self) -> (b: bool)
        ensures
            b == (self.len == 0),
    {
        self.len == 0
    }
}

/// The reference that stands for the empty string.
pub open spec fn empty_ref() -> StringRef {
    StringRef { chunk_idx: 0, offset: 0, len: 0 }
}

/// The largest character boundary of `b` at or below `i`.
pub open spec fn boundary_at_or_below(b: Seq<u8>, i: int) -> int
    decreases i,
{
    if i <= 0 {
        0
    } else if is_char_boundary(b, i) {
        i
    } else {
        boundary_at_or_below(b, i - 1)
    }
}

/// The bytes an arena stores for a string: all of them, or, for a string
/// longer than a reference can describe, the longest prefix that ends on a
/// character boundary and fits.
pub open spec fn clipped(b: Seq<u8>) -> Seq<u8> {
    if b.len() <= MAX_REF_LEN {
        b
    } else {
        b.subrange(0, boundary_at_or_below(b, MAX_REF_LEN as int))
    }
}

proof fn lemma_boundary_at_or_below(b: Seq<u8>, i: int)
    requires
        valid_utf8(b),
        i <= b.len(),
    ensures
        0 <= boundary_at_or_below(b, i) <= if i < 0 { 0 } else { i },
        is_char_boundary(b, boundary_at_or_below(b, i)),
    decreases i,
{
    vstd::utf8::is_char_boundary_start_end_of_seq(b);
    if i <= 0 {
    } else if is_char_boundary(b, i) {
    } else {
        lemma_boundary_at_or_below(b, i - 1);
    }
}

/// Clipping keeps valid UTF-8 valid and never yields more than a reference can describe.
pub proof fn lemma_clipped(b: Seq<u8>)
    requires
        valid_utf8(b),
    ensures
        valid_utf8(clipped(b)),
        clipped(b).len() <= MAX_REF_LEN,
        clipped(b).len() <= b.len(),
        b.len() > 0 ==> clipped(b).len() > 0 || b.len() > MAX_REF_LEN,
{
    if b.len() > MAX_REF_LEN {
        lemma_boundary_at_or_below(b, MAX_REF_LEN as int);
        vstd::utf8::valid_utf8_split(b, boundary_at_or_below(b, MAX_REF_LEN as int));
    }
}

struct Chunk {
    data: Vec<u8>,
    capacity: usize,
}

/// Append-only storage for many short strings, in large chunks, with
/// optional de-duplication ("interning").
pub struct StringArena {
    chunks: Vec<Chunk>,
    map: Vec<(String, StringRef)>,
    total_bytes_stored: usize,
}

/// The bytes that `r` designates in `chunks`; empty when it designates nothing.
pub open spec fn resolve(chunks: Seq<Seq<u8>>, r: StringRef) -> Seq<u8> {
    let i = r.chunk_idx as int;
    let start = r.offset as int;
    let end = start + r.len as int;
    if r.len == 0 || i >= chunks.len() || end > chunks[i].len() {
        Seq::empty()
    } else {
        chunks[i].subrange(start, end)
    }
}

impl StringArena {
    /// Bytes held by each chunk.
    pub closed spec fn spec_chunks(&self) -> Seq<Seq<u8>> {
        self.chunks@.map_values(|c: Chunk| c.data@)
    }

    /// Bytes reserved for each chunk.
    pub closed spec fn spec_caps(&self) -> Seq<usize> {
        self.chunks@.map_values(|c: Chunk| c.capacity)
    }

    pub closed spec fn spec_total(&self) -> nat {
        self.total_bytes_stored as nat
    }

    /// Interned strings and their references, in the order first seen.
    pub closed spec fn spec_interned(&self) -> Seq<(Seq<char>, StringRef)> {
        self.map@.map_values(|e: (String, StringRef)| (e.0@, e.1))
    }

    /// Chunks never hold more than they reserved, there are no more chunks
    /// than a reference can number, and every interned string is stored
    /// where its reference says.
    pub closed spec fn wf(&self) -> bool {
        &&& self.chunks@.len() <= 65536
        &&& forall|i: int|
            0 <= i < self.chunks@.len() ==> (#[trigger] self.chunks@[i]).data@.len() <= self.chunks@[i].capacity
                && self.chunks@[i].capacity <= CHUNK_SIZE
        &&& forall|k: int|
            0 <= k < self.spec_interned().len() ==> {
                let e = #[trigger] self.spec_interned()[k];
                &&& e.0.len() > 0
                &&& e.1.len == clipped(encode_utf8(e.0)).len()
                &&& resolve(self.spec_chunks(), e.1) == clipped(encode_utf8(e.0))
            }
        &&& forall|a: int, b: int|
            0 <= a < self.spec_interned().len() && 0 <= b < self.spec_interned().len() && a != b
                ==> (#[trigger] self.spec_interned()[a]).0 != (#[trigger] self.spec_interned()[b]).0
    }

    pub fn new() -> (a: Self)
        ensures
            a.wf(),
            a.spec_chunks() == Seq::<Seq<u8>>::empty(),
            a.spec_interned() == Seq::<(Seq<char>, StringRef)>::empty(),
            a.spec_total() == 0,
    {
        let a = StringArena { chunks: Vec::new(), map: Vec::new(), total_bytes_stored: 0 };
        proof {
            assert(a.spec_chunks() =~= Seq::<Seq<u8>>::empty());
            assert(a.spec_interned() =~= Seq::<(Seq<char>, StringRef)>::empty());
        }
        a
    }

    /// An arena with its first chunk already reserved.
    pub fn with_capacity(expected_bytes: usize) -> (a: Self)
        ensures
            a.wf(),
            a.spec_chunks() == seq![Seq::<u8>::empty()],
            a.spec_caps() == seq![CHUNK_SIZE],
            a.spec_interned() == Seq::<(Seq<char>, StringRef)>::empty(),
            a.spec_total() == 0,
    {
        let chunk_count = expected_bytes / CHUNK_SIZE + if expected_bytes % CHUNK_SIZE == 0 { 0 } else { 1 };
        let mut chunks: Vec<Chunk> = Vec::with_capacity(if chunk_count > 1 { chunk_count } else { 1 });
        chunks.push(Chunk { data: Vec::with_capacity(CHUNK_SIZE), capacity: CHUNK_SIZE });
        let a = StringArena { chunks, map: Vec::new(), total_bytes_stored: 0 };
        proof {
            assert(a.spec_chunks() =~= seq![Seq::<u8>::empty()]);
            assert(a.spec_caps() =~= seq![CHUNK_SIZE]);
            assert(a.spec_interned() =~= Seq::<(Seq<char>, StringRef)>::empty());
        }
        a
    }

    pub fn total_bytes_stored(&self) -> (n: usize)
        ensures
            n == self.spec_total(),
    {
        self.total_bytes_stored
    }

    /// Bytes reserved over all chunks.
    pub fn allocated_bytes(&self) -> (n: usize)
        requires
            seq_sum(self.spec_caps()) <= usize::MAX,
        ensures
            n == seq_sum(self.spec_caps()),
    {
        let mut sum: usize = 0;
        let mut i: usize = 0;
        while i < self.chunks.len()
            invariant
                i <= self.chunks@.len(),
                sum == seq_sum(self.spec_caps().take(i as int)),
                seq_sum(self.spec_caps()) <= usize::MAX,
            decreases self.chunks@.len() - i,
        {
            proof {
                lemma_seq_sum_take_step(self.spec_caps(), i as int);
                lemma_seq_sum_prefix_le(self.spec_caps(), i as int + 1);
            }
            sum = sum + self.chunks[i].capacity;
            i = i + 1;
        }
        proof {
            assert(self.spec_caps().take(i as int) =~= self.spec_caps());
        }
        sum
    }

    pub fn chunk_count(&self) -> (n: usize)
        ensures
            n == self.spec_chunks().len(),
    {
        self.chunks.len()
    }
}

/// Sum of a sequence of sizes.
pub open spec fn seq_sum(s: Seq<usize>) -> nat
    decreases s.len(),
{
    if s.len() == 0 {
        0
    } else {
        seq_sum(s.drop_last()) + s.last() as nat
    }
}

proof fn lemma_seq_sum_take_step(s: Seq<usize>, i: int)
    requires
        0 <= i < s.len(),
    ensures
        seq_sum(s.take(i + 1)) == seq_sum(s.take(i)) + s[i],
{
    assert(s.take(i + 1).drop_last() =~= s.take(i));
}

proof fn lemma_seq_sum_prefix_le(s: Seq<usize>, i: int)
    requires
        0 <= i <= s.len(),
    ensures
        seq_sum(s.take(i)) <= seq_sum(s),
    decreases s.len() - i,
{
    if i < s.len() {
        lemma_seq_sum_prefix_le(s, i + 1);
        lemma_seq_sum_take_step(s, i);
    } else {
        assert(s.take(i) =~= s);
    }
}


/// The last chunk has room for `n` more bytes.
pub open spec fn fits_last(chunks: Seq<Seq<u8>>, caps: Seq<usize>, n: int) -> bool {
    chunks.len() > 0 && chunks.last().len() + n <= caps.last()
}

/// `new` extends `old`: the same chunks, each possibly longer, plus maybe more.
pub open spec fn extends(old: Seq<Seq<u8>>, new: Seq<Seq<u8>>) -> bool {
    &&& old.len() <= new.len()
    &&& forall|i: int| 0 <= i < old.len() ==> #[trigger] new[i].len() >= old[i].len() && new[i].subrange(0, old[i].len() as int) == old[i]
}

proof fn lemma_resolve_extends(old: Seq<Seq<u8>>, new: Seq<Seq<u8>>, r: StringRef)
    requires
        extends(old, new),
        resolve(old, r).len() > 0,
    ensures
        resolve(new, r) == resolve(old, r),
{
    let i = r.chunk_idx as int;
    assert(new[i].len() >= old[i].len() && new[i].subrange(0, old[i].len() as int) == old[i]);
    assert(resolve(new, r) =~= resolve(old, r)) by {
        assert forall|k: int| 0 <= k < r.len as int implies #[trigger] resolve(new, r)[k] == resolve(old, r)[k] by {
            assert(new[i].subrange(0, old[i].len() as int)[r.offset as int + k] == new[i][r.offset as int + k]);
        }
    }
}

impl StringArena {
    /// Keeps interned references valid when chunks only grow.
    proof fn lemma_interned_stable(&self, old_self: &Self)
        requires
            old_self.wf(),
            self.spec_interned() == old_self.spec_interned(),
            extends(old_self.spec_chunks(), self.spec_chunks()),
        ensures
            forall|k: int|
                0 <= k < self.spec_interned().len() ==> {
                    let e = #[trigger] self.spec_interned()[k];
                    &&& e.0.len() > 0
                    &&& e.1.len == clipped(encode_utf8(e.0)).len()
                    &&& resolve(self.spec_chunks(), e.1) == clipped(encode_utf8(e.0))
                },
    {
        assert forall|k: int| 0 <= k < self.spec_interned().len() implies {
            let e = #[trigger] self.spec_interned()[k];
            &&& e.0.len() > 0
            &&& e.1.len == clipped(encode_utf8(e.0)).len()
            &&& resolve(self.spec_chunks(), e.1) == clipped(encode_utf8(e.0))
        } by {
            let e = self.spec_interned()[k];
            assert(old_self.spec_interned()[k] == e);
            if e.1.len > 0 {
                assert(resolve(old_self.spec_chunks(), e.1).len() > 0);
                lemma_resolve_extends(old_self.spec_chunks(), self.spec_chunks(), e.1);
            }
        }
    }

    /// Appends `bytes` to chunk `idx`.
    fn append_to_chunk(&mut self, idx: usize, bytes: &[u8])
        requires
            idx < old(self).chunks@.len(),
        ensures
            final(self).chunks@.len() == old(self).chunks@.len(),
            final(self).spec_chunks() == old(self).spec_chunks().update(idx as int, old(self).spec_chunks()[idx as int] + bytes@),
            final(self).spec_caps() == old(self).spec_caps(),
            final(self).map == old(self).map,
            final(self).total_bytes_stored == old(self).total_bytes_stored,
    {
        let mut chunk = Chunk { data: Vec::new(), capacity: 0 };
        std::mem::swap(&mut chunk, &mut self.chunks[idx]);
        let ghost start = chunk.data@;
        let ghost cap0 = chunk.capacity;
        let ghost before = self.chunks@;
        let ghost map0 = self.map;
        let ghost total0 = self.total_bytes_stored;
        let mut i: usize = 0;
        while i < bytes.len()
            invariant
                i <= bytes@.len(),
                chunk.data@ == start + bytes@.take(i as int),
                chunk.capacity == cap0,
                self.chunks@ == before,
                self.map == map0,
                self.total_bytes_stored == total0,
            decreases bytes@.len() - i,
        {
            chunk.data.push(bytes[i]);
            proof {
                assert(bytes@.take(i as int + 1) =~= bytes@.take(i as int).push(bytes@[i as int]));
            }
            i = i + 1;
        }
        proof {
            assert(bytes@.take(i as int) =~= bytes@);
        }
        let ghost mid = *self;
        self.chunks.set(idx, chunk);
        proof {
            assert(start == old(self).chunks@[idx as int].data@);
            assert(cap0 == old(self).chunks@[idx as int].capacity);
            assert(self.spec_chunks() =~= old(self).spec_chunks().update(idx as int, old(self).spec_chunks()[idx as int] + bytes@));
            assert(self.spec_caps() =~= old(self).spec_caps());
        }
    }

    /// Stores `text` (clipped to what a reference can describe) and returns
    /// where it lives. The empty string is not stored.
    pub fn push(&mut self, text: &str) -> (r: StringRef)
        requires
            old(self).wf(),
            old(self).spec_total() + clipped(text.spec_bytes()).len() <= usize::MAX,
            text@.len() > 0 && !fits_last(old(self).spec_chunks(), old(self).spec_caps(), clipped(text.spec_bytes()).len() as int)
                ==> old(self).spec_chunks().len() < 65536,
        ensures
            final(self).wf(),
            final(self).spec_interned() == old(self).spec_interned(),
            extends(old(self).spec_chunks(), final(self).spec_chunks()),
            ({
                let b = clipped(text.spec_bytes());
                let c = old(self).spec_chunks();
                let caps = old(self).spec_caps();
                if text@.len() == 0 {
                    &&& r == empty_ref()
                    &&& final(self).spec_chunks() == c
                    &&& final(self).spec_caps() == caps
                    &&& final(self).spec_total() == old(self).spec_total()
                } else {
                    &&& r.len == b.len()
                    &&& final(self).spec_total() == old(self).spec_total() + b.len()
                    &&& resolve(final(self).spec_chunks(), r) == b
                    &&& if fits_last(c, caps, b.len() as int) {
                        &&& final(self).spec_chunks() == c.update(c.len() - 1, c.last() + b)
                        &&& final(self).spec_caps() == caps
                        &&& r.chunk_idx == c.len() - 1
                        &&& r.offset == c.last().len()
                    } else {
                        &&& final(self).spec_chunks() == c.push(b)
                        &&& final(self).spec_caps() == caps.push(if b.len() > CHUNK_SIZE { b.len() as usize } else { CHUNK_SIZE })
                        &&& r.chunk_idx == c.len()
                        &&& r.offset == 0
                    }
                }
            }),
    {
        if text.is_empty() {
            proof {
                vstd::utf8::encode_utf8_decode_utf8(text@);
                let c = self.spec_chunks();
                assert forall|i: int| 0 <= i < c.len() implies #[trigger] c[i].len() >= c[i].len() && c[i].subrange(
                    0,
                    c[i].len() as int,
                ) == c[i] by {
                    assert(c[i].subrange(0, c[i].len() as int) =~= c[i]);
                }
            }
            return StringRef::empty();
        }
        let ghost full = text.spec_bytes();
        proof {
            vstd::utf8::encode_utf8_valid_utf8(text@);
            lemma_clipped(full);
        }
        let mut text = text;
        if text.len() > MAX_REF_LEN {
            let mut end: usize = MAX_REF_LEN;
            while end > 0 && !text.is_char_boundary(end)
                invariant
                    text.spec_bytes() == full,
                    end <= MAX_REF_LEN,
                    full.len() > MAX_REF_LEN,
                    boundary_at_or_below(full, end as int) == boundary_at_or_below(full, MAX_REF_LEN as int),
                decreases end,
            {
                end = end - 1;
            }
            proof {
                vstd::utf8::is_char_boundary_start_end_of_seq(full);
                assert(boundary_at_or_below(full, end as int) == end as int);
            }
            text = text.split_at(end).0;
            proof {
                assert(text.spec_bytes() == clipped(full));
            }
        }
        let bytes = text.as_bytes();
        let len = bytes.len();
        let ghost c = self.spec_chunks();
        let ghost caps = self.spec_caps();
        let ghost s0 = *self;
        let n = self.chunks.len();
        let can_fit = n > 0 && self.chunks[n - 1].data.len() <= self.chunks[n - 1].capacity && len <= self.chunks[n - 1].capacity - self.chunks[n - 1].data.len();
        proof {
            if n > 0 {
                assert(c.last() == self.chunks@[n - 1].data@);
                assert(caps.last() == self.chunks@[n - 1].capacity);
            }
            assert(can_fit == fits_last(c, caps, len as int));
        }
        let chunk_idx: usize;
        let offset: usize;
        if can_fit {
            chunk_idx = n - 1;
            offset = self.chunks[n - 1].data.len();
            self.append_to_chunk(chunk_idx, bytes);
        } else {
            let cap = if len > CHUNK_SIZE { len } else { CHUNK_SIZE };
            self.chunks.push(Chunk { data: Vec::with_capacity(cap), capacity: cap });
            proof {
                assert(self.spec_chunks() =~= c.push(Seq::<u8>::empty()));
                assert(self.spec_caps() =~= caps.push(cap));
            }
            chunk_idx = n;
            offset = 0;
            self.append_to_chunk(chunk_idx, bytes);
            proof {
                assert(Seq::<u8>::empty() + bytes@ =~= bytes@);
            }
        }
        self.total_bytes_stored = self.total_bytes_stored + len;
        proof {
            assert(self.chunks@.len() <= 65536);
            assert(chunk_idx < 65536);
            if can_fit {
                assert(s0.chunks@[n - 1].capacity <= CHUNK_SIZE);
            }
            assert(offset <= CHUNK_SIZE);
            assert(len <= MAX_REF_LEN);
        }
        let r = StringRef { chunk_idx: chunk_idx as u16, offset: offset as u32, len: len as u16 };
        proof {
            assert(r.chunk_idx as int == chunk_idx as int);
            assert(r.offset as int == offset as int);
            assert(r.len as int == len as int);
            let nc = self.spec_chunks();
            assert(resolve(nc, r) =~= bytes@) by {
                if can_fit {
                    assert(nc[chunk_idx as int] == c.last() + bytes@);
                } else {
                    assert(nc[chunk_idx as int] == Seq::<u8>::empty() + bytes@);
                }
            }
            assert(extends(c, nc)) by {
                assert forall|i: int| 0 <= i < c.len() implies #[trigger] nc[i].len() >= c[i].len() && nc[i].subrange(0, c[i].len() as int) == c[i] by {
                    if i == chunk_idx {
                        assert(nc[i].subrange(0, c[i].len() as int) =~= c[i]);
                    } else {
                        assert(nc[i].subrange(0, c[i].len() as int) =~= c[i]);
                    }
                }
            }
            assert(self.spec_interned() == s0.spec_interned());
            self.lemma_interned_stable(&s0);
            assert forall|i: int| 0 <= i < self.chunks@.len() implies (#[trigger] self.chunks@[i]).data@.len() <= self.chunks@[i].capacity
                && self.chunks@[i].capacity <= CHUNK_SIZE by {
                assert(self.spec_chunks()[i] == self.chunks@[i].data@);
                assert(self.spec_caps()[i] == self.chunks@[i].capacity);
                if i < c.len() {
                    assert(s0.chunks@[i].data@ == c[i]);
                    assert(s0.chunks@[i].capacity == caps[i]);
                }
            }
        }
        r
    }
}


impl StringArena {
    /// The string that `sref` designates; empty when it designates nothing
    /// or its bytes are not UTF-8.
    pub fn get(&self, sref: StringRef) -> (s: &str)
        ensures
            s.spec_bytes() == if valid_utf8(resolve(self.spec_chunks(), sref)) {
                resolve(self.spec_chunks(), sref)
            } else {
                Seq::<u8>::empty()
            },
    {
        proof {
            reveal_strlit("");
            vstd::utf8::encode_utf8_decode_utf8(""@);
            assert(encode_utf8(Seq::<char>::empty()) =~= Seq::<u8>::empty()) by {
                reveal_with_fuel(encode_utf8, 1);
            }
        }
        if sref.is_empty() {
            return "";
        }
        let ci = sref.chunk_idx as usize;
        if ci >= self.chunks.len() {
            return "";
        }
        let chunk = &self.chunks[ci].data;
        let start = sref.offset as usize;
        let len = sref.len as usize;
        if len > chunk.len() || start > chunk.len() - len {
            return "";
        }
        let end = start + len;
        proof {
            assert(self.spec_chunks()[ci as int] == chunk@);
        }
        let slice = &chunk.as_slice()[start..end];
        proof {
            assert(slice@ =~= resolve(self.spec_chunks(), sref));
        }
        match core::str::from_utf8(slice) {
            Ok(s) => s,
            Err(_) => "",
        }
    }

    /// Like `push`, but a string that was interned before gets its earlier
    /// reference back instead of being stored again.
    pub fn intern(&mut self, text: &str) -> (r: StringRef)
        requires
            old(self).wf(),
            old(self).spec_total() + clipped(text.spec_bytes()).len() <= usize::MAX,
            text@.len() > 0 && !fits_last(old(self).spec_chunks(), old(self).spec_caps(), clipped(text.spec_bytes()).len() as int)
                ==> old(self).spec_chunks().len() < 65536,
        ensures
            final(self).wf(),
            ({
                let t = text@;
                let known = old(self).spec_interned();
                if t.len() == 0 {
                    &&& r == empty_ref()
                    &&& *final(self) == *old(self)
                } else if exists|k: int| 0 <= k < known.len() && (#[trigger] known[k]).0 == t {
                    let k = choose|k: int| 0 <= k < known.len() && (#[trigger] known[k]).0 == t;
                    &&& r == known[k].1
                    &&& *final(self) == *old(self)
                } else {
                    let b = clipped(text.spec_bytes());
                    &&& r.len == b.len()
                    &&& resolve(final(self).spec_chunks(), r) == b
                    &&& final(self).spec_total() == old(self).spec_total() + b.len()
                    &&& final(self).spec_interned() == known.push((t, r))
                    &&& extends(old(self).spec_chunks(), final(self).spec_chunks())
                }
            }),
    {
        if text.is_empty() {
            return StringRef::empty();
        }
        let ghost known = self.spec_interned();
        let mut k: usize = 0;
        while k < self.map.len()
            invariant
                self.wf(),
                *self == *old(self),
                known == self.spec_interned(),
                k <= self.map@.len(),
                forall|j: int| 0 <= j < k ==> (#[trigger] known[j]).0 != text@,
            decreases self.map@.len() - k,
        {
            if str_equal(self.map[k].0.as_str(), text) {
                let r = self.map[k].1;
                proof {
                    assert(known[k as int].0 == text@);
                    let c = choose|c: int| 0 <= c < known.len() && (#[trigger] known[c]).0 == text@;
                    if c != k as int {
                        assert(known[c].0 != known[k as int].0);
                    }
                }
                return r;
            }
            k = k + 1;
        }
        let ghost s0 = *self;
        let r = self.push(text);
        let owned = text.to_owned();
        self.map.push((owned, r));
        proof {
            assert(self.spec_interned() =~= known.push((text@, r)));
            let nc = self.spec_chunks();
            assert(extends(s0.spec_chunks(), nc)) by {
                let c = s0.spec_chunks();
                assert forall|i: int| 0 <= i < c.len() implies #[trigger] nc[i].len() >= c[i].len() && nc[i].subrange(0, c[i].len() as int) == c[i] by {
                    assert(nc[i].subrange(0, c[i].len() as int) =~= c[i]);
                }
            }
            let newk = known.len() as int;
            assert forall|a: int, b: int|
                0 <= a < self.spec_interned().len() && 0 <= b < self.spec_interned().len() && a != b
                    implies (#[trigger] self.spec_interned()[a]).0 != (#[trigger] self.spec_interned()[b]).0 by {
                if a == newk {
                    assert(known[b].0 != text@);
                } else if b == newk {
                    assert(known[a].0 != text@);
                }
            }
            assert forall|j: int| 0 <= j < self.spec_interned().len() implies {
                let e = #[trigger] self.spec_interned()[j];
                &&& e.0.len() > 0
                &&& e.1.len == clipped(encode_utf8(e.0)).len()
                &&& resolve(self.spec_chunks(), e.1) == clipped(encode_utf8(e.0))
            } by {
                if j < newk {
                    assert(self.spec_interned()[j] == known[j]);
                }
            }
        }
        r
    }

    /// Forgets every string; chunks keep their reserved space.
    pub fn clear(&mut self)
        requires
            old(self).wf(),
        ensures
            final(self).wf(),
            final(self).spec_chunks() == Seq::new(old(self).spec_chunks().len(), |i: int| Seq::<u8>::empty()),
            final(self).spec_caps() == old(self).spec_caps(),
            final(self).spec_interned() == Seq::<(Seq<char>, StringRef)>::empty(),
            final(self).spec_total() == 0,
    {
        let mut i: usize = 0;
        while i < self.chunks.len()
            invariant
                i <= self.chunks@.len(),
                self.chunks@.len() == old(self).chunks@.len(),
                forall|j: int| 0 <= j < i ==> (#[trigger] self.chunks@[j]).data@.len() == 0,
                forall|j: int| 0 <= j < self.chunks@.len() ==> (#[trigger] self.chunks@[j]).capacity == old(self).chunks@[j].capacity,
                forall|j: int| i <= j < self.chunks@.len() ==> (#[trigger] self.chunks@[j]) == old(self).chunks@[j],
            decreases self.chunks@.len() - i,
        {
            let mut chunk = Chunk { data: Vec::new(), capacity: 0 };
            std::mem::swap(&mut chunk, &mut self.chunks[i]);
            chunk.data.clear();
            self.chunks.set(i, chunk);
            i = i + 1;
        }
        self.map.clear();
        self.total_bytes_stored = 0;
        proof {
            assert forall|j: int| 0 <= j < self.chunks@.len() implies #[trigger] self.spec_chunks()[j] == Seq::<u8>::empty() by {
                assert(self.spec_chunks()[j] =~= Seq::<u8>::empty());
            }
            assert(self.spec_chunks() =~= Seq::new(old(self).spec_chunks().len(), |i: int| Seq::<u8>::empty()));
            assert(self.spec_caps() =~= old(self).spec_caps());
            assert(self.spec_interned() =~= Seq::<(Seq<char>, StringRef)>::empty());
        }
    }
}

impl Default for StringArena {
    fn default() -> (a: Self)
        ensures
            a.wf(),
            a.spec_chunks() == Seq::<Seq<u8>>::empty(),
            a.spec_interned() == Seq::<(Seq<char>, StringRef)>::empty(),
            a.spec_total() == 0,
    {
        Self::new()
    }
}

/// What a lookup gives back of a push: the stored (possibly clipped) string,
/// as long as the arena is not changed in between.
pub proof fn law_push_then_get(chunks: Seq<Seq<u8>>, r: StringRef, text: &str)
    requires
        resolve(chunks, r) == clipped(text.spec_bytes()),
    ensures
        valid_utf8(resolve(chunks, r)),
        text.spec_bytes().len() <= MAX_REF_LEN ==> resolve(chunks, r) == text.spec_bytes(),
{
    vstd::utf8::encode_utf8_valid_utf8(text@);
    lemma_clipped(text.spec_bytes());
}

/// Storing more strings never disturbs what earlier references designate.
pub proof fn law_push_keeps_earlier(old: Seq<Seq<u8>>, new: Seq<Seq<u8>>, r: StringRef)
    requires
        extends(old, new),
        resolve(old, r).len() > 0,
    ensures
        resolve(new, r) == resolve(old, r),
{
    lemma_resolve_extends(old, new, r);
}

/// What a push promises over any history of the arena: the new reference
/// reads back the stored text (the whole text when it fits a reference),
/// and every reference handed out before still reads back what it did.
pub proof fn law_push_history(
    before: Seq<Seq<u8>>,
    after: Seq<Seq<u8>>,
    earlier: Seq<StringRef>,
    r: StringRef,
    text: &str,
)
    requires
        extends(before, after),
        resolve(after, r) == clipped(text.spec_bytes()),
    ensures
        valid_utf8(resolve(after, r)),
        text.spec_bytes().len() <= MAX_REF_LEN ==> resolve(after, r) == text.spec_bytes(),
        forall|i: int| 0 <= i < earlier.len() && resolve(before, #[trigger] earlier[i]).len() > 0 ==> resolve(
            after,
            earlier[i],
        ) == resolve(before, earlier[i]),
{
    law_push_then_get(after, r, text);
    assert forall|i: int| 0 <= i < earlier.len() && resolve(before, #[trigger] earlier[i]).len() > 0 implies resolve(
        after,
        earlier[i],
    ) == resolve(before, earlier[i]) by {
        lemma_resolve_extends(before, after, earlier[i]);
    }
}

} // verus!
