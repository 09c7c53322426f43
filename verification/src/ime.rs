use vstd::prelude::*;

verus! {

/// How the system text input dialog ended.
#[derive(Debug, Clone)]
pub enum ImeResult {
    Confirmed(String),
    Canceled,
}

/// The state of the system text input dialog.
pub struct ImeDialog {
    pub active: bool,
    /// The UTF-16 text buffer the dialog edits.
    pub buffer: Vec<u16>,
    /// The UTF-16 title shown by the dialog.
    pub title: Vec<u16>,
}

impl ImeDialog {
    /// A closed dialog with empty buffers.
    pub fn new() -> (d: Self)
        ensures
            !d.active,
            d.buffer@.len() == 0,
            d.title@.len() == 0,
    {
        ImeDialog { active: false, buffer: Vec::new(), title: Vec::new() }
    }

    /// Whether the dialog is open.
    pub fn is_active(&self) -> (b: bool)
        ensures
            b == self.active,
    {
        self.active
    }
}

impl Default for ImeDialog {
    fn default() -> (d: Self)
        ensures
            !d.active,
            d.buffer@.len() == 0,
            d.title@.len() == 0,
    {
        ImeDialog::new()
    }
}


/// The UTF-16 code units of a character.
pub open spec fn utf16_units(c: char) -> Seq<u16> {
    let v = c as u32;
    if v < 0x10000 {
        seq![v as u16]
    } else {
        let w = (v - 0x10000) as u32;
        seq![(0xD800 + w / 0x400) as u16, (0xDC00 + w % 0x400) as u16]
    }
}

/// The UTF-16 encoding of a text.
pub open spec fn utf16_of(s: Seq<char>) -> Seq<u16>
    decreases s.len(),
{
    if s.len() == 0 {
        Seq::empty()
    } else {
        utf16_of(s.drop_last()) + utf16_units(s.last())
    }
}

/// The UTF-16 encoding of a text (as `str::encode_utf16`).
pub fn encode_utf16(s: &str) -> (u: Vec<u16>)
    ensures
        u@ == utf16_of(s@),
{
    let cs = crate::text::chars_of(s);
    let mut out: Vec<u16> = Vec::new();
    let mut i: usize = 0;
    while i < cs.len()
        invariant
            cs@ == s@,
            i <= cs@.len(),
            out@ == utf16_of(cs@.take(i as int)),
        decreases cs@.len() - i,
    {
        proof {
            assert(cs@.take(i as int + 1).drop_last() =~= cs@.take(i as int));
        }
        let c = cs[i];
        let v = c as u32;
        if v < 0x10000 {
            out.push(#[verifier::truncate] (v as u16));
        } else {
            let w = v - 0x10000;
            let hi: u32 = 0xD800 + w / 0x400;
            let lo: u32 = 0xDC00 + w % 0x400;
            out.push(#[verifier::truncate] (hi as u16));
            out.push(#[verifier::truncate] (lo as u16));
        }
        proof {
            assert(out@ =~= utf16_of(cs@.take(i as int)) + utf16_units(cs@[i as int]));
        }
        i = i + 1;
    }
    proof {
        assert(cs@.take(i as int) =~= cs@);
    }
    out
}

/// `char::from_u32`: the character with that code point, when it is one
/// (below the surrogates, or from the end of the surrogates up to U+10FFFF),
/// else nothing.
pub assume_specification[ core::char::from_u32 ](i: u32) -> (r: Option<char>)
    ensures
        (i < 0xD800 || (0xE000 <= i && i <= 0x10FFFF)) ==> r == Some(i as char),
        !(i < 0xD800 || (0xE000 <= i && i <= 0x10FFFF)) ==> r is None,
;

/// Whether a code unit is a surrogate.
pub open spec fn is_surrogate(u: u16) -> bool {
    0xD800 <= u && u <= 0xDFFF
}

/// The text of some UTF-16 code units, decoded lossily: units outside the
/// surrogates stand for themselves, a high surrogate followed by a low one
/// stands for the character they encode together, and any other surrogate
/// becomes U+FFFD.
pub open spec fn utf16_lossy(u: Seq<u16>) -> Seq<char>
    decreases u.len(),
{
    if u.len() == 0 {
        Seq::empty()
    } else if !is_surrogate(u[0]) {
        seq![u[0] as char] + utf16_lossy(u.skip(1))
    } else if u[0] <= 0xDBFF && u.len() > 1 && 0xDC00 <= u[1] && u[1] <= 0xDFFF {
        seq![(0x10000 + (u[0] - 0xD800) * 0x400 + (u[1] - 0xDC00)) as char] + utf16_lossy(u.skip(2))
    } else {
        seq!['\u{FFFD}'] + utf16_lossy(u.skip(1))
    }
}

/// Decodes UTF-16 code units, replacing each unpaired surrogate by U+FFFD
/// (what `String::from_utf16_lossy` does).
pub fn decode_utf16_lossy(u: &[u16]) -> (s: String)
    ensures
        s@ == utf16_lossy(u@),
{
    let mut out = String::new();
    let mut i: usize = 0;
    proof {
        assert(u@.skip(0) =~= u@);
        assert(out@ + utf16_lossy(u@.skip(0)) =~= utf16_lossy(u@));
    }
    while i < u.len()
        invariant
            i <= u@.len(),
            out@ + utf16_lossy(u@.skip(i as int)) == utf16_lossy(u@),
        decreases u@.len() - i,
    {
        let ghost rest = u@.skip(i as int);
        let ghost o0 = out@;
        let a = u[i];
        proof {
            assert(rest[0] == a);
        }
        if a < 0xD800 || a > 0xDFFF {
            let c = match core::char::from_u32(a as u32) {
                Some(c) => c,
                None => {
                    proof {
                        assert(false);
                    }
                    '\u{FFFD}'
                },
            };
            out.push(c);
            proof {
                assert(rest.skip(1) =~= u@.skip(i as int + 1));
                assert(c == a as char);
                assert(out@ + utf16_lossy(u@.skip(i as int + 1)) =~= o0 + (seq![c] + utf16_lossy(rest.skip(1))));
            }
            i = i + 1;
        } else if a <= 0xDBFF && i + 1 < u.len() && 0xDC00 <= u[i + 1] && u[i + 1] <= 0xDFFF {
            let b = u[i + 1];
            proof {
                assert(rest[1] == b);
            }
            let cp: u32 = 0x10000 + ((a as u32) - 0xD800) * 0x400 + ((b as u32) - 0xDC00);
            let c = match core::char::from_u32(cp) {
                Some(c) => c,
                None => {
                    proof {
                        assert(false);
                    }
                    '\u{FFFD}'
                },
            };
            out.push(c);
            proof {
                assert(rest.skip(2) =~= u@.skip(i as int + 2));
                assert(out@ + utf16_lossy(u@.skip(i as int + 2)) =~= o0 + (seq![c] + utf16_lossy(rest.skip(2))));
            }
            i = i + 2;
        } else {
            out.push('\u{FFFD}');
            proof {
                assert(rest.skip(1) =~= u@.skip(i as int + 1));
                assert(out@ + utf16_lossy(u@.skip(i as int + 1)) =~= o0 + (seq!['\u{FFFD}'] + utf16_lossy(rest.skip(1))));
            }
            i = i + 1;
        }
    }
    proof {
        assert(u@.skip(i as int) =~= Seq::<u16>::empty());
        assert(out@ + Seq::<char>::empty() =~= out@);
    }
    out
}

/// Index of the first zero unit, or the length.
pub open spec fn text_end(u: Seq<u16>) -> int
    decreases u.len(),
{
    if u.len() == 0 {
        0
    } else if text_end(u.drop_last()) < u.len() - 1 {
        text_end(u.drop_last())
    } else if u.last() == 0 {
        u.len() - 1
    } else {
        u.len() as int
    }
}

/// The dialog's text buffer for `initial` with room for `max_len` units:
/// the text's units (as many as fit), then zeros, one more zero at the end.
pub open spec fn ime_buffer(initial: Seq<char>, max_len: int) -> Seq<u16> {
    Seq::new(
        (max_len + 1) as nat,
        |i: int| if i < max_len && i < utf16_of(initial).len() { utf16_of(initial)[i] } else { 0u16 },
    )
}

impl ImeDialog {
    /// Gets the dialog ready to open with `title` and `initial_text` and
    /// room for `max_len` units; nothing (false) while it is already open.
    pub fn prepare(&mut self, title: &str, initial_text: &str, max_len: usize) -> (ready: bool)
        requires
            max_len < usize::MAX,
        ensures
            ready == !old(self).active,
            old(self).active ==> *final(self) == *old(self),
            !old(self).active ==> {
                &&& !final(self).active
                &&& final(self).title@ == utf16_of(title@).push(0)
                &&& final(self).buffer@ == ime_buffer(initial_text@, max_len as int)
            },
    {
        if self.active {
            return false;
        }
        let mut t = encode_utf16(title);
        t.push(0);
        let units = encode_utf16(initial_text);
        let mut buf: Vec<u16> = Vec::new();
        let mut i: usize = 0;
        while i <= max_len
            invariant
                i <= max_len + 1,
                max_len < usize::MAX,
                units@ == utf16_of(initial_text@),
                buf@ == ime_buffer(initial_text@, max_len as int).take(i as int),
            decreases max_len + 1 - i,
        {
            let unit = if i < max_len && i < units.len() { units[i] } else { 0 };
            buf.push(unit);
            proof {
                assert(buf@ =~= ime_buffer(initial_text@, max_len as int).take(i as int + 1));
            }
            i = i + 1;
        }
        proof {
            assert(buf@ =~= ime_buffer(initial_text@, max_len as int));
        }
        self.title = t;
        self.buffer = buf;
        true
    }

    /// The system dialog opened.
    pub fn opened(&mut self)
        ensures
            final(self).active,
            final(self).buffer == old(self).buffer,
            final(self).title == old(self).title,
    {
        self.active = true;
    }

    /// The system dialog closed: with the entered text (up to its first
    /// zero unit) when confirmed, else cancelled.
    pub fn finish(&mut self, confirmed: bool) -> (r: ImeResult)
        ensures
            !final(self).active,
            final(self).buffer == old(self).buffer,
            final(self).title == old(self).title,
            confirmed ==> (r matches ImeResult::Confirmed(t) && t@ == utf16_lossy(
                old(self).buffer@.take(text_end(old(self).buffer@)),
            )),
            !confirmed ==> r is Canceled,
    {
        self.active = false;
        if !confirmed {
            return ImeResult::Canceled;
        }
        let mut end: usize = 0;
        let ghost b = self.buffer@;
        while end < self.buffer.len() && self.buffer[end] != 0
            invariant
                b == self.buffer@,
                end <= b.len(),
                forall|k: int| 0 <= k < end ==> b[k] != 0,
            decreases b.len() - end,
        {
            end = end + 1;
        }
        proof {
            lemma_text_end(b, end as int);
        }
        let head = &self.buffer.as_slice()[0..end];
        proof {
            assert(head@ =~= b.take(end as int));
        }
        let text = decode_utf16_lossy(head);
        ImeResult::Confirmed(text)
    }
}

proof fn lemma_text_end(u: Seq<u16>, e: int)
    requires
        0 <= e <= u.len(),
        forall|k: int| 0 <= k < e ==> u[k] != 0,
        e == u.len() || u[e] == 0,
    ensures
        text_end(u) == e,
    decreases u.len(),
{
    if u.len() > 0 {
        if e < u.len() {
            lemma_text_end(u.drop_last(), e);
        } else {
            lemma_text_end(u.drop_last(), e - 1);
        }
    }
}

} // verus!
