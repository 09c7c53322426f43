use vstd::prelude::*;
use vstd::slice::SliceAdditionalExecFns;

verus! {

/// The interface sounds the launcher plays.
#[derive(Debug, Clone, Copy, PartialEq, Eq, Structural, Hash)]
pub enum SoundEffect {
    Navigate,
    Confirm,
    TabSwitch,
    OpenModal,
    CloseModal,
    LaunchGame,
}

/// Commands for the background-music player.
#[derive(Debug)]
pub enum MusicCmd {
    Play(String),
    Stop,
}

/// A decoded PCM WAV file: interleaved 16-bit samples.
#[derive(Clone)]
pub struct WavSound {
    pub sample_rate: u32,
    pub channels: u16,
    pub samples: Vec<i16>,
}

/// Little-endian 16-bit unsigned value of two bytes.
pub open spec fn le_u16(lo: u8, hi: u8) -> u16 {
    (lo as u16) | ((hi as u16) << 8u16)
}

/// Little-endian 32-bit unsigned value of four bytes.
pub open spec fn le_u32(b0: u8, b1: u8, b2: u8, b3: u8) -> u32 {
    (b0 as u32) | ((b1 as u32) << 8u32) | ((b2 as u32) << 16u32) | ((b3 as u32) << 24u32)
}

/// Little-endian signed 16-bit sample of two bytes.
pub open spec fn le_i16(lo: u8, hi: u8) -> i16 {
    le_u16(lo, hi) as i16
}

/// The samples of a PCM data chunk: one per whole pair of bytes.
pub open spec fn pcm_samples(b: Seq<u8>) -> Seq<i16> {
    Seq::new((b.len() / 2) as nat, |i: int| le_i16(b[2 * i], b[2 * i + 1]))
}

pub open spec fn tag4(b: Seq<u8>, pos: int, t: Seq<u8>) -> bool {
    b.subrange(pos, pos + 4) == t
}

/// Walks the RIFF chunks from `pos`: a `fmt ` chunk of at least 16 bytes sets
/// channels and rate; the first complete `data` chunk ends the walk, and
/// yields a sound only if a format was seen before it.
pub open spec fn wav_walk(b: Seq<u8>, pos: int, fmt_found: bool, channels: u16, rate: u32) -> Option<(u32, u16, Seq<i16>)>
    decreases b.len() - pos,
{
    if pos < 0 || pos + 8 > b.len() {
        None
    } else {
        let size = le_u32(b[pos + 4], b[pos + 5], b[pos + 6], b[pos + 7]) as int;
        let p = pos + 8;
        if tag4(b, pos, seq![0x66u8, 0x6Du8, 0x74u8, 0x20u8]) && size >= 16 && p + size <= b.len() {
            wav_walk(b, p + size, true, le_u16(b[p + 2], b[p + 3]), le_u32(b[p + 4], b[p + 5], b[p + 6], b[p + 7]))
        } else if tag4(b, pos, seq![0x64u8, 0x61u8, 0x74u8, 0x61u8]) && p + size <= b.len() {
            if !fmt_found {
                None
            } else {
                Some((rate, channels, pcm_samples(b.subrange(p, p + size))))
            }
        } else if p + size > b.len() {
            None
        } else {
            wav_walk(b, p + size, fmt_found, channels, rate)
        }
    }
}

/// What a WAV file holds: sample rate, channels and samples.
pub open spec fn wav_spec(b: Seq<u8>) -> Option<(u32, u16, Seq<i16>)> {
    if b.len() < 44 || !tag4(b, 0, seq![0x52u8, 0x49u8, 0x46u8, 0x46u8]) || !tag4(b, 8, seq![0x57u8, 0x41u8, 0x56u8, 0x45u8]) {
        None
    } else {
        wav_walk(b, 12, false, 2, 44100)
    }
}

/// The little-endian 32-bit number at `q`, by place value.
pub open spec fn u32_at(b: Seq<u8>, q: int) -> int {
    b[q] + 256 * b[q + 1] + 65536 * b[q + 2] + 16777216 * b[q + 3]
}

/// The little-endian 16-bit number at `q`, by place value.
pub open spec fn u16_at(b: Seq<u8>, q: int) -> int {
    b[q] + 256 * b[q + 1]
}

/// A whole `fmt ` chunk header and body of at least 16 bytes starts at `p`.
pub open spec fn fmt_chunk_at(b: Seq<u8>, p: int) -> bool {
    &&& 0 <= p
    &&& p + 24 <= b.len()
    &&& b[p] == 0x66 && b[p + 1] == 0x6D && b[p + 2] == 0x74 && b[p + 3] == 0x20
}

pub proof fn lemma_le_values(a: u8, b: u8, c: u8, d: u8)
    ensures
        le_u32(a, b, c, d) as int == a + 256 * b + 65536 * c + 16777216 * d,
        le_u16(a, b) as int == a + 256 * b,
{
    let (a32, b32, c32, d32) = (a as u32, b as u32, c as u32, d as u32);
    assert((a32 | (b32 << 8u32) | (c32 << 16u32) | (d32 << 24u32)) == a32 + b32 * 256 + c32 * 65536 + d32 * 16777216)
        by (bit_vector)
        requires a32 < 256, b32 < 256, c32 < 256, d32 < 256;
    let (a16, b16) = (a as u16, b as u16);
    assert((a16 | (b16 << 8u16)) == a16 + b16 * 256) by (bit_vector)
        requires a16 < 256, b16 < 256;
}

proof fn lemma_wav_walk_format(b: Seq<u8>, pos: int, fmt_found: bool, channels: u16, rate: u32)
    ensures
        wav_walk(b, pos, fmt_found, channels, rate) matches Some(w) ==> (fmt_found && w.0 == rate && w.1 == channels)
            || exists|p: int| #![trigger fmt_chunk_at(b, p)] pos <= p && fmt_chunk_at(b, p) && w.0 == u32_at(b, p + 12) && w.1
                == u16_at(b, p + 10),
    decreases b.len() - pos,
{
    if !(pos < 0 || pos + 8 > b.len()) {
        let size = le_u32(b[pos + 4], b[pos + 5], b[pos + 6], b[pos + 7]) as int;
        let p = pos + 8;
        if tag4(b, pos, seq![0x66u8, 0x6Du8, 0x74u8, 0x20u8]) && size >= 16 && p + size <= b.len() {
            let ch = le_u16(b[p + 2], b[p + 3]);
            let rt = le_u32(b[p + 4], b[p + 5], b[p + 6], b[p + 7]);
            lemma_wav_walk_format(b, p + size, true, ch, rt);
            lemma_le_values(b[p + 4], b[p + 5], b[p + 6], b[p + 7]);
            lemma_le_values(b[p + 2], b[p + 3], 0, 0);
            assert(b.subrange(pos, pos + 4)[0] == b[pos] && b.subrange(pos, pos + 4)[1] == b[pos + 1]
                && b.subrange(pos, pos + 4)[2] == b[pos + 2] && b.subrange(pos, pos + 4)[3] == b[pos + 3]);
            assert(fmt_chunk_at(b, pos));
        } else if tag4(b, pos, seq![0x64u8, 0x61u8, 0x74u8, 0x61u8]) && p + size <= b.len() {
        } else if p + size > b.len() {
        } else {
            lemma_wav_walk_format(b, p + size, fmt_found, channels, rate);
        }
    }
}

/// A canonical WAV file: `RIFF`, `WAVE`, a 16-byte `fmt ` chunk at 12 and a
/// whole `data` chunk at 36.
pub open spec fn canonical_wav(b: Seq<u8>) -> bool {
    &&& b.len() >= 44
    &&& b[0] == 0x52 && b[1] == 0x49 && b[2] == 0x46 && b[3] == 0x46
    &&& b[8] == 0x57 && b[9] == 0x41 && b[10] == 0x56 && b[11] == 0x45
    &&& b[12] == 0x66 && b[13] == 0x6D && b[14] == 0x74 && b[15] == 0x20
    &&& u32_at(b, 16) == 16
    &&& b[36] == 0x64 && b[37] == 0x61 && b[38] == 0x74 && b[39] == 0x61
    &&& 44 + u32_at(b, 40) <= b.len()
}

/// A canonical WAV file parses to the sample rate in bytes 24 to 27, the
/// channel count in bytes 22 and 23, and one sample per pair of bytes of its
/// data chunk, in order, each with the little-endian 16 bits of its pair.
pub proof fn law_wav_canonical(b: Seq<u8>)
    requires
        canonical_wav(b),
    ensures
        wav_spec(b) matches Some(w) && {
            &&& w.0 as int == u32_at(b, 24)
            &&& w.1 as int == u16_at(b, 22)
            &&& w.2.len() == u32_at(b, 40) / 2
            &&& forall|i: int| 0 <= i < w.2.len() ==> (#[trigger] w.2[i]) as u16 as int == u16_at(b, 44 + 2 * i)
        },
{
    lemma_le_values(b[16], b[17], b[18], b[19]);
    lemma_le_values(b[40], b[41], b[42], b[43]);
    lemma_le_values(b[24], b[25], b[26], b[27]);
    lemma_le_values(b[22], b[23], 0, 0);
    assert(tag4(b, 0, seq![0x52u8, 0x49u8, 0x46u8, 0x46u8])) by {
        assert(b.subrange(0, 4) =~= seq![0x52u8, 0x49u8, 0x46u8, 0x46u8]);
    }
    assert(tag4(b, 8, seq![0x57u8, 0x41u8, 0x56u8, 0x45u8])) by {
        assert(b.subrange(8, 12) =~= seq![0x57u8, 0x41u8, 0x56u8, 0x45u8]);
    }
    assert(tag4(b, 12, seq![0x66u8, 0x6Du8, 0x74u8, 0x20u8])) by {
        assert(b.subrange(12, 16) =~= seq![0x66u8, 0x6Du8, 0x74u8, 0x20u8]);
    }
    assert(!tag4(b, 36, seq![0x66u8, 0x6Du8, 0x74u8, 0x20u8])) by {
        assert(b.subrange(36, 40)[0] == b[36]);
    }
    assert(tag4(b, 36, seq![0x64u8, 0x61u8, 0x74u8, 0x61u8])) by {
        assert(b.subrange(36, 40) =~= seq![0x64u8, 0x61u8, 0x74u8, 0x61u8]);
    }
    let size = u32_at(b, 40);
    let data = b.subrange(44, 44 + size);
    let ch = le_u16(b[22], b[23]);
    let rt = le_u32(b[24], b[25], b[26], b[27]);
    assert(le_u32(b[16], b[17], b[18], b[19]) as int == 16);
    assert(wav_walk(b, 12, false, 2, 44100) == wav_walk(b, 36, true, ch, rt));
    assert(le_u32(b[40], b[41], b[42], b[43]) as int == size);
    assert(wav_walk(b, 36, true, ch, rt) == Some((rt, ch, pcm_samples(data))));
    let w = wav_spec(b)->0;
    assert(w.2 == pcm_samples(data));
    assert forall|i: int| 0 <= i < w.2.len() implies (#[trigger] w.2[i]) as u16 as int == u16_at(b, 44 + 2 * i) by {
        let lo = data[2 * i];
        let hi = data[2 * i + 1];
        assert(lo == b[44 + 2 * i] && hi == b[45 + 2 * i]);
        lemma_le_values(lo, hi, 0, 0);
        let v = le_u16(lo, hi);
        assert(((v as i16) as u16) == v) by (bit_vector);
    }
}

/// A WAV file's sample rate and channel count are read from its `fmt `
/// chunk: the sample rate is the little-endian 32-bit number at offset 4 of
/// the chunk's body and the channel count the 16-bit number at offset 2
/// (in a canonical file, bytes 24 to 27 and 22 to 23).
pub proof fn law_wav_format(b: Seq<u8>)
    ensures
        wav_spec(b) matches Some(w) ==> exists|p: int| #![trigger fmt_chunk_at(b, p)] 12 <= p && fmt_chunk_at(b, p) && w.0
            == u32_at(b, p + 12) && w.1 == u16_at(b, p + 10),
{
    if wav_spec(b) is Some {
        lemma_wav_walk_format(b, 12, false, 2, 44100);
    }
}

/// A file shorter than a WAV header, or one that does not start with `RIFF`
/// and name `WAVE` at byte 8, holds no sound; nor does one whose first chunk
/// is a whole `data` chunk, since no format came before it.
pub proof fn law_wav_rejects(b: Seq<u8>)
    ensures
        b.len() < 44 ==> wav_spec(b) is None,
        b.len() >= 4 && !(b[0] == 0x52 && b[1] == 0x49 && b[2] == 0x46 && b[3] == 0x46) ==> wav_spec(b) is None,
        b.len() >= 12 && !(b[8] == 0x57 && b[9] == 0x41 && b[10] == 0x56 && b[11] == 0x45) ==> wav_spec(b) is None,
        b.len() >= 44 && b[12] == 0x64 && b[13] == 0x61 && b[14] == 0x74 && b[15] == 0x61 && 20 + u32_at(b, 16)
            <= b.len() ==> wav_spec(b) is None,
{
    if b.len() >= 4 && tag4(b, 0, seq![0x52u8, 0x49u8, 0x46u8, 0x46u8]) {
        assert(b.subrange(0, 4)[0] == b[0] && b.subrange(0, 4)[1] == b[1] && b.subrange(0, 4)[2] == b[2]
            && b.subrange(0, 4)[3] == b[3]);
    }
    if b.len() >= 12 && tag4(b, 8, seq![0x57u8, 0x41u8, 0x56u8, 0x45u8]) {
        assert(b.subrange(8, 12)[0] == b[8] && b.subrange(8, 12)[1] == b[9] && b.subrange(8, 12)[2] == b[10]
            && b.subrange(8, 12)[3] == b[11]);
    }
    if b.len() >= 44 && b[12] == 0x64 && b[13] == 0x61 && b[14] == 0x74 && b[15] == 0x61 && 20 + u32_at(b, 16)
        <= b.len() {
        lemma_le_values(b[16], b[17], b[18], b[19]);
        assert(b.subrange(12, 16) =~= seq![0x64u8, 0x61u8, 0x74u8, 0x61u8]);
        assert(!tag4(b, 12, seq![0x66u8, 0x6Du8, 0x74u8, 0x20u8])) by {
            assert(b.subrange(12, 16)[0] == b[12]);
        }
    }
}

pub(crate) fn read_u16_le(b: &[u8], p: usize) -> (v: u16)
    requires
        p + 2 <= b@.len(),
    ensures
        v == le_u16(b@[p as int], b@[p as int + 1]),
{
    (b[p] as u16) | ((b[p + 1] as u16) << 8u16)
}

pub(crate) fn read_u32_le(b: &[u8], p: usize) -> (v: u32)
    requires
        p + 4 <= b@.len(),
    ensures
        v == le_u32(b@[p as int], b@[p as int + 1], b@[p as int + 2], b@[p as int + 3]),
{
    (b[p] as u32) | ((b[p + 1] as u32) << 8u32) | ((b[p + 2] as u32) << 16u32) | ((b[p + 3] as u32) << 24u32)
}

fn has_tag(b: &[u8], p: usize, t0: u8, t1: u8, t2: u8, t3: u8) -> (r: bool)
    requires
        p + 4 <= b@.len(),
    ensures
        r == tag4(b@, p as int, seq![t0, t1, t2, t3]),
{
    let r = b[p] == t0 && b[p + 1] == t1 && b[p + 2] == t2 && b[p + 3] == t3;
    proof {
        if r {
            assert(b@.subrange(p as int, p + 4) =~= seq![t0, t1, t2, t3]);
        } else {
            if b@.subrange(p as int, p + 4) == seq![t0, t1, t2, t3] {
                assert(b@.subrange(p as int, p + 4)[0] == t0);
                assert(b@.subrange(p as int, p + 4)[1] == t1);
                assert(b@.subrange(p as int, p + 4)[2] == t2);
                assert(b@.subrange(p as int, p + 4)[3] == t3);
            }
        }
    }
    r
}

impl WavSound {
    /// Parses a RIFF/WAVE file with 16-bit PCM data.
    pub fn parse(bytes: &[u8]) -> (r: Option<WavSound>)
        ensures
            match wav_spec(bytes@) {
                Some(w) => r matches Some(s) && s.sample_rate == w.0 && s.channels == w.1 && s.samples@ == w.2,
                None => r is None,
            },
    {
        if bytes.len() < 44 || !has_tag(bytes, 0, 0x52, 0x49, 0x46, 0x46) || !has_tag(bytes, 8, 0x57, 0x41, 0x56, 0x45) {
            return None;
        }
        let mut pos: usize = 12;
        let mut fmt_found = false;
        let mut channels: u16 = 2;
        let mut sample_rate: u32 = 44100;
        while pos <= bytes.len() && bytes.len() - pos >= 8
            invariant
                wav_spec(bytes@) == wav_walk(bytes@, pos as int, fmt_found, channels, sample_rate),
                pos <= bytes@.len(),
            decreases bytes@.len() - pos,
        {
            let is_fmt = has_tag(bytes, pos, 0x66, 0x6D, 0x74, 0x20);
            let is_data = has_tag(bytes, pos, 0x64, 0x61, 0x74, 0x61);
            let chunk_size = read_u32_le(bytes, pos + 4) as usize;
            let p = pos + 8;
            let fits = chunk_size <= bytes.len() - p;
            if is_fmt && chunk_size >= 16 && fits {
                channels = read_u16_le(bytes, p + 2);
                sample_rate = read_u32_le(bytes, p + 4);
                fmt_found = true;
            } else if is_data && fits {
                if !fmt_found {
                    return None;
                }
                let mut samples: Vec<i16> = Vec::with_capacity(chunk_size / 2);
                let mut i: usize = 0;
                while i < chunk_size / 2
                    invariant
                        p + chunk_size <= bytes@.len(),
                        bytes@.len() == bytes.len(),
                        i <= chunk_size / 2,
                        samples@ == pcm_samples(bytes@.subrange(p as int, p + chunk_size)).take(i as int),
                    decreases chunk_size / 2 - i,
                {
                    assert(2 * i + 1 < chunk_size);
                    let lo = bytes[p + 2 * i];
                    let hi = bytes[p + 2 * i + 1];
                    let u = (lo as u16) | ((hi as u16) << 8u16);
                    let v = #[verifier::truncate] (u as i16);
                    samples.push(v);
                    proof {
                        let pcm = pcm_samples(bytes@.subrange(p as int, p + chunk_size));
                        assert(pcm[i as int] == v);
                        assert(pcm.take(i as int + 1) =~= pcm.take(i as int).push(v));
                    }
                    i = i + 1;
                }
                proof {
                    let pcm = pcm_samples(bytes@.subrange(p as int, p + chunk_size));
                    assert(pcm.take(i as int) =~= pcm);
                }
                return Some(WavSound { sample_rate, channels, samples });
            }
            if !fits {
                proof {
                    assert(wav_walk(bytes@, (p + chunk_size) as int, fmt_found, channels, sample_rate) is None);
                }
                return None;
            }
            pos = p + chunk_size;
        }
        None
    }
}

/// Sum of samples.
pub open spec fn sample_sum(s: Seq<i16>) -> int
    decreases s.len(),
{
    if s.len() == 0 {
        0
    } else {
        sample_sum(s.drop_last()) + s.last() as int
    }
}

/// Integer division rounding toward zero, as Rust's `/` does.
pub open spec fn trunc_div(a: int, d: int) -> int {
    if a >= 0 {
        a / d
    } else {
        -((-a) / d)
    }
}

/// One mono sample per frame of `c` interleaved samples (the last frame
/// may be short): the frame's sum divided by `c`, rounding toward zero.
pub open spec fn mono_frames(s: Seq<i16>, c: int) -> Seq<i16>
    decreases s.len(),
{
    if s.len() == 0 || c <= 0 {
        Seq::empty()
    } else if s.len() <= c {
        seq![trunc_div(sample_sum(s), c) as i16]
    } else {
        seq![trunc_div(sample_sum(s.take(c)), c) as i16] + mono_frames(s.skip(c), c)
    }
}

proof fn lemma_sample_sum_bounds(s: Seq<i16>)
    ensures
        -32768 * s.len() <= sample_sum(s) <= 32767 * s.len(),
    decreases s.len(),
{
    if s.len() > 0 {
        lemma_sample_sum_bounds(s.drop_last());
    }
}

proof fn lemma_frame_average_fits(sum: int, m: int, c: int)
    requires
        0 < m <= c,
        -32768 * m <= sum <= 32767 * m,
    ensures
        -32768 <= trunc_div(sum, c) <= 32767,
{
    assert(-32768 * c <= sum <= 32767 * c) by (nonlinear_arith)
        requires
            0 < m <= c,
            -32768 * m <= sum <= 32767 * m,
    ;
    if sum >= 0 {
        assert(sum / c <= 32767) by (nonlinear_arith)
            requires
                0 <= sum <= 32767 * c,
                c > 0,
        ;
        assert(sum / c >= 0) by (nonlinear_arith)
            requires
                0 <= sum,
                c > 0,
        ;
    } else {
        assert((-sum) / c <= 32768) by (nonlinear_arith)
            requires
                0 <= -sum <= 32768 * c,
                c > 0,
        ;
        assert((-sum) / c >= 0) by (nonlinear_arith)
            requires
                0 <= -sum,
                c > 0,
        ;
    }
}

impl WavSound {
    /// The sound folded to one channel: each frame of `channels` samples
    /// (at least one) becomes their sum divided by the channel count.
    pub fn downmix_mono(&self) -> (r: Vec<i16>)
        ensures
            r@ == mono_frames(self.samples@, if self.channels == 0 { 1 } else { self.channels as int }),
    {
        let c: usize = if self.channels == 0 {
            1
        } else {
            self.channels as usize
        };
        let ghost cc = c as int;
        let ghost s = self.samples@;
        let n = self.samples.len();
        let mut out: Vec<i16> = Vec::new();
        let mut start: usize = 0;
        proof {
            assert(s.skip(0) =~= s);
        }
        while start < n
            invariant
                s == self.samples@,
                n == s.len(),
                1 <= c <= 65535,
                cc == c,
                start <= n,
                out@ + mono_frames(s.skip(start as int), cc) == mono_frames(s, cc),
            decreases n - start,
        {
            let end: usize = if n - start <= c {
                n
            } else {
                start + c
            };
            let mut sum: i32 = 0;
            let mut j: usize = start;
            while j < end
                invariant
                    s == self.samples@,
                    n == s.len(),
                    start <= j <= end <= n,
                    end - start <= c <= 65535,
                    sum == sample_sum(s.subrange(start as int, j as int)),
                    -32768 * (j - start) <= sum <= 32767 * (j - start),
                decreases end - j,
            {
                proof {
                    assert(s.subrange(start as int, j + 1).drop_last() =~= s.subrange(start as int, j as int));
                }
                sum = sum + self.samples[j] as i32;
                j = j + 1;
            }
            let ghost frame = s.subrange(start as int, end as int);
            proof {
                lemma_frame_average_fits(sum as int, (end - start) as int, cc);
                let rest = s.skip(start as int);
                if n - start <= c {
                    assert(rest =~= frame);
                } else {
                    assert(rest.take(cc) =~= frame);
                    assert(rest.skip(cc) =~= s.skip(end as int));
                }
            }
            let cu: u32 = c as u32;
            let avg: i32 = if sum >= 0 {
                let q: u32 = (sum as u32) / cu;
                q as i32
            } else {
                let a: u32 = (-(sum as i64)) as u32;
                let q: u32 = a / cu;
                -(q as i32)
            };
            let v = avg as i16;
            proof {
                let rest = s.skip(start as int);
                assert(avg == trunc_div(sample_sum(frame), cc));
                if n - start <= c {
                    assert(s.skip(end as int) =~= Seq::<i16>::empty());
                    assert(mono_frames(rest, cc) == seq![v]);
                } else {
                    assert(mono_frames(rest, cc) == seq![v] + mono_frames(s.skip(end as int), cc));
                }
                assert(out@.push(v) + mono_frames(s.skip(end as int), cc) =~= out@ + mono_frames(rest, cc));
            }
            out.push(v);
            start = end;
        }
        proof {
            assert(mono_frames(s.skip(start as int), cc) =~= Seq::<i16>::empty());
            assert(out@ + Seq::<i16>::empty() =~= out@);
        }
        out
    }
}


/// Position `j` steps after `start` in a ring of `cap` slots.
pub open spec fn ring_slot(start: int, j: int, cap: int) -> int {
    if start + j < cap {
        start + j
    } else {
        start + j - cap
    }
}

/// A fixed-capacity FIFO of PCM samples, stored in a ring.
pub struct PcmRingBuffer {
    buffer: Vec<i16>,
    capacity: usize,
    read_pos: usize,
    write_pos: usize,
    count: usize,
    contents: Ghost<Seq<i16>>,
}

impl PcmRingBuffer {
    /// The buffered samples, oldest first.
    pub closed spec fn spec_contents(&self) -> Seq<i16> {
        self.contents@
    }

    pub closed spec fn spec_capacity(&self) -> nat {
        self.capacity as nat
    }

    pub closed spec fn wf(&self) -> bool {
        &&& self.buffer@.len() == self.capacity
        &&& self.count <= self.capacity
        &&& self.count == self.contents@.len()
        &&& (self.capacity == 0 ==> self.read_pos == 0 && self.write_pos == 0)
        &&& (self.capacity > 0 ==> self.read_pos < self.capacity && self.write_pos < self.capacity)
        &&& self.write_pos == ring_slot(self.read_pos as int, self.count as int, self.capacity as int)
            || (self.count == self.capacity && self.write_pos == self.read_pos)
        &&& forall|j: int| 0 <= j < self.count ==> #[trigger] self.contents@[j] == self.buffer@[ring_slot(self.read_pos as int, j, self.capacity as int)]
    }

    pub fn new(capacity: usize) -> (r: Self)
        ensures
            r.wf(),
            r.spec_capacity() == capacity,
            r.spec_contents() == Seq::<i16>::empty(),
    {
        PcmRingBuffer {
            buffer: vec![0i16; capacity],
            capacity,
            read_pos: 0,
            write_pos: 0,
            count: 0,
            contents: Ghost(Seq::empty()),
        }
    }

    /// Drops every buffered sample.
    pub fn clear(&mut self)
        requires
            old(self).wf(),
        ensures
            final(self).wf(),
            final(self).spec_capacity() == old(self).spec_capacity(),
            final(self).spec_contents() == Seq::<i16>::empty(),
    {
        self.read_pos = 0;
        self.write_pos = 0;
        self.count = 0;
        self.contents = Ghost(Seq::empty());
    }

    pub fn available_write(&self) -> (n: usize)
        requires
            self.wf(),
        ensures
            n == self.spec_capacity() - self.spec_contents().len(),
    {
        self.capacity - self.count
    }

    pub fn available_read(&self) -> (n: usize)
        requires
            self.wf(),
        ensures
            n == self.spec_contents().len(),
    {
        self.count
    }

    /// Appends as many of `samples` as there is room for; returns how many.
    pub fn write_samples(&mut self, samples: &[i16]) -> (n: usize)
        requires
            old(self).wf(),
        ensures
            final(self).wf(),
            final(self).spec_capacity() == old(self).spec_capacity(),
            n == if samples@.len() < old(self).spec_capacity() - old(self).spec_contents().len() {
                samples@.len() as int
            } else {
                old(self).spec_capacity() - old(self).spec_contents().len()
            },
            final(self).spec_contents() == old(self).spec_contents() + samples@.take(n as int),
    {
        let room = self.capacity - self.count;
        let to_write = if samples.len() < room { samples.len() } else { room };
        if to_write == 0 {
            proof {
                assert(samples@.take(0) =~= Seq::<i16>::empty());
                assert(self.contents@ + samples@.take(0) =~= self.contents@);
            }
            return 0;
        }
        let ghost c0 = self.contents@;
        let ghost b0 = self.buffer@;
        proof {
            if self.count < self.capacity {
                assert(self.write_pos == ring_slot(self.read_pos as int, self.count as int, self.capacity as int));
            }
        }
        let mut i: usize = 0;
        while i < to_write
            invariant
                self.capacity == old(self).capacity,
                self.buffer@.len() == self.capacity,
                0 < to_write <= self.capacity - self.count,
                to_write <= samples@.len(),
                i <= to_write,
                self.read_pos < self.capacity,
                self.write_pos < self.capacity,
                self.count < self.capacity,
                self.write_pos == ring_slot(self.read_pos as int, self.count as int, self.capacity as int),
                c0 == self.contents@,
                self.count == c0.len(),
                forall|j: int| 0 <= j < self.count ==> #[trigger] c0[j] == self.buffer@[ring_slot(self.read_pos as int, j, self.capacity as int)],
                forall|j: int| 0 <= j < i ==> self.buffer@[#[trigger] ring_slot(self.read_pos as int, self.count + j, self.capacity as int)] == samples@[j],
            decreases to_write - i,
        {
            let slot = if i < self.capacity - self.write_pos { self.write_pos + i } else { i - (self.capacity - self.write_pos) };
            proof {
                assert(slot == ring_slot(self.read_pos as int, self.count + i, self.capacity as int));
                assert forall|j: int| 0 <= j < self.count implies #[trigger] ring_slot(self.read_pos as int, j, self.capacity as int) != slot by {}
                assert forall|j: int| 0 <= j < i implies #[trigger] ring_slot(self.read_pos as int, self.count + j, self.capacity as int) != slot by {}
            }
            self.buffer.set(slot, samples[i]);
            i = i + 1;
        }
        let ghost n0 = self.count;
        let new_write = if to_write < self.capacity - self.write_pos { self.write_pos + to_write } else { to_write - (self.capacity - self.write_pos) };
        self.write_pos = new_write;
        self.count = self.count + to_write;
        self.contents = Ghost(c0 + samples@.take(to_write as int));
        proof {
            assert forall|j: int| 0 <= j < self.count implies #[trigger] self.contents@[j] == self.buffer@[ring_slot(self.read_pos as int, j, self.capacity as int)] by {
                if j >= c0.len() {
                    let k = j - c0.len();
                    assert(self.contents@[j] == samples@[k]);
                    assert(self.buffer@[ring_slot(self.read_pos as int, n0 + k, self.capacity as int)] == samples@[k]);
                }
            }
        }
        to_write
    }

    /// Moves as many of the oldest samples as fit into `out`; returns how
    /// many. The rest of `out` is left as it was.
    pub fn read_samples(&mut self, out: &mut [i16]) -> (n: usize)
        requires
            old(self).wf(),
        ensures
            final(self).wf(),
            final(self).spec_capacity() == old(self).spec_capacity(),
            n == if old(out)@.len() < old(self).spec_contents().len() {
                old(out)@.len() as int
            } else {
                old(self).spec_contents().len() as int
            },
            final(self).spec_contents() == old(self).spec_contents().skip(n as int),
            final(out)@ == old(self).spec_contents().take(n as int) + old(out)@.skip(n as int),
    {
        let to_read = if out.len() < self.count { out.len() } else { self.count };
        if to_read == 0 {
            proof {
                assert(self.contents@.skip(0) =~= self.contents@);
                assert(self.contents@.take(0) + out@.skip(0) =~= out@);
            }
            return 0;
        }
        let ghost c0 = self.contents@;
        let ghost o0 = out@;
        let mut i: usize = 0;
        while i < to_read
            invariant
                self.capacity == old(self).capacity,
                self.buffer@.len() == self.capacity,
                0 < to_read <= self.count,
                to_read <= o0.len(),
                out@.len() == o0.len(),
                i <= to_read,
                self.read_pos < self.capacity,
                self.count <= self.capacity,
                c0 == self.contents@,
                self.count == c0.len(),
                forall|j: int| 0 <= j < self.count ==> #[trigger] c0[j] == self.buffer@[ring_slot(self.read_pos as int, j, self.capacity as int)],
                forall|j: int| 0 <= j < i ==> out@[j] == c0[j],
                forall|j: int| i <= j < out@.len() ==> out@[j] == o0[j],
            decreases to_read - i,
        {
            let slot = if i < self.capacity - self.read_pos { self.read_pos + i } else { i - (self.capacity - self.read_pos) };
            proof {
                assert(c0[i as int] == self.buffer@[ring_slot(self.read_pos as int, i as int, self.capacity as int)]);
            }
            out.set(i, self.buffer[slot]);
            i = i + 1;
        }
        let ghost r0 = self.read_pos;
        let new_read = if to_read < self.capacity - self.read_pos { self.read_pos + to_read } else { to_read - (self.capacity - self.read_pos) };
        self.read_pos = new_read;
        self.count = self.count - to_read;
        self.contents = Ghost(c0.skip(to_read as int));
        proof {
            assert forall|j: int| 0 <= j < self.count implies #[trigger] self.contents@[j] == self.buffer@[ring_slot(self.read_pos as int, j, self.capacity as int)] by {
                assert(self.contents@[j] == c0[j + to_read]);
                assert(ring_slot(self.read_pos as int, j, self.capacity as int) == ring_slot(r0 as int, j + to_read, self.capacity as int));
            }
            assert(out@ =~= c0.take(to_read as int) + o0.skip(to_read as int));
        }
        to_read
    }
}

/// Samples come out of the ring in the order they went in: after writing
/// into a ring that held `c`, a read of at least everything yields `c`
/// followed by the samples that were accepted.
pub proof fn law_ring_fifo(c: Seq<i16>, w: Seq<i16>, cap: int, out_len: int)
    requires
        c.len() <= cap,
        out_len >= cap,
    ensures
        ({
            let n = if w.len() < cap - c.len() { w.len() as int } else { cap - c.len() };
            let after_write = c + w.take(n);
            let m = if out_len < after_write.len() { out_len } else { after_write.len() as int };
            &&& m == after_write.len()
            &&& after_write.take(m) == c + w.take(n)
            &&& after_write.skip(m) == Seq::<i16>::empty()
        }),
{
    let n = if w.len() < cap - c.len() { w.len() as int } else { cap - c.len() };
    let after_write = c + w.take(n);
    assert(after_write.take(after_write.len() as int) =~= after_write);
    assert(after_write.skip(after_write.len() as int) =~= Seq::<i16>::empty());
}

/// First in, first out over any run of calls: while the ring holds what
/// was written (`written`) past what was read (`read`, a prefix of it), a
/// write of the accepted samples `w` keeps that so, with `w` added to what
/// was written.
pub proof fn law_ring_history_write(contents: Seq<i16>, written: Seq<i16>, read: Seq<i16>, w: Seq<i16>)
    requires
        read.len() <= written.len(),
        read == written.take(read.len() as int),
        contents == written.skip(read.len() as int),
    ensures
        read == (written + w).take(read.len() as int),
        contents + w == (written + w).skip(read.len() as int),
{
    assert((written + w).take(read.len() as int) =~= written.take(read.len() as int));
    assert(contents + w =~= (written + w).skip(read.len() as int));
}

/// First in, first out over any run of calls: while the ring holds what
/// was written past what was read, a read of `k` samples hands out the
/// next `k` written samples, and the ring keeps the rest.
pub proof fn law_ring_history_read(contents: Seq<i16>, written: Seq<i16>, read: Seq<i16>, k: int)
    requires
        read.len() <= written.len(),
        read == written.take(read.len() as int),
        contents == written.skip(read.len() as int),
        0 <= k <= contents.len(),
    ensures
        contents.take(k) == written.subrange(read.len() as int, read.len() + k),
        read + contents.take(k) == written.take(read.len() + k),
        contents.skip(k) == written.skip(read.len() + k),
{
    assert(contents.take(k) =~= written.subrange(read.len() as int, read.len() + k));
    assert(read + contents.take(k) =~= written.take(read.len() + k));
    assert(contents.skip(k) =~= written.skip(read.len() + k));
}

/// The background music the player was last asked for.
pub struct MusicChoice {
    pub path: Option<String>,
}

impl MusicChoice {
    /// Nothing asked for yet.
    pub fn new() -> (m: Self)
        ensures
            m.path is None,
    {
        MusicChoice { path: None }
    }

    /// Asks for `path` (or for silence): no command when it is what was
    /// asked for last; otherwise it is remembered and the player is told to
    /// play it, or to stop.
    pub fn set_music(&mut self, path: Option<&str>) -> (cmd: Option<MusicCmd>)
        ensures
            (match old(self).path { Some(q) => Some(q@), None => None }) == (match path { Some(p) => Some(p@), None => None })
                ==> cmd is None && final(self).path == old(self).path,
            (match old(self).path { Some(q) => Some(q@), None => None }) != (match path { Some(p) => Some(p@), None => None })
                ==> {
                &&& (match final(self).path { Some(q) => Some(q@), None => None }) == (match path { Some(p) => Some(p@), None => None })
                &&& match path {
                    Some(p) => cmd matches Some(MusicCmd::Play(q)) && q@ == p@,
                    None => cmd matches Some(MusicCmd::Stop),
                }
            },
    {
        let same = match (&self.path, path) {
            (Some(q), Some(p)) => crate::text::str_equal(q.as_str(), p),
            (None, None) => true,
            _ => false,
        };
        if same {
            return None;
        }
        match path {
            Some(p) => {
                self.path = Some(p.to_owned());
                Some(MusicCmd::Play(p.to_owned()))
            },
            None => {
                self.path = None;
                Some(MusicCmd::Stop)
            },
        }
    }
}

/// What the audio output loop does next with its hardware port.
#[derive(Clone, Copy, Debug, PartialEq, Eq, Structural)]
pub enum PortNext {
    /// Nothing plays: wait a moment.
    Idle,
    /// Open a port at the sample rate.
    Open,
    /// Send the next block of samples to the open port.
    Play,
}

/// The audio output loop's view of its port: whether one is open, and the
/// sample rate it plays at.
#[derive(Clone, Copy, Debug, PartialEq, Eq, Structural)]
pub struct PortState {
    pub open: bool,
    pub rate: u32,
}

/// One round of the output loop, before any hardware call: an open port is
/// released when the music stopped or, while playing, when the decoder asks
/// for another (non-zero) sample rate; a non-zero requested rate becomes the
/// rate; then the loop idles when nothing plays, opens a port when none is
/// open, and otherwise plays.
pub open spec fn port_plan_spec(s: PortState, playing: bool, requested_rate: u32) -> (bool, PortState, PortNext) {
    let release = s.open && (!playing || (requested_rate > 0 && requested_rate != s.rate));
    let rate = if requested_rate > 0 { requested_rate } else { s.rate };
    let open = s.open && !release;
    let next = if !playing { PortNext::Idle } else if !open { PortNext::Open } else { PortNext::Play };
    (release, PortState { open, rate }, next)
}

/// Plans one round of the output loop: whether to release the port, the new
/// port state, and what to do next.
pub fn port_plan(s: PortState, playing: bool, requested_rate: u32) -> (r: (bool, PortState, PortNext))
    ensures
        r == port_plan_spec(s, playing, requested_rate),
{
    let release = s.open && (!playing || (requested_rate > 0 && requested_rate != s.rate));
    let rate = if requested_rate > 0 { requested_rate } else { s.rate };
    let open = s.open && !release;
    let next = if !playing {
        PortNext::Idle
    } else if !open {
        PortNext::Open
    } else {
        PortNext::Play
    };
    (release, PortState { open, rate }, next)
}

/// The kinds of hardware port music can play through.
#[derive(Clone, Copy, Debug, PartialEq, Eq, Structural)]
pub enum PortKind {
    Bgm,
    Main,
}

/// What follows an attempt to open a port.
#[derive(Clone, Copy, Debug, PartialEq, Eq, Structural)]
pub enum OpenNext {
    /// The port is open: set its volume and play.
    Ready,
    /// Try this kind of port instead.
    Try(PortKind),
    /// No port could be opened: wait and try again next round.
    GiveUp,
}

/// After trying to open a port of kind `tried`: ready when it opened; when
/// the background-music port failed, the main port is tried; when that
/// failed too, the loop gives up for this round.
pub fn open_next(tried: PortKind, opened: bool) -> (r: OpenNext)
    ensures
        opened ==> r == OpenNext::Ready,
        !opened && tried == PortKind::Bgm ==> r == OpenNext::Try(PortKind::Main),
        !opened && tried == PortKind::Main ==> r == OpenNext::GiveUp,
{
    if opened {
        OpenNext::Ready
    } else {
        match tried {
            PortKind::Bgm => OpenNext::Try(PortKind::Main),
            PortKind::Main => OpenNext::GiveUp,
        }
    }
}

} // verus!
