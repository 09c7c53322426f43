use vstd::prelude::*;

use crate::audio::MusicCmd;

verus! {

/// What an MPEG audio layer III frame header says about its frame.
#[derive(Clone, Copy, Debug, PartialEq, Eq, Structural)]
pub struct FrameInfo {
    /// Whole frame length in bytes, header included.
    pub len: usize,
    pub sample_rate: u32,
    pub channels: u32,
    /// 3 for MPEG-1, 2 for MPEG-2, 0 for MPEG-2.5.
    pub version: u32,
}

/// Layer III bit rate in kbit/s for a bit-rate index (MPEG-1 or MPEG-2/2.5).
pub open spec fn bitrate_kbps(is_v1: bool, idx: u8) -> u32 {
    if is_v1 {
        if idx == 1 { 32 } else if idx == 2 { 40 } else if idx == 3 { 48 } else if idx == 4 { 56 }
        else if idx == 5 { 64 } else if idx == 6 { 80 } else if idx == 7 { 96 } else if idx == 8 { 112 }
        else if idx == 9 { 128 } else if idx == 10 { 160 } else if idx == 11 { 192 } else if idx == 12 { 224 }
        else if idx == 13 { 256 } else if idx == 14 { 320 } else { 0 }
    } else {
        if idx == 1 { 8 } else if idx == 2 { 16 } else if idx == 3 { 24 } else if idx == 4 { 32 }
        else if idx == 5 { 40 } else if idx == 6 { 48 } else if idx == 7 { 56 } else if idx == 8 { 64 }
        else if idx == 9 { 80 } else if idx == 10 { 96 } else if idx == 11 { 112 } else if idx == 12 { 128 }
        else if idx == 13 { 144 } else if idx == 14 { 160 } else { 0 }
    }
}

/// Sampling rate in Hz for the version bits and a sampling-rate index below 3.
pub open spec fn sample_rate_hz(version_bits: u8, idx: u8) -> u32 {
    if version_bits == 3 {
        if idx == 0 { 44100 } else if idx == 1 { 48000 } else { 32000 }
    } else if version_bits == 2 {
        if idx == 0 { 22050 } else if idx == 1 { 24000 } else { 16000 }
    } else {
        if idx == 0 { 11025 } else if idx == 1 { 12000 } else { 8000 }
    }
}

/// The frame described by the four header bytes at the start of `b`, if they
/// form a valid layer III header: sync bits set, not the reserved version,
/// layer III, a usable bit rate and sampling rate, and a length of at least 4.
pub open spec fn frame_spec(b: Seq<u8>) -> Option<FrameInfo> {
    if b.len() < 4 || b[0] != 0xFF || (b[1] & 0xE0) != 0xE0 {
        None
    } else {
        let version_bits = (b[1] >> 3u8) & 3u8;
        let layer_bits = (b[1] >> 1u8) & 3u8;
        let bitrate_index = (b[2] >> 4u8) & 0x0Fu8;
        let sample_rate_index = (b[2] >> 2u8) & 3u8;
        let padding = (b[2] >> 1u8) & 1u8;
        if layer_bits != 1 || version_bits == 1 || bitrate_index == 0 || bitrate_index == 15
            || sample_rate_index == 3 {
            None
        } else {
            let is_v1 = version_bits == 3;
            let kbps = bitrate_kbps(is_v1, bitrate_index);
            let rate = sample_rate_hz(version_bits, sample_rate_index);
            let coeff: int = if is_v1 { 144 } else { 72 };
            let len = coeff * kbps * 1000 / (rate as int) + padding;
            if len < 4 {
                None
            } else {
                Some(FrameInfo {
                    len: len as usize,
                    sample_rate: rate,
                    channels: if (b[3] >> 6u8) & 3u8 == 3 { 1 } else { 2 },
                    version: if version_bits == 3 { 3 } else if version_bits == 2 { 2 } else { 0 },
                })
            }
        }
    }
}

/// What a layer III frame header says, read off its four bytes: it starts
/// with `FF` and the top three bits of the next byte set, names layer III
/// and a version that is not reserved, a bit rate that is neither free nor
/// bad, and a sampling rate that is not reserved; and every four bytes that
/// meet these conditions do parse. The frame is mono exactly
/// when the channel mode (the top two bits of the fourth byte) is 3, and
/// stereo, joint stereo and dual channel all count as two channels. The
/// version is MPEG-1, MPEG-2 or MPEG-2.5 by the version bits; the sampling
/// rate comes from the standard table for that version; and the length is
/// 144 (MPEG-1) or 72 bytes per kbit/s of the standard bit rate, over the
/// rate in kHz, plus the padding byte.
pub proof fn law_frame_header(b: Seq<u8>)
    ensures
        frame_spec(b) is Some ==> {
            &&& b.len() >= 4
            &&& b[0] == 0xFF
            &&& b[1] >= 0xE0
            &&& (b[1] / 2) % 4 == 1
            &&& (b[1] / 8) % 4 != 1
            &&& b[2] / 16 != 0 && b[2] / 16 != 15
            &&& (b[2] / 4) % 4 != 3
        },
        (b.len() >= 4 && b[0] == 0xFF && b[1] >= 0xE0 && (b[1] / 2) % 4 == 1 && (b[1] / 8) % 4 != 1
            && b[2] / 16 != 0 && b[2] / 16 != 15 && (b[2] / 4) % 4 != 3) ==> frame_spec(b) is Some,
        frame_spec(b) matches Some(f) ==> {
            let v = (b[1] / 8) % 4;
            let sr = (b[2] / 4) % 4;
            let bi = b[2] / 16;
            let pad = (b[2] / 2) % 2;
            let kbps: int = if v == 3 {
                seq![0int, 32, 40, 48, 56, 64, 80, 96, 112, 128, 160, 192, 224, 256, 320][bi as int]
            } else {
                seq![0int, 8, 16, 24, 32, 40, 48, 56, 64, 80, 96, 112, 128, 144, 160][bi as int]
            };
            let rate: int = if v == 3 {
                seq![44100int, 48000, 32000][sr as int]
            } else if v == 2 {
                seq![22050int, 24000, 16000][sr as int]
            } else {
                seq![11025int, 12000, 8000][sr as int]
            };
            &&& (f.channels == 1 <==> b[3] >= 192)
            &&& (f.channels == 2 <==> b[3] < 192)
            &&& f.version == (if v == 3 { 3u32 } else if v == 2 { 2u32 } else { 0u32 })
            &&& f.sample_rate == rate
            &&& f.len == (if v == 3 { 144int } else { 72int }) * kbps * 1000 / rate + pad
        },
{
    if b.len() >= 4 {
        let (b1, b2, b3) = (b[1], b[2], b[3]);
        assert((b1 & 0xE0u8) == 0xE0u8 <==> b1 >= 0xE0u8) by (bit_vector);
        assert((b1 >> 1u8) & 3u8 == (b1 / 2) % 4) by (bit_vector);
        assert((b1 >> 3u8) & 3u8 == (b1 / 8) % 4) by (bit_vector);
        assert((b2 >> 4u8) & 0x0Fu8 == b2 / 16) by (bit_vector);
        assert((b2 >> 2u8) & 3u8 == (b2 / 4) % 4) by (bit_vector);
        assert((b2 >> 1u8) & 1u8 == (b2 / 2) % 2) by (bit_vector);
        assert(((b3 >> 6u8) & 3u8 == 3u8) == (b3 >= 192u8)) by (bit_vector);
        let vb = (b1 >> 3u8) & 3u8;
        let bi = (b2 >> 4u8) & 0x0Fu8;
        let si = (b2 >> 2u8) & 3u8;
        if 1 <= bi <= 14 && si != 3 {
            let kbps = bitrate_kbps(vb == 3, bi) as int;
            let rate = sample_rate_hz(vb, si) as int;
            let coeff: int = if vb == 3 { 144 } else { 72 };
            assert(8 <= kbps && 8000 <= rate <= 48000);
            assert(coeff * kbps * 1000 >= 4 * rate) by (nonlinear_arith)
                requires 72 <= coeff, 8 <= kbps, rate <= 48000;
            assert(coeff * kbps * 1000 / rate >= 4) by (nonlinear_arith)
                requires coeff * kbps * 1000 >= 4 * rate, rate > 0;
        }
    }
}

fn bitrate_table(is_v1: bool, idx: u8) -> (k: u32)
    ensures
        k == bitrate_kbps(is_v1, idx),
{
    if is_v1 {
        match idx {
            1 => 32, 2 => 40, 3 => 48, 4 => 56, 5 => 64, 6 => 80, 7 => 96, 8 => 112,
            9 => 128, 10 => 160, 11 => 192, 12 => 224, 13 => 256, 14 => 320, _ => 0,
        }
    } else {
        match idx {
            1 => 8, 2 => 16, 3 => 24, 4 => 32, 5 => 40, 6 => 48, 7 => 56, 8 => 64,
            9 => 80, 10 => 96, 11 => 112, 12 => 128, 13 => 144, 14 => 160, _ => 0,
        }
    }
}

fn sample_rate_table(version_bits: u8, idx: u8) -> (r: u32)
    ensures
        r == sample_rate_hz(version_bits, idx),
{
    if version_bits == 3 {
        if idx == 0 { 44100 } else if idx == 1 { 48000 } else { 32000 }
    } else if version_bits == 2 {
        if idx == 0 { 22050 } else if idx == 1 { 24000 } else { 16000 }
    } else {
        if idx == 0 { 11025 } else if idx == 1 { 12000 } else { 8000 }
    }
}

/// Parses the layer III frame header at the start of `bytes`.
pub fn parse_frame_header(bytes: &[u8]) -> (r: Option<FrameInfo>)
    ensures
        r == frame_spec(bytes@),
{
    if bytes.len() < 4 {
        return None;
    }
    if bytes[0] != 0xFF || (bytes[1] & 0xE0) != 0xE0 {
        return None;
    }
    let version_bits = (bytes[1] >> 3u8) & 0x03u8;
    let layer_bits = (bytes[1] >> 1u8) & 0x03u8;
    if layer_bits != 0x01 {
        return None;
    }
    if version_bits == 0x01 {
        return None;
    }
    let bitrate_index = (bytes[2] >> 4u8) & 0x0Fu8;
    let sample_rate_index = (bytes[2] >> 2u8) & 0x03u8;
    let b2 = bytes[2];
    let padding = (b2 >> 1u8) & 0x01u8;
    proof {
        assert((b2 >> 4u8) & 0x0Fu8 <= 15) by (bit_vector);
    }
    if bitrate_index == 0 || bitrate_index == 15 || sample_rate_index == 3 {
        return None;
    }
    let is_v1 = version_bits == 0x03;
    let bitrate_kbps = bitrate_table(is_v1, bitrate_index);
    let sample_rate = sample_rate_table(version_bits, sample_rate_index);
    if bitrate_kbps == 0 || sample_rate == 0 {
        return None;
    }
    let channel_mode = (bytes[3] >> 6u8) & 0x03u8;
    let channels: u32 = if channel_mode == 3 { 1 } else { 2 };
    let version: u32 = if version_bits == 0x03 { 3 } else if version_bits == 0x02 { 2 } else { 0 };
    let coeff: u32 = if is_v1 { 144 } else { 72 };
    proof {
        assert(bitrate_kbps <= 320);
        assert(padding <= 1) by (bit_vector)
            requires padding == (b2 >> 1u8) & 0x01u8;
    }
    let len = (coeff * bitrate_kbps * 1000 / sample_rate + padding as u32) as usize;
    if len < 4 {
        return None;
    }
    Some(FrameInfo { len, sample_rate, channels, version })
}

/// Length of an ID3v2 tag at the start of `b` (header, syncsafe size and an
/// optional footer), if `b` starts with one.
pub open spec fn id3_len_spec(b: Seq<u8>) -> Option<u64> {
    if b.len() < 10 || b[0] != 0x49 || b[1] != 0x44 || b[2] != 0x33 {
        None
    } else {
        let size = (((b[6] as u64) & 0x7F) << 21u64) | (((b[7] as u64) & 0x7F) << 14u64)
            | (((b[8] as u64) & 0x7F) << 7u64) | ((b[9] as u64) & 0x7F);
        let footer: u64 = if b[5] & 0x10 != 0 { 10 } else { 0 };
        Some((10 + size + footer) as u64)
    }
}

/// An ID3v2 tag is never longer than its header, a 28-bit size and a footer.
pub proof fn lemma_id3_len_bound(b: Seq<u8>)
    ensures
        id3_len_spec(b) matches Some(t) ==> t <= 268435475,
{
    if b.len() >= 10 && b[0] == 0x49 && b[1] == 0x44 && b[2] == 0x33 {
        let (b6, b7, b8, b9) = (b[6] as u64, b[7] as u64, b[8] as u64, b[9] as u64);
        assert(((b6 & 0x7F) << 21u64) | ((b7 & 0x7F) << 14u64) | ((b8 & 0x7F) << 7u64) | (b9 & 0x7F)
            <= 0x0FFF_FFFF) by (bit_vector)
            requires b6 < 256, b7 < 256, b8 < 256, b9 < 256;
    }
}

/// An ID3v2 tag starts with `ID3` and a 10-byte header; its length is the
/// header, plus the syncsafe size in bytes 6 to 9 (seven bits of each, most
/// significant first), plus 10 bytes of footer when flag bit 4 of byte 5 is
/// set. Data that does not start so holds no tag.
pub proof fn law_id3_len(b: Seq<u8>)
    ensures
        (b.len() >= 10 && b[0] == 73 && b[1] == 68 && b[2] == 51) <==> id3_len_spec(b) is Some,
        id3_len_spec(b) matches Some(t) ==> t == 10 + (b[6] % 128) * 2097152 + (b[7] % 128) * 16384 + (b[8] % 128)
            * 128 + b[9] % 128 + (if (b[5] / 16) % 2 == 1 { 10int } else { 0int }),
{
    if b.len() >= 10 && b[0] == 0x49 && b[1] == 0x44 && b[2] == 0x33 {
        let (b5, b6, b7, b8, b9) = (b[5], b[6] as u64, b[7] as u64, b[8] as u64, b[9] as u64);
        assert(((b6 & 0x7F) << 21u64) | ((b7 & 0x7F) << 14u64) | ((b8 & 0x7F) << 7u64) | (b9 & 0x7F)
            == (b6 % 128) * 2097152 + (b7 % 128) * 16384 + (b8 % 128) * 128 + b9 % 128) by (bit_vector)
            requires b6 < 256, b7 < 256, b8 < 256, b9 < 256;
        assert((b5 & 0x10 != 0) == ((b5 / 16) % 2 == 1)) by (bit_vector);
        lemma_id3_len_bound(b);
    }
}

/// Length of the ID3v2 tag that `bytes` starts with, if any.
pub fn id3_tag_len(bytes: &[u8]) -> (r: Option<u64>)
    ensures
        r == id3_len_spec(bytes@),
{
    if bytes.len() < 10 || bytes[0] != 0x49 || bytes[1] != 0x44 || bytes[2] != 0x33 {
        return None;
    }
    let size = ((bytes[6] as u64 & 0x7F) << 21u64) | ((bytes[7] as u64 & 0x7F) << 14u64) | ((
    bytes[8] as u64 & 0x7F) << 7u64) | (bytes[9] as u64 & 0x7F);
    let footer: u64 = if bytes[5] & 0x10 != 0 { 10 } else { 0 };
    proof {
        let (b6, b7, b8, b9) = (bytes@[6] as u64, bytes@[7] as u64, bytes@[8] as u64, bytes@[9] as u64);
        assert(((b6 & 0x7F) << 21u64) | ((b7 & 0x7F) << 14u64) | ((b8 & 0x7F) << 7u64) | (b9 & 0x7F)
            <= 0x0FFF_FFFF) by (bit_vector)
            requires b6 < 256, b7 < 256, b8 < 256, b9 < 256;
    }
    Some(10 + size + footer)
}

/// A frame can start at `pos`: its header parses, and the next header either
/// would run past the end or parses too.
pub open spec fn frame_start_at(b: Seq<u8>, pos: int) -> bool {
    &&& 0 <= pos
    &&& pos + 4 <= b.len()
    &&& frame_spec(b.subrange(pos, b.len() as int)) matches Some(f) && ({
        let next = pos + f.len;
        next + 4 > b.len() || frame_spec(b.subrange(next, b.len() as int)) is Some
    })
}

/// Where the scan for a frame begins: `start`, or just past an ID3v2 tag
/// there; `None` when the tag reaches the end of the data.
pub open spec fn scan_start(b: Seq<u8>, start: int) -> Option<int> {
    let from = if start < b.len() { start } else { b.len() as int };
    match id3_len_spec(b.subrange(from, b.len() as int)) {
        Some(t) => if start + t >= b.len() {
            None
        } else {
            Some(start + t)
        },
        None => Some(start),
    }
}

/// The first position at or after `start` (past a leading ID3v2 tag) where a
/// frame can start, confirmed by the header that follows it.
pub fn find_next_frame(bytes: &[u8], start: usize) -> (r: Option<usize>)
    ensures
        match scan_start(bytes@, start as int) {
            None => r is None,
            Some(s) => match r {
                Some(p) => s <= p && frame_start_at(bytes@, p as int) && forall|q: int|
                    s <= q < p ==> !#[trigger] frame_start_at(bytes@, q),
                None => forall|q: int| s <= q ==> !#[trigger] frame_start_at(bytes@, q),
            },
        },
{
    let mut pos = start;
    let from = if start < bytes.len() { start } else { bytes.len() };
    let tail = &bytes[from..bytes.len()];
    proof {
        assert(tail@ =~= bytes@.subrange(from as int, bytes@.len() as int));
        lemma_id3_len_bound(tail@);
    }
    match id3_tag_len(tail) {
        Some(tag_len) => {
            let skip = tag_len as usize;
            if start >= bytes.len() || skip >= bytes.len() - start {
                return None;
            }
            pos = start + skip;
        },
        None => {},
    }
    let ghost s = pos as int;
    while pos <= bytes.len() && bytes.len() - pos >= 4
        invariant
            s <= pos,
            scan_start(bytes@, start as int) == Some(s),
            forall|q: int| s <= q < pos ==> !#[trigger] frame_start_at(bytes@, q),
        decreases bytes@.len() - pos,
    {
        let here = &bytes[pos..bytes.len()];
        proof {
            assert(here@ =~= bytes@.subrange(pos as int, bytes@.len() as int));
        }
        match parse_frame_header(here) {
            Some(frame) => {
                let fits_before_end = frame.len <= bytes.len() - pos && bytes.len() - pos - frame.len >= 4;
                if !fits_before_end {
                    return Some(pos);
                }
                let next = pos + frame.len;
                let after = &bytes[next..bytes.len()];
                proof {
                    assert(after@ =~= bytes@.subrange(next as int, bytes@.len() as int));
                }
                if parse_frame_header(after).is_some() {
                    return Some(pos);
                }
            },
            None => {},
        }
        pos = pos + 1;
    }
    None
}


/// Bytes read from a music file at a time.
pub const MUSIC_READ_CHUNK: usize = 16384;

/// How much of the file the decoder keeps ahead of it.
pub const MUSIC_WINDOW_TARGET: usize = 65536;

/// Bytes kept when a window holds no frame, in case one starts at its end.
pub const MUSIC_WINDOW_KEEP: usize = 16;

/// Whether the decoder reads more of the file before looking for a frame.
pub fn should_read(window_len: usize, eof: bool) -> (b: bool)
    ensures
        b == (!eof && window_len < MUSIC_WINDOW_TARGET),
{
    !eof && window_len < MUSIC_WINDOW_TARGET
}

/// `p` is where the first frame of `b` starts.
pub open spec fn first_frame_at(b: Seq<u8>, p: int) -> bool {
    scan_start(b, 0) matches Some(s) && s <= p && frame_start_at(b, p) && forall|q: int|
        s <= q < p ==> !#[trigger] frame_start_at(b, q)
}

/// `b` holds no frame start.
pub open spec fn no_frame(b: Seq<u8>) -> bool {
    scan_start(b, 0) matches Some(s) ==> forall|q: int| s <= q ==> !#[trigger] frame_start_at(b, q)
}

/// What the decoding loop does next with its window of the file.
#[derive(Debug, PartialEq, Eq)]
pub enum StreamStep {
    /// Read another chunk: the first frame is not whole yet.
    Read,
    /// The window held no frame and was trimmed; read and look again.
    Again,
    /// Decode the frame at this offset of the window.
    Decode(usize, FrameInfo),
    /// The file is done: play it again when it produced sound, else stop.
    End(bool),
}

/// Looks for the next frame in the window of file bytes: decode it when
/// it is whole; wait for more of the file when it is not; at the end of
/// the file, finish (looping when anything played). A window without a
/// frame keeps only its last bytes.
pub fn stream_step(window: &mut Vec<u8>, eof: bool, produced_audio: bool) -> (st: StreamStep)
    ensures
        match st {
            StreamStep::Decode(p, f) => {
                &&& first_frame_at(old(window)@, p as int)
                &&& frame_spec(old(window)@.subrange(p as int, old(window)@.len() as int)) == Some(f)
                &&& p + f.len <= old(window)@.len()
                &&& final(window)@ == old(window)@
            },
            StreamStep::Read => {
                &&& !eof
                &&& exists|p: int| #[trigger] first_frame_at(old(window)@, p) && (frame_spec(
                    old(window)@.subrange(p, old(window)@.len() as int),
                ) matches Some(f) && old(window)@.len() < p + f.len)
                &&& final(window)@ == old(window)@
            },
            StreamStep::End(looped) => {
                &&& eof
                &&& looped == produced_audio
                &&& no_frame(old(window)@) || exists|p: int| #[trigger] first_frame_at(old(window)@, p) && (frame_spec(
                    old(window)@.subrange(p, old(window)@.len() as int),
                ) matches Some(f) && old(window)@.len() < p + f.len)
                &&& final(window)@ == old(window)@
            },
            StreamStep::Again => {
                &&& !eof
                &&& no_frame(old(window)@)
                &&& final(window)@ == if old(window)@.len() > MUSIC_WINDOW_KEEP {
                    old(window)@.skip(old(window)@.len() - MUSIC_WINDOW_KEEP)
                } else {
                    old(window)@
                }
            },
        },
{
    let found = find_next_frame(window.as_slice(), 0);
    match found {
        None => {
            if eof {
                return StreamStep::End(produced_audio);
            }
            if window.len() > MUSIC_WINDOW_KEEP {
                let n = window.len() - MUSIC_WINDOW_KEEP;
                consume(window, n);
            }
            StreamStep::Again
        },
        Some(p) => {
            let rest = &window.as_slice()[p..window.len()];
            proof {
                assert(rest@ =~= window@.subrange(p as int, window@.len() as int));
            }
            let frame = match parse_frame_header(rest) {
                Some(f) => f,
                None => {
                    proof {
                        assert(false);
                    }
                    return StreamStep::Again;
                },
            };
            if frame.len > window.len() - p {
                proof {
                    assert(first_frame_at(window@, p as int));
                }
                if eof {
                    return StreamStep::End(produced_audio);
                }
                return StreamStep::Read;
            }
            StreamStep::Decode(p, frame)
        },
    }
}

/// How playing one music file ended.
#[derive(Debug, PartialEq, Eq)]
pub enum DecodeOutcome {
    /// A new file was asked for: play it next.
    PlayNext(String),
    /// The file ended after playing: play it again.
    LoopSame,
    /// Stop the music.
    Stopped,
}

/// What happened to the stream this round.
#[derive(Debug, PartialEq, Eq)]
pub enum StreamEvent {
    /// The file could not be opened.
    CannotOpen,
    /// The hardware decoder could not be created for the file's first frame.
    DecoderFailed,
    /// A step through the window of file bytes.
    Step(StreamStep),
}

/// The outcome of a round of the music loop, if it ends the file: a file
/// that cannot be opened stops the music; otherwise a command received
/// this round decides (play another file, or stop); failing that, a
/// decoder that cannot be created stops, and the end of the file loops
/// when it produced sound and stops when it did not. Any other step goes on.
pub open spec fn music_outcome_spec(cmd: Option<MusicCmd>, ev: StreamEvent) -> Option<DecodeOutcome> {
    match ev {
        StreamEvent::CannotOpen => Some(DecodeOutcome::Stopped),
        _ => match cmd {
            Some(MusicCmd::Play(next)) => Some(DecodeOutcome::PlayNext(next)),
            Some(MusicCmd::Stop) => Some(DecodeOutcome::Stopped),
            None => match ev {
                StreamEvent::DecoderFailed => Some(DecodeOutcome::Stopped),
                StreamEvent::Step(StreamStep::End(played)) => if played {
                    Some(DecodeOutcome::LoopSame)
                } else {
                    Some(DecodeOutcome::Stopped)
                },
                _ => None,
            },
        },
    }
}

/// Decides whether this round of the music loop ends the file, and how.
pub fn music_outcome(cmd: Option<MusicCmd>, ev: StreamEvent) -> (r: Option<DecodeOutcome>)
    ensures
        r == music_outcome_spec(cmd, ev),
{
    if let StreamEvent::CannotOpen = ev {
        return Some(DecodeOutcome::Stopped);
    }
    match cmd {
        Some(MusicCmd::Play(next)) => Some(DecodeOutcome::PlayNext(next)),
        Some(MusicCmd::Stop) => Some(DecodeOutcome::Stopped),
        None => match ev {
            StreamEvent::DecoderFailed => Some(DecodeOutcome::Stopped),
            StreamEvent::Step(StreamStep::End(played)) => {
                if played {
                    Some(DecodeOutcome::LoopSame)
                } else {
                    Some(DecodeOutcome::Stopped)
                }
            },
            _ => None,
        },
    }
}

/// A stop command always stops the music; a command to play another file is
/// obeyed unless the current file could not even be opened (which stops);
/// without a command, a file that ends after playing sound loops, one that
/// ends silent stops, and reading or decoding goes on.
pub proof fn law_music_commands(cmd: Option<MusicCmd>, ev: StreamEvent)
    ensures
        cmd matches Some(MusicCmd::Stop) ==> music_outcome_spec(cmd, ev) == Some(DecodeOutcome::Stopped),
        cmd matches Some(MusicCmd::Play(next)) ==> (ev is CannotOpen || music_outcome_spec(cmd, ev) == Some(
            DecodeOutcome::PlayNext(next),
        )),
        ev is CannotOpen ==> music_outcome_spec(cmd, ev) == Some(DecodeOutcome::Stopped),
        cmd is None && ev == StreamEvent::Step(StreamStep::End(true)) ==> music_outcome_spec(cmd, ev) == Some(
            DecodeOutcome::LoopSame,
        ),
        cmd is None && ev == StreamEvent::Step(StreamStep::End(false)) ==> music_outcome_spec(cmd, ev) == Some(
            DecodeOutcome::Stopped,
        ),
        cmd is None && (ev == StreamEvent::Step(StreamStep::Read) || ev == StreamEvent::Step(StreamStep::Again) || ev
            matches StreamEvent::Step(StreamStep::Decode(_, _))) ==> music_outcome_spec(cmd, ev) is None,
{
}

/// Drops the first `n` bytes of the window (a decoded frame and what came
/// before it).
pub fn consume(window: &mut Vec<u8>, n: usize)
    requires
        n <= old(window)@.len(),
    ensures
        final(window)@ == old(window)@.skip(n as int),
{
    let mut rest: Vec<u8> = Vec::with_capacity(window.len() - n);
    let mut i: usize = n;
    while i < window.len()
        invariant
            n <= i <= window@.len(),
            rest@ == window@.subrange(n as int, i as int),
        decreases window@.len() - i,
    {
        rest.push(window[i]);
        proof {
            assert(rest@ =~= window@.subrange(n as int, i as int + 1));
        }
        i = i + 1;
    }
    proof {
        assert(rest@ =~= window@.skip(n as int));
    }
    *window = rest;
}

/// Mono samples made stereo: each sample for both channels.
pub fn stereo_from_mono(samples: &[i16]) -> (r: Vec<i16>)
    requires
        samples@.len() * 2 <= usize::MAX,
    ensures
        r@.len() == 2 * samples@.len(),
        forall|k: int| 0 <= k < samples@.len() ==> #[trigger] r@[2 * k] == samples@[k] && r@[2 * k + 1] == samples@[k],
{
    let mut out: Vec<i16> = Vec::with_capacity(samples.len() * 2);
    let mut i: usize = 0;
    while i < samples.len()
        invariant
            i <= samples@.len(),
            out@.len() == 2 * i,
            forall|k: int| 0 <= k < i ==> #[trigger] out@[2 * k] == samples@[k] && out@[2 * k + 1] == samples@[k],
        decreases samples@.len() - i,
    {
        out.push(samples[i]);
        out.push(samples[i]);
        proof {
            assert forall|k: int| 0 <= k < i + 1 implies #[trigger] out@[2 * k] == samples@[k] && out@[2 * k + 1] == samples@[k] by {
                if k < i {
                    assert(out@[2 * k] == out@.drop_last().drop_last()[2 * k]);
                }
            }
        }
        i = i + 1;
    }
    out
}

} // verus!
