use vitadeck::audio::{open_next, port_plan, MusicChoice, OpenNext, PortKind, PortNext, PortState};
use vitadeck::audio::MusicCmd;
use vitadeck::mp3::{music_outcome, DecodeOutcome, StreamEvent};
use vitadeck::mp3::{
    consume, find_next_frame, id3_tag_len, parse_frame_header, should_read, stereo_from_mono, stream_step, StreamStep,
};

fn frame(header: [u8; 4], len: usize) -> Vec<u8> {
    let mut v = header.to_vec();
    v.resize(len, 0);
    v
}

#[test]
fn frame_headers_give_length_rate_and_channels() {
    let f = parse_frame_header(&[0xFF, 0xFB, 0x90, 0x00]).unwrap();
    assert_eq!((f.len, f.sample_rate, f.channels, f.version), (417, 44100, 2, 3));
    let f = parse_frame_header(&[0xFF, 0xFB, 0x92, 0xC0]).unwrap();
    assert_eq!((f.len, f.channels), (418, 1));
    let f = parse_frame_header(&[0xFF, 0xF3, 0x90, 0x00]).unwrap();
    assert_eq!((f.len, f.sample_rate, f.version), (261, 22050, 2));
    assert!(parse_frame_header(&[0xFF, 0xFB, 0xF0, 0x00]).is_none());
    assert!(parse_frame_header(&[0xFF, 0xFD, 0x90, 0x00]).is_none());
    assert!(parse_frame_header(&[0xFF, 0xFB, 0x90]).is_none());
}

#[test]
fn id3_tags_are_measured() {
    assert_eq!(id3_tag_len(b"ID3\x03\x00\x00\x00\x00\x02\x01"), Some(267));
    assert_eq!(id3_tag_len(b"ID3\x04\x00\x10\x00\x00\x00\x05"), Some(25));
    assert_eq!(id3_tag_len(b"ID3\x04\x00"), None);
    assert_eq!(id3_tag_len(b"XYZ\x04\x00\x00\x00\x00\x00\x05"), None);
}

#[test]
fn frames_are_found_after_junk() {
    let mut w = vec![1, 2, 3];
    w.extend(frame([0xFF, 0xFB, 0x90, 0x00], 417));
    w.extend_from_slice(&[0xFF, 0xFB, 0x90, 0x00]);
    assert_eq!(find_next_frame(&w, 0), Some(3));
    assert_eq!(find_next_frame(&[0u8; 40], 0), None);
}

#[test]
fn the_stream_decodes_waits_and_ends() {
    let mut w = vec![1, 2, 3];
    w.extend(frame([0xFF, 0xFB, 0x90, 0x00], 417));
    w.extend_from_slice(&[0xFF, 0xFB, 0x90, 0x00]);
    let f = parse_frame_header(&[0xFF, 0xFB, 0x90, 0x00]).unwrap();
    assert_eq!(stream_step(&mut w, false, false), StreamStep::Decode(3, f));
    consume(&mut w, 3 + 417);
    assert_eq!(w, vec![0xFF, 0xFB, 0x90, 0x00]);
    assert_eq!(stream_step(&mut w, false, true), StreamStep::Read);
    assert_eq!(stream_step(&mut w, true, true), StreamStep::End(true));

    let mut junk = vec![7u8; 20];
    assert_eq!(stream_step(&mut junk, false, false), StreamStep::Again);
    assert_eq!(junk.len(), 16);
    assert_eq!(stream_step(&mut junk, true, false), StreamStep::End(false));
    assert!(should_read(100, false));
    assert!(!should_read(100, true));
    assert!(!should_read(65536, false));
}

#[test]
fn mono_is_doubled_for_stereo() {
    assert_eq!(stereo_from_mono(&[1, -2, 3]), vec![1, 1, -2, -2, 3, 3]);
    assert!(stereo_from_mono(&[]).is_empty());
}

#[test]
fn music_commands_and_file_end_decide_the_outcome() {
    assert_eq!(music_outcome(Some(MusicCmd::Stop), StreamEvent::CannotOpen), Some(DecodeOutcome::Stopped));
    assert_eq!(music_outcome(None, StreamEvent::CannotOpen), Some(DecodeOutcome::Stopped));
    assert_eq!(
        music_outcome(Some(MusicCmd::Play("b.mp3".to_string())), StreamEvent::Step(StreamStep::End(true))),
        Some(DecodeOutcome::PlayNext("b.mp3".to_string()))
    );
    assert_eq!(music_outcome(Some(MusicCmd::Stop), StreamEvent::Step(StreamStep::Read)), Some(DecodeOutcome::Stopped));
    assert_eq!(music_outcome(None, StreamEvent::Step(StreamStep::End(true))), Some(DecodeOutcome::LoopSame));
    assert_eq!(music_outcome(None, StreamEvent::Step(StreamStep::End(false))), Some(DecodeOutcome::Stopped));
    assert_eq!(music_outcome(None, StreamEvent::DecoderFailed), Some(DecodeOutcome::Stopped));
    assert_eq!(music_outcome(None, StreamEvent::Step(StreamStep::Read)), None);
    assert_eq!(music_outcome(None, StreamEvent::Step(StreamStep::Again)), None);
}

#[test]
fn music_is_only_sent_when_it_changes() {
    let mut m = MusicChoice::new();
    assert!(m.set_music(None).is_none());
    assert!(matches!(m.set_music(Some("a.mp3")), Some(MusicCmd::Play(p)) if p == "a.mp3"));
    assert!(m.set_music(Some("a.mp3")).is_none());
    assert!(matches!(m.set_music(None), Some(MusicCmd::Stop)));
    assert!(m.set_music(None).is_none());
}

#[test]
fn the_output_port_follows_playback_and_rate() {
    let closed = PortState { open: false, rate: 44100 };
    let open = PortState { open: true, rate: 44100 };
    assert_eq!(port_plan(closed, false, 0), (false, closed, PortNext::Idle));
    assert_eq!(port_plan(open, false, 48000), (true, PortState { open: false, rate: 48000 }, PortNext::Idle));
    assert_eq!(port_plan(closed, true, 48000), (false, PortState { open: false, rate: 48000 }, PortNext::Open));
    assert_eq!(port_plan(open, true, 44100), (false, open, PortNext::Play));
    assert_eq!(port_plan(open, true, 0), (false, open, PortNext::Play));
    assert_eq!(port_plan(open, true, 22050), (true, PortState { open: false, rate: 22050 }, PortNext::Open));
    assert_eq!(open_next(PortKind::Bgm, true), OpenNext::Ready);
    assert_eq!(open_next(PortKind::Bgm, false), OpenNext::Try(PortKind::Main));
    assert_eq!(open_next(PortKind::Main, false), OpenNext::GiveUp);
}
