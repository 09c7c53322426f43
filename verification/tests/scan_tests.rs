use vitadeck::artwork::{
    asset_url, format_penalty, games_checksum, is_jpeg, is_png, is_title_match, path_is_vita, pick_measured,
    plan_variant, url_encode, LookupTarget, PreferFormat, VariantPlan,
};
use vitadeck::licensing::{create_fake_license, extract_content_id_from_url, get_license, resolve_content_id, LicenseError};
use vitadeck::net::{
    chunk_step, decode_chunks, find_subslice, ChunkStatus, next_step, parse_chunk_size, parse_hex, parse_response_head, parse_uint, parse_url, ChunkStep,
    NetError, NextStep,
};
use vitadeck::scanner::{
    cache_entries, classify_app, classify_pspemu, clean_rom_name, cover_cache_path, cover_cache_path_by_title,
    games_from_cache, hero_cache_path, is_dir_disabled, is_junk_name, is_known_utility, music_cache_path,
    normalize_search_title, normalize_title, override_for, parse_overrides, parse_sfo_fields, pbp_offsets,
    pbp_section_len, resolved_music_path, sanitize_sony_title_id, sort_games_by_title, Game, System,
    app_art_key, category_children, vita_app_game, AppMedia, choose_app_title, find_pspemu_entry, select_vita_apps, sorted_unique, vita_app_identity, AppHit, iso_entry, parse_sfo_category, parse_sfo_title, pbp_title,
};
use vitadeck::audio::WavSound;
use vitadeck::textures::{exceeds_decode_budget, source_exceeds_decode_budget, TextureKind};

fn game(title_id: &str, title: &str, system: System) -> Game {
    Game {
        title_id: title_id.to_string(),
        art_key: title_id.to_string(),
        title: title.to_string(),
        system,
        cover_bytes: None,
        hero_bytes: None,
        logo_bytes: None,
        has_box_art: false,
        has_hero: false,
        has_logo: false,
        is_game: None,
        music_path: None,
        music_resolved: false,
        has_bubble: true,
        file_path: None,
    }
}

#[test]
fn disabled_dir_check_matches_exact_path() {
    let disabled = vec!["ux0:pspemu/ISO/CAT_PSP".to_string()];
    assert!(is_dir_disabled("ux0:pspemu/ISO/CAT_PSP", &disabled));
    assert!(!is_dir_disabled("ux0:pspemu/ISO/CAT_PSX", &disabled));
}

#[test]
fn normalizes_titles_without_losing_common_game_symbols() {
    assert_eq!(normalize_title(" ACE  COMBAT™\0\tJOINT\nASSAULT "), "ACE COMBAT™ JOINT ASSAULT");
}

#[test]
fn rom_names_are_cleaned() {
    assert_eq!(clean_rom_name("Crisis_Core_[USA](v1.01).iso"), "Crisis Core");
    assert_eq!(clean_rom_name("Patapon™ 2.cso"), "Patapon 2");
    assert_eq!(clean_rom_name("no-extension"), "no-extension");
    assert_eq!(clean_rom_name("a.b.c.iso"), "a b c");
    assert_eq!(normalize_search_title("Final Fantasy: Type-0®"), "Final Fantasy Type 0");
}

#[test]
fn junk_names_are_skipped() {
    assert!(is_junk_name(".hidden"));
    assert!(is_junk_name("dir/THUMBS.DB"));
    assert!(is_junk_name("Desktop.ini"));
    assert!(!is_junk_name("SLUS00001"));
}

#[test]
fn sony_title_ids_are_sanitized() {
    assert_eq!(sanitize_sony_title_id("ulus-10041.iso"), Some("ULUS10041".to_string()));
    assert_eq!(sanitize_sony_title_id("SLUS_012.34"), None);
    assert_eq!(sanitize_sony_title_id("slus 01234.CSO.cso"), Some("SLUS01234".to_string()));
    assert_eq!(sanitize_sony_title_id("Not An Id"), None);
}

#[test]
fn utilities_are_recognized() {
    assert!(is_known_utility("VITASHELL", "VitaShell", None));
    assert!(is_known_utility("SKGABCDEF", "Anything", None));
    assert!(is_known_utility("PCSE00001", "Game", Some(" gda ")));
    assert!(is_known_utility("ABCD12345", "RetroArch", None));
    assert!(!is_known_utility("PCSE00001", "Gravity Rush", Some("gd")));
}

#[test]
fn pspemu_classification() {
    let fields = vec![("CATEGORY".to_string(), " ME ".to_string())];
    assert_eq!(classify_pspemu("ULUS10041", Some(fields.as_slice())), System::Psx);
    let fields = vec![("CATEGORY".to_string(), "UG".to_string())];
    assert_eq!(classify_pspemu("SLUS00001", Some(fields.as_slice())), System::Psp);
    assert_eq!(classify_pspemu("SLUS00001", None), System::Psx);
    assert_eq!(classify_pspemu("ULUS10041", None), System::Psp);
}

#[test]
fn app_classification() {
    assert_eq!(classify_app("PCSE00001", Some(4), false, None, false), (System::Vita, true));
    assert_eq!(classify_app("PCSE00001", Some(2), false, None, false), (System::Psp, false));
    assert_eq!(classify_app("PCSE00001", None, true, Some(System::Psp), false), (System::Vita, false));
    assert_eq!(classify_app("PCSI00001", None, true, None, true), (System::Psx, false));
    assert_eq!(classify_app("NPUG00001", None, true, Some(System::Psx), false), (System::Psx, false));
    assert_eq!(classify_app("NPUG00001", None, true, None, false), (System::Psp, false));
    assert_eq!(classify_app("NPUG00001", None, false, None, false), (System::Vita, false));
}

#[test]
fn overrides_file_is_parsed() {
    let v = parse_overrides("# comment\nabcd12345 = 3\nBAD=\nx=300\nABCD12345=+1\n");
    assert_eq!(v.len(), 2);
    assert_eq!(override_for(&v, "ABCD12345"), Some(1));
    assert_eq!(override_for(&v, "abcd12345"), None);
}

fn sfo(entries: &[(&str, &str)]) -> Vec<u8> {
    let mut keys = Vec::new();
    let mut vals = Vec::new();
    let mut index = Vec::new();
    for (k, v) in entries {
        let ko = keys.len() as u16;
        keys.extend_from_slice(k.as_bytes());
        keys.push(0);
        let vo = vals.len() as u32;
        vals.extend_from_slice(v.as_bytes());
        vals.push(0);
        let mut e = vec![0u8; 16];
        e[0..2].copy_from_slice(&ko.to_le_bytes());
        e[12..16].copy_from_slice(&vo.to_le_bytes());
        index.extend_from_slice(&e);
    }
    let key_table = 20 + index.len() as u32;
    let data_table = key_table + keys.len() as u32;
    let mut out = vec![0u8, b'P', b'S', b'F', 1, 1, 0, 0];
    out.extend_from_slice(&key_table.to_le_bytes());
    out.extend_from_slice(&data_table.to_le_bytes());
    out.extend_from_slice(&(entries.len() as u32).to_le_bytes());
    out.extend_from_slice(&index);
    out.extend_from_slice(&keys);
    out.extend_from_slice(&vals);
    out
}

#[test]
fn sfo_fields_are_read_in_wanted_order() {
    let data = sfo(&[("TITLE", "Gravity Rush"), ("CATEGORY", "gd"), ("TITLE_ID", "PCSA00011"), ("STITLE", "GR")]);
    let f = parse_sfo_fields(&data, &["STITLE", "TITLE", "CATEGORY"]).unwrap();
    assert_eq!(
        f,
        vec![
            ("STITLE".to_string(), "GR".to_string()),
            ("TITLE".to_string(), "Gravity Rush".to_string()),
            ("CATEGORY".to_string(), "gd".to_string())
        ]
    );
    assert!(parse_sfo_fields(b"not an sfo file at all", &["TITLE"]).is_none());
    let mut truncated = data.clone();
    truncated.truncate(40);
    assert_eq!(parse_sfo_fields(&truncated, &["TITLE"]).unwrap().len(), 0);
}

#[test]
fn pbp_layout() {
    let mut h = vec![0u8; 0x28];
    h[1] = b'P';
    h[2] = b'B';
    h[3] = b'P';
    h[8..12].copy_from_slice(&0x28u32.to_le_bytes());
    h[12..16].copy_from_slice(&0x100u32.to_le_bytes());
    h[16..20].copy_from_slice(&0x200u32.to_le_bytes());
    assert_eq!(pbp_offsets(&h), Some((0x28, 0x100, 0x200)));
    assert_eq!(pbp_offsets(&h[..10]), None);
    assert_eq!(pbp_section_len(0x28, 0x100), 0xd8);
    assert_eq!(pbp_section_len(0x100, 0x28), 0);
    assert_eq!(pbp_section_len(0, 5 * 1024 * 1024), 0);
}

#[test]
fn cache_paths() {
    assert_eq!(cover_cache_path(System::Psp, "ULUS10041"), "ux0:data/VitaDeck/COVERS/PSP/ULUS10041");
    assert_eq!(hero_cache_path(System::Vita, "X"), "ux0:data/VitaDeck/HERO/PSVita/X");
    assert_eq!(music_cache_path(System::Psx, "Y"), "ux0:data/VitaDeck/MUSIC/PS1/Y");
    assert_eq!(cover_cache_path_by_title(System::Vita, "A/B\\C"), "ux0:data/VitaDeck/COVERS/PSVita/A-B-C");
    let g = game("PCSE00001", "T", System::Vita);
    assert_eq!(resolved_music_path(&g, true), Some("ux0:data/VitaDeck/MUSIC/PSVita/PCSE00001.mp3".to_string()));
    assert_eq!(resolved_music_path(&g, false), None);
}

#[test]
fn games_are_sorted_and_cached() {
    let mut games = vec![game("B", "beta", System::Vita), game("A", "Alpha", System::Psp), game("C", "alpha", System::Vita)];
    sort_games_by_title(&mut games);
    let ids: Vec<&str> = games.iter().map(|g| g.title_id.as_str()).collect();
    assert_eq!(ids, vec!["A", "C", "B"]);
    let cached = cache_entries(&games);
    let back = games_from_cache(cached).unwrap();
    assert_eq!(back.len(), 3);
    assert_eq!(back[1].title_id, "C");
    assert!(games_from_cache(Vec::new()).is_none());
}

#[test]
fn content_ids_and_licenses() {
    let url = "http://zeus.dl.playstation.net/cdn/UP0001/PCSE00001_00/UP0001-PCSE00001_00-0000000000000000.pkg";
    assert_eq!(
        extract_content_id_from_url(url),
        Some("UP0001-PCSE00001_00-0000000000000000".to_string())
    );
    assert_eq!(extract_content_id_from_url("short"), None);
    assert_eq!(
        resolve_content_id("PCSB00002", None, "https://x/y", Some("eu")),
        Ok("EP0001-PCSB00002_00-0000000000000000".to_string())
    );
    assert_eq!(resolve_content_id("", Some(""), "https://x/y", None), Err(LicenseError::NoIdentifier));
    assert_eq!(resolve_content_id("X", Some("CID"), "", None), Ok("CID".to_string()));
    let rif = create_fake_license("UP0001-PCSE00001_00-0000000000000000");
    assert_eq!(rif.len(), 512);
    assert_eq!(&rif[8..16], &0x0123456789ABCDEFu64.to_le_bytes());
    assert_eq!(&rif[16..52], b"UP0001-PCSE00001_00-0000000000000000");
    assert!(rif[0x70..0x98].iter().all(|b| *b == 0xFF));
    assert_eq!(rif[0x98], 0);
    assert_eq!(get_license("X", None, "u", Some(vec![1, 2, 3]), None), Some(vec![1, 2, 3]));
    assert_eq!(get_license("", None, "u", None, None), None);
    assert_eq!(get_license("PCSE00001", None, "u", None, None).map(|v| v.len()), Some(512));
}

#[test]
fn urls_and_responses() {
    let u = parse_url("https://example.com:8443/a/b?c=d").unwrap();
    assert!(u.https);
    assert_eq!(u.host, "example.com");
    assert_eq!(u.port, 8443);
    assert_eq!(u.path, "/a/b?c=d");
    let u = parse_url("http://example.com").unwrap();
    assert_eq!((u.port, u.path.as_str()), (80, "/"));
    assert_eq!(parse_url("ftp://x").err(), Some(NetError::UnsupportedScheme));
    assert_eq!(parse_url("http://x:99999/").err(), Some(NetError::BadPort));
    assert_eq!(parse_uint("+42", 100), Some(42));
    assert_eq!(parse_uint("101", 100), None);
    assert_eq!(find_subslice(b"abc\r\n\r\nbody", b"\r\n\r\n"), Some(3));
    assert_eq!(find_subslice(b"abc", b"zz"), None);

    let head = parse_response_head(b"HTTP/1.1 302 Found\r\nLocation:  /next \r\nContent-Length: 12\r\nTransfer-Encoding: Chunked");
    assert_eq!(head.status, 302);
    assert_eq!(head.location.as_deref(), Some("/next"));
    assert_eq!(head.content_length, Some(12));
    assert!(head.chunked);
    let base = parse_url("https://h.example/x").unwrap();
    match next_step(302, Some("/next".to_string()), &base) {
        NextStep::Follow(u) => assert_eq!(u, "https://h.example:443/next"),
        other => panic!("{other:?}"),
    }
    assert!(matches!(next_step(204, None, &base), NextStep::Done));
    assert!(matches!(next_step(301, None, &base), NextStep::Fail(NetError::RedirectWithoutLocation)));
    assert!(matches!(next_step(404, None, &base), NextStep::Fail(NetError::HttpStatus(404))));
}

#[test]
fn artwork_helpers() {
    assert!(is_png(b"\x89PNG\r\n\x1a\nrest"));
    assert!(is_jpeg(&[0xFF, 0xD8, 0xFF, 0]));
    assert!(!is_png(b"GIF89a"));
    assert_eq!(asset_url("http://api", "//covers/x.jpg"), "http://api/assets/covers/x.jpg");
    assert_eq!(asset_url("http://api", "https://cdn/x.jpg"), "https://cdn/x.jpg");
    assert!(path_is_vita("a/b/x_vita.png"));
    assert!(!path_is_vita("a_vita./b/x.png"));
    assert_eq!(format_penalty("X.JPEG", PreferFormat::Jpeg), 0);
    assert_eq!(format_penalty("x.png", PreferFormat::Jpeg), 1);
    assert_eq!(format_penalty("x.jpg", PreferFormat::Png), 3);
    assert_eq!(format_penalty("x.gif", PreferFormat::Png), 2);
    assert_eq!(url_encode("Ace Combat: X"), "Ace%20Combat%3A%20X");
    assert!(is_title_match("Gravity Rush", "GRAVITY RUSH Remastered"));
    assert!(is_title_match("The Great Escape Game", "great escape"));
    assert!(!is_title_match("Killzone", "Uncharted"));
    assert!(!is_title_match("", "x"));

    let targets = vec![LookupTarget { art_key: "A".into(), title_id: "B".into(), title: "T".into(), system: System::Vita }];
    let mut h: u64 = 0xcbf29ce484222325 ^ 0x0A00;
    for b in "AB".bytes() {
        h ^= b as u64;
        h = h.wrapping_mul(0x100000001b3);
    }
    assert_eq!(games_checksum(&targets), h);

    let paths = vec!["x.webp".to_string(), "a.png".to_string(), "b_vita.png".to_string(), "c_vita.jpg".to_string()];
    match plan_variant("http://api", &paths, PreferFormat::Jpeg) {
        VariantPlan::Chosen(u) => assert_eq!(u, "http://api/assets/c_vita.jpg"),
        other => panic!("{other:?}"),
    }
    let paths = vec!["a.png".to_string(), "b.jpg".to_string()];
    match plan_variant("http://api", &paths, PreferFormat::Jpeg) {
        VariantPlan::Measure(m) => assert_eq!(m, vec![("http://api/assets/a.png".to_string(), 1), ("http://api/assets/b.jpg".to_string(), 0)]),
        other => panic!("{other:?}"),
    }
    assert!(matches!(plan_variant("http://api", &["x.avif".to_string()], PreferFormat::Png), VariantPlan::NoCandidate));
    let measured = vec![
        (Some(900_000usize), 0u8, "big".to_string()),
        (None, 0u8, "unknown".to_string()),
        (Some(500_000usize), 1u8, "small".to_string()),
        (Some(400_000usize), 0u8, "smaller".to_string()),
    ];
    assert_eq!(pick_measured(&measured, Some("fallback".into())), Some("smaller".to_string()));
    assert_eq!(pick_measured(&[(None, 0u8, "x".to_string())], Some("fallback".into())), Some("fallback".to_string()));
}

#[test]
fn texture_helpers() {
    assert_eq!(TextureKind::from_key("PCSE00001:hero"), TextureKind::Hero);
    assert_eq!(TextureKind::from_key("x:shot"), TextureKind::Screenshot);
    assert_eq!(TextureKind::from_key("x"), TextureKind::Cover);
    assert_eq!(TextureKind::Logo.max_decoded_side(), 320);
    assert!(exceeds_decode_budget(Some((4096, 10))));
    assert!(!exceeds_decode_budget(Some((2048, 2048))));
    assert!(!exceeds_decode_budget(None));
    // A PNG header announcing a 4096x16 image.
    let mut png = b"\x89PNG\r\n\x1a\n\0\0\0\rIHDR".to_vec();
    png.extend_from_slice(&4096u32.to_be_bytes());
    png.extend_from_slice(&16u32.to_be_bytes());
    png.extend_from_slice(&[8, 6, 0, 0, 0]);
    png.extend_from_slice(&[0, 0, 0, 0]);
    let _ = source_exceeds_decode_budget(&png);
    assert!(!source_exceeds_decode_budget(b"not an image"));
}

#[test]
fn sfo_title_is_the_first_non_blank_title() {
    let data = sfo(&[("TITLE", "  "), ("STITLE", "Gravity\tRush "), ("CATEGORY", "gd")]);
    assert_eq!(parse_sfo_title(&data), Some("Gravity Rush".to_string()));
    assert_eq!(parse_sfo_category(&data), Some("gd".to_string()));
    let blank = sfo(&[("TITLE", " "), ("CATEGORY", "ME")]);
    assert_eq!(parse_sfo_title(&blank), None);
    assert_eq!(parse_sfo_category(&blank), Some("ME".to_string()));
    assert_eq!(parse_sfo_title(b"garbage"), None);
    assert_eq!(parse_sfo_category(b"garbage"), None);
}

#[test]
fn pbp_title_prefers_metadata_then_folder() {
    let fields = vec![
        ("CATEGORY".to_string(), "UG".to_string()),
        ("TITLE".to_string(), "   ".to_string()),
        ("STITLE".to_string(), " Loco  Roco ".to_string()),
    ];
    assert_eq!(pbp_title("UCUS98662", Some(fields.as_slice())), "Loco Roco");
    assert_eq!(pbp_title("UCUS98662", Some(&fields[..2])), "UCUS98662");
    assert_eq!(pbp_title("UCUS98662", None), "UCUS98662");
}

#[test]
fn app_art_keys_follow_the_platform() {
    assert_eq!(app_art_key(System::Vita, "PCSE00001", Some("OTHER")), "PCSE00001");
    assert_eq!(app_art_key(System::Psp, "NPUZ00001", Some("ULUS10041")), "ULUS10041");
    assert_eq!(app_art_key(System::Psp, "ulus-10041", None), "ULUS10041");
    assert_eq!(app_art_key(System::Psx, "PSPEMU001", None), "PSPEMU001");
}

#[test]
fn app_titles_prefer_a_real_name() {
    assert_eq!(choose_app_title("PCSE00001", Some("Uncharted".to_string()), Some("X")), "Uncharted");
    assert_eq!(choose_app_title("NPUZ00001", Some("NPUZ00001".to_string()), Some("Patapon")), "Patapon");
    assert_eq!(choose_app_title("NPUZ00001", Some("NPUZ00001".to_string()), Some("NPUZ00001")), "NPUZ00001");
    assert_eq!(choose_app_title("NPUZ00001", Some("  ".to_string()), None), "NPUZ00001");
    assert_eq!(choose_app_title("NPUZ00001", None, None), "NPUZ00001");
}

#[test]
fn disc_images_give_entries() {
    let e = iso_entry("Crisis Core (USA).ISO").unwrap();
    assert_eq!(e.stem, "Crisis Core (USA)");
    assert_eq!(e.title, "Crisis Core");
    assert_eq!(e.art_key, "Crisis Core");
    let e = iso_entry("ULUS10336.cso").unwrap();
    assert_eq!(e.art_key, "ULUS10336");
    assert_eq!(e.stem, "ULUS10336");
    assert!(iso_entry("readme.txt").is_none());
    assert!(iso_entry("._hidden.iso").is_none());
    assert!(iso_entry("(USA).iso").is_none());
}

#[test]
fn pspemu_entries_are_found_by_name_then_key() {
    let entries = vec![
        ("Crisis Core".to_string(), "ULUS10336".to_string()),
        ("NPUZ00001".to_string(), "npuz00001".to_string()),
        ("ULUS10041".to_string(), "ULUS10041".to_string()),
    ];
    assert_eq!(find_pspemu_entry(&entries, "ULUS10041"), Some(2));
    assert_eq!(find_pspemu_entry(&entries, "ulus10336"), Some(0));
    assert_eq!(find_pspemu_entry(&entries, "npuz00001"), Some(1));
    assert_eq!(find_pspemu_entry(&entries, "PCSE00001"), None);
}

#[test]
fn stereo_is_folded_to_mono() {
    let w = WavSound { sample_rate: 44100, channels: 2, samples: vec![100, 200, -3, -4, 32767, 32767, -32768, -32768, 7] };
    assert_eq!(w.downmix_mono(), vec![150, -3, 32767, -32768, 3]);
    let m = WavSound { sample_rate: 48000, channels: 0, samples: vec![1, -2, 3] };
    assert_eq!(m.downmix_mono(), vec![1, -2, 3]);
}

#[test]
fn chunked_bodies_are_read_piece_by_piece() {
    assert_eq!(parse_hex("1aF", u64::MAX), Some(0x1AF));
    assert_eq!(parse_hex("+10", u64::MAX), Some(16));
    assert_eq!(parse_hex("", u64::MAX), None);
    assert_eq!(parse_hex("1g", u64::MAX), None);
    assert_eq!(parse_hex("100", 255), None);
    assert_eq!(parse_chunk_size(b" 1A ;ext=1"), Some(26));
    assert_eq!(parse_chunk_size(b"zz"), None);
    let body = b"4\r\nWiki\r\n5\r\npedia\r\n0\r\n\r\n";
    assert_eq!(chunk_step(body, 0, 100), ChunkStep::Chunk { data_start: 3, size: 4, next: 9 });
    assert_eq!(chunk_step(&body[9..], 4, 100), ChunkStep::Chunk { data_start: 3, size: 5, next: 10 });
    assert_eq!(chunk_step(&body[19..], 9, 100), ChunkStep::Done);
    assert_eq!(chunk_step(&body[..7], 0, 100), ChunkStep::NeedMore);
    assert_eq!(chunk_step(b"4", 0, 100), ChunkStep::NeedMore);
    assert_eq!(chunk_step(body, 98, 100), ChunkStep::TooLarge);
    assert_eq!(chunk_step(b"x\r\n", 0, 100), ChunkStep::BadSize);
}

#[test]
fn vita_app_folders_are_selected_once_each() {
    let found = vec![
        (0, "PCSE00001".to_string()),
        (0, "VITADECK1".to_string()),
        (0, "SHORT".to_string()),
        (1, "PCSE00001".to_string()),
        (1, "NPUG00002".to_string()),
        (2, "ÀBCDEFGH".to_string()),
        (2, "ÀBCDEFG".to_string()),
    ];
    let picked = select_vita_apps(&found);
    assert_eq!(
        picked,
        vec![(0, "PCSE00001".to_string()), (1, "NPUG00002".to_string()), (2, "ÀBCDEFGH".to_string())]
    );
}

#[test]
fn vita_app_identity_combines_the_rules() {
    let id = vita_app_identity("PCSE00001", Some("Gravity Rush".to_string()), Some("gd"), None, None, false, false);
    assert_eq!(id.system, System::Vita);
    assert_eq!(id.art_key, "PCSE00001");
    assert_eq!(id.title, "Gravity Rush");
    assert_eq!(id.is_game, None);
    let hidden = vita_app_identity("PCSE00001", None, None, None, Some(4), false, false);
    assert_eq!(hidden.is_game, Some(false));
    let hit = AppHit { art_key: "ULUS10041".to_string(), title: "Lumines".to_string(), system: System::Psp };
    let psp = vita_app_identity("NPUG00002", None, None, Some(&hit), None, true, false);
    assert_eq!(psp.system, System::Psp);
    assert_eq!(psp.art_key, "ULUS10041");
    assert_eq!(psp.title, "Lumines");
}

#[test]
fn chunked_bodies_are_decoded_as_far_as_they_go() {
    let mut pending = b"4\r\nWiki\r\n5\r\nped".to_vec();
    let mut body = Vec::new();
    assert_eq!(decode_chunks(&mut pending, &mut body, 100), ChunkStatus::NeedMore);
    assert_eq!(body, b"Wiki".to_vec());
    assert_eq!(pending, b"5\r\nped".to_vec());
    pending.extend_from_slice(b"ia\r\n0\r\n\r\n");
    assert_eq!(decode_chunks(&mut pending, &mut body, 100), ChunkStatus::Done);
    assert_eq!(body, b"Wikipedia".to_vec());
    let mut big = b"4\r\nWiki\r\n".to_vec();
    let mut out = Vec::new();
    assert_eq!(decode_chunks(&mut big, &mut out, 3), ChunkStatus::TooLarge);
    assert!(out.is_empty());
    let mut bad = b"zz\r\n".to_vec();
    assert_eq!(decode_chunks(&mut bad, &mut out, 100), ChunkStatus::BadSize);
}

#[test]
fn category_folders_are_listed_sorted_once() {
    let entries = vec![
        ("RPG".to_string(), true),
        ("ACTION".to_string(), true),
        ("ULUS10041".to_string(), false),
        ("._junk".to_string(), true),
    ];
    assert_eq!(
        category_children("ux0:pspemu/ISO", &entries),
        vec!["ux0:pspemu/ISO/ACTION".to_string(), "ux0:pspemu/ISO/RPG".to_string()]
    );
    let paths = vec!["b".to_string(), "a".to_string(), "b".to_string()];
    assert_eq!(sorted_unique(&paths), vec!["a".to_string(), "b".to_string()]);
}

#[test]
fn cleaning_a_rom_name_twice_changes_nothing() {
    for name in ["Final_Fantasy_(USA)[v1.2].iso", "  Crash ®  Team. Racing  .cso", "a.b.c", "(only tags)"] {
        let once = clean_rom_name(name);
        assert_eq!(clean_rom_name(&once), once);
    }
    assert_eq!(clean_rom_name("Final_Fantasy_(USA)[v1.2].iso"), "Final Fantasy");
}

#[test]
fn sanitizing_an_id_twice_changes_nothing() {
    for raw in ["ULUS-10041.iso", "ulus_10041", "abc", "pcse 00001.cso", "NPUG80114.ISO"] {
        if let Some(t) = sanitize_sony_title_id(raw) {
            assert_eq!(t.to_uppercase(), t);
            assert_eq!(sanitize_sony_title_id(&t), Some(t.clone()));
        }
    }
    assert_eq!(sanitize_sony_title_id("ULUS-10041.iso"), Some("ULUS10041".to_string()));
    assert_eq!(sanitize_sony_title_id("abc"), None);
}

#[test]
fn an_installed_app_becomes_a_library_entry() {
    let id = vita_app_identity("PCSE00001", Some("Gravity Rush".to_string()), None, None, None, false, false);
    let media = AppMedia { has_box_art: true, has_hero: false, has_logo: true, music_path: None, music_cached: true };
    let g = vita_app_game("PCSE00001".to_string(), id, media, "ux0:app/PCSE00001".to_string(), None);
    assert_eq!(g.title, "Gravity Rush");
    assert!(g.has_box_art && !g.has_hero && g.has_logo && g.music_resolved && g.has_bubble);
    assert_eq!(g.file_path, Some("ux0:app/PCSE00001".to_string()));
    assert!(g.cover_bytes.is_none());
}
