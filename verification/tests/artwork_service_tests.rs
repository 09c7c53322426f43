use vitadeck::artwork::{
    detail_name, detail_result, has_art, image_kind, lookup_id, lookup_one_url, looks_like_mp3, merge_lookup,
    needs_search, query_title_ids, query_url, GameDetail, LookupResult, LookupTarget,
};
use vitadeck::scanner::System;

fn detail(id: Option<&str>, cleaned: Option<&str>, name: Option<&str>, cover: Option<&str>) -> GameDetail {
    GameDetail {
        title: None,
        name: name.map(|s| s.to_string()),
        cleaned_name: cleaned.map(|s| s.to_string()),
        title_id: id.map(|s| s.to_string()),
        platform: None,
        cover_path: cover.map(|s| s.to_string()),
        logos: Vec::new(),
        heroes: Vec::new(),
        musics: Vec::new(),
    }
}

fn result(title: Option<&str>, cover: Option<&str>, logo: Option<&str>) -> LookupResult {
    LookupResult {
        is_game: true,
        canonical_title: title.map(|s| s.to_string()),
        cover_url: cover.map(|s| s.to_string()),
        screenshot_url: None,
        logo_url: logo.map(|s| s.to_string()),
        music_url: None,
    }
}

#[test]
fn service_urls() {
    assert_eq!(lookup_one_url("http://api", "PCSE00001"), "http://api/api/games/PCSE00001");
    assert_eq!(
        query_url("http://api", "Gravity Rush (USA)", System::Vita),
        Some("http://api/api/games?q=Gravity%20Rush&platform=psv&limit=10".to_string())
    );
    assert_eq!(query_url("http://api", "  (USA) ", System::Psp), None);
}

#[test]
fn search_hits_are_filtered_by_name() {
    let details = vec![
        detail(Some(" ULUS10041 "), Some("Lumines"), None, None),
        detail(Some("ULUS10042"), None, Some("Other Game"), None),
        detail(None, Some("Lumines II"), None, None),
        detail(Some("ULUS10043"), None, None, None),
    ];
    let (matching, all) = query_title_ids(&details, "lumines");
    assert_eq!(matching, vec!["ULUS10041".to_string(), "ULUS10043".to_string()]);
    assert_eq!(all, vec!["ULUS10041".to_string(), "ULUS10042".to_string(), "ULUS10043".to_string()]);
    assert_eq!(detail_name(&details[1]), Some("Other Game".to_string()));
}

#[test]
fn service_details_become_lookups() {
    let d = detail(Some("X"), Some("  "), Some("Name"), Some("covers/x.jpg"));
    let r = detail_result(&d, "http://api", true, None, Some("l".to_string()), None);
    assert!(r.is_game);
    assert_eq!(r.canonical_title, None);
    assert_eq!(r.cover_url, Some("http://api/assets/covers/x.jpg".to_string()));
    assert_eq!(r.logo_url, Some("l".to_string()));
    let r = detail_result(&d, "http://api", false, None, None, None);
    assert_eq!(r.canonical_title, Some("  ".to_string()));
    let blank = detail(None, None, None, Some(" "));
    assert_eq!(detail_result(&blank, "http://api", true, None, None, None).cover_url, None);
}

#[test]
fn lookups_are_completed_by_searches() {
    assert!(needs_search(&None));
    assert!(needs_search(&Some(result(Some("A"), None, None))));
    assert!(!needs_search(&Some(result(None, Some("c"), None))));
    let merged = merge_lookup(Some(result(Some("A"), None, None)), result(Some("B"), Some("c"), Some("l")));
    assert_eq!(merged.canonical_title, Some("A".to_string()));
    assert_eq!(merged.cover_url, Some("c".to_string()));
    assert_eq!(merged.logo_url, Some("l".to_string()));
    assert_eq!(merge_lookup(None, result(Some("B"), None, None)).canonical_title, Some("B".to_string()));
    assert!(has_art(&result(None, None, Some("l"))));
    assert!(!has_art(&result(Some("A"), None, None)));
}

#[test]
fn lookup_ids_and_downloads() {
    let t = LookupTarget {
        art_key: "ulus-10041".to_string(),
        title_id: "NOTANID".to_string(),
        title: "Lumines".to_string(),
        system: System::Psp,
    };
    assert_eq!(lookup_id(&t), Some("ULUS10041".to_string()));
    assert_eq!(image_kind(b"\x89PNG\r\n\x1a\nrest"), Some(true));
    assert_eq!(image_kind(&[0xFF, 0xD8, 0xFF, 0]), Some(false));
    assert_eq!(image_kind(b"GIF89a"), None);
    assert!(looks_like_mp3(b"ID3\x04"));
    assert!(looks_like_mp3(&[0xFF, 0xFB, 0x90]));
    assert!(!looks_like_mp3(&[0xFF]));
    assert!(!looks_like_mp3(b"RIFF"));
}
