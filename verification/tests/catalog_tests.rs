use vitadeck::library::{boot_inf_text, launch_candidates, launch_uri};
use vitadeck::licensing::{create_fake_license, license_path};
use vitadeck::store::{catalog_source, download_plan, etag_of, CatalogSource, DownloadError, DownloadQueue, DownloadStep};
use vitadeck::cache_manager::{
    build_valid_keys, compute_cache_stats, format_bytes, order_oldest_first, BudgetEviction, CacheFile, CacheKind,
};
use vitadeck::collections::Collections;
use vitadeck::library::{
    build_tab_order, canonical_store_region, contains_ignore_case, filter_games, filter_store_games,
    store_item_matches_regions, system_sort_key, tab_token, to_ms0_path, TabTarget,
};
use vitadeck::recent::RecentlyPlayed;
use vitadeck::scanner::{Game, System};
use vitadeck::store::{
    absolute_url, cover_url_for_title_id, filter_items, force_format, normalize_title_id, LoadedCatalog, StoreItem,
    StoreManager,
};

fn game(title_id: &str, title: &str, system: System) -> Game {
    Game {
        title_id: title_id.to_string(),
        art_key: title_id.to_string(),
        title: title.to_string(),
        system,
        cover_bytes: None,
        hero_bytes: None,
        logo_bytes: None,
        has_box_art: true,
        has_hero: true,
        has_logo: true,
        is_game: Some(true),
        music_path: None,
        music_resolved: false,
        has_bubble: true,
        file_path: None,
    }
}

fn item(title_id: &str, name: &str, region: Option<&str>, url: &str) -> StoreItem {
    StoreItem {
        title_id: Some(title_id.to_string()),
        content_id: None,
        name: name.to_string(),
        author: None,
        category: String::new(),
        kind: String::new(),
        download_url: url.to_string(),
        zrif: None,
        size: None,
        region: region.map(|r| r.to_string()),
        version: None,
        cover_url: None,
        icon_url: None,
        icon_hash: None,
        background_url: None,
        screenshot_urls: Vec::new(),
        description: None,
    }
}

#[test]
fn test_format_bytes() {
    assert_eq!(format_bytes(500), "500 B");
    assert_eq!(format_bytes(1024), "1 KB");
    assert_eq!(format_bytes(10 * 1024 * 1024), "10.0 MB");
    assert_eq!(format_bytes(2 * 1024 * 1024 * 1024), "2.0 GB");
}

#[test]
fn format_bytes_rounds_like_float_formatting() {
    assert_eq!(format_bytes(0), "0 B");
    assert_eq!(format_bytes(1023), "1023 B");
    for b in [1536u64, 2560, 3584, 1_047_552] {
        assert_eq!(format_bytes(b), format!("{:.0} KB", b as f64 / 1024.0));
    }
    assert_eq!(format_bytes(1048575), "1024 KB");
    assert_eq!(format_bytes(1572864), "1.5 MB");
    assert_eq!(format_bytes(1073741823), "1024.0 MB");
    assert_eq!(format_bytes(1610612736), "1.5 GB");
    assert_eq!(format_bytes(u64::MAX), format!("{:.1} GB", u64::MAX as f64 / 1_073_741_824.0));
    for b in [1_100_000u64, 5_368_709, 1_101_004, 123_456_789, 3_333_333_333, 987_654_321_000, 1_181_116_006, (1u64 << 60) + 12345] {
        let expected = if b >= 1_073_741_824 {
            format!("{:.1} GB", b as f64 / 1_073_741_824.0)
        } else {
            format!("{:.1} MB", b as f64 / 1_048_576.0)
        };
        assert_eq!(format_bytes(b), expected);
    }
}

#[test]
fn test_build_valid_keys() {
    let games = vec![game("PCSA00001", "Persona 4 Golden", System::Vita)];
    let keys = build_valid_keys(&games);
    assert!(keys.contains("pcsa00001"));
    assert!(keys.contains("persona 4 golden"));
    assert!(!keys.contains("random_game"));
}

#[test]
fn valid_keys_include_file_safe_titles() {
    let games = vec![game("PCSA00002", "Who? Me: A/B", System::Vita)];
    let keys = build_valid_keys(&games);
    assert!(keys.contains("who_ me_ a_b"));
    assert!(keys.contains("who? me: a/b"));
}

#[test]
fn cache_stats_count_orphans() {
    let games = vec![game("PCSA00001", "Persona 4 Golden", System::Vita)];
    let files = vec![
        CacheFile { kind: CacheKind::Covers, path: "a".into(), size: 100, modified: 3, stem_lower: "pcsa00001".into() },
        CacheFile { kind: CacheKind::Hero, path: "b".into(), size: 50, modified: 1, stem_lower: "old_game".into() },
        CacheFile { kind: CacheKind::Music, path: "c".into(), size: 7, modified: 2, stem_lower: "persona 4 golden".into() },
    ];
    let st = compute_cache_stats(&games, &files);
    assert_eq!(st.covers_bytes, 100);
    assert_eq!(st.hero_bytes, 50);
    assert_eq!(st.logo_bytes, 0);
    assert_eq!(st.music_bytes, 7);
    assert_eq!(st.total_bytes, 157);
    assert_eq!(st.orphan_count, 1);
    assert_eq!(st.orphan_bytes, 50);
}

#[test]
fn budget_eviction_and_oldest_first() {
    assert!(BudgetEviction::start(500, 0).is_none());
    assert!(BudgetEviction::start(1024 * 1024, 1).is_none());
    let mut e = BudgetEviction::start(3 * 1024 * 1024, 1).unwrap();
    assert!(e.over_budget());
    e.removed(1024 * 1024);
    assert!(e.over_budget());
    e.removed(1024 * 1024);
    assert!(!e.over_budget());
    assert_eq!(e.freed_bytes, 2 * 1024 * 1024);

    let mut files = vec![
        CacheFile { kind: CacheKind::Covers, path: "new".into(), size: 1, modified: 30, stem_lower: "x".into() },
        CacheFile { kind: CacheKind::Covers, path: "old".into(), size: 1, modified: 10, stem_lower: "y".into() },
        CacheFile { kind: CacheKind::Covers, path: "mid".into(), size: 1, modified: 20, stem_lower: "z".into() },
    ];
    order_oldest_first(&mut files);
    let order: Vec<&str> = files.iter().map(|f| f.path.as_str()).collect();
    assert_eq!(order, vec!["old", "mid", "new"]);
}

#[test]
fn files_of_the_same_age_keep_their_order() {
    let file = |path: &str, modified: u128| CacheFile {
        kind: CacheKind::Music,
        path: path.into(),
        size: 1,
        modified,
        stem_lower: path.into(),
    };
    let mut files = vec![file("b", 20), file("a", 10), file("c", 20), file("d", 10), file("e", 5)];
    order_oldest_first(&mut files);
    let order: Vec<&str> = files.iter().map(|f| f.path.as_str()).collect();
    assert_eq!(order, vec!["e", "a", "d", "b", "c"]);
}

#[test]
fn loaded_catalog_builds_games_and_case_insensitive_index() {
    let it = item("PCSE00001", "Test", Some("US"), "https://example.com/game");
    let catalog = LoadedCatalog::new(vec![it]);
    assert_eq!(catalog.games.len(), 1);
    assert_eq!(catalog.index_get("PCSE00001"), Some(0));
    assert_eq!(normalize_title_id(" pcse00001 "), "PCSE00001");
}

#[test]
fn large_catalog_is_fully_indexed_before_delivery() {
    let items: Vec<StoreItem> = (0..4_000)
        .map(|index| {
            item(
                &format!("PCSE{index:05}"),
                &format!("Game {index}"),
                Some("US"),
                &format!("https://example.com/{index}"),
            )
        })
        .collect();
    let catalog = LoadedCatalog::new(items);
    assert_eq!(catalog.games.len(), 4_000);
    assert_eq!(catalog.index_len(), 4_000);
    assert_eq!(catalog.index_get("PCSE03999"), Some(3_999));
}

#[test]
fn store_manager_delivers_and_looks_up_titles() {
    let mut m = StoreManager::new();
    assert!(m.loading);
    assert!(m.deliver(None).is_none());
    assert!(!m.loading);
    let catalog = LoadedCatalog::new(vec![
        item("PCSE00001", "One", None, "u1"),
        item("pcsb00002", "Two", None, "u2"),
    ]);
    let games = m.deliver(Some(catalog)).unwrap();
    assert_eq!(games.len(), 2);
    assert_eq!(m.index_by_title_id("PCSE00001"), Some(0));
    assert_eq!(m.index_by_title_id(" pcsb00002 "), Some(1));
    assert_eq!(m.item_by_title_id("pcse00001").map(|i| i.name.as_str()), Some("One"));
    assert!(m.item_by_title_id("PCSA09999").is_none());
    assert_eq!(m.to_games().len(), 2);
}

#[test]
fn store_region_filter_supports_multiple_regions_and_all() {
    let it = item("PCSE00001", "Test", Some("US"), "https://example.com/game");
    assert!(store_item_matches_regions(&it, &[]));
    assert!(store_item_matches_regions(&it, &["EU".to_owned(), "US".to_owned()]));
    assert!(!store_item_matches_regions(&it, &["JP".to_owned(), "ASIA".to_owned()]));
}

#[test]
fn store_region_filter_accepts_catalog_region_names() {
    let selected = ["US".to_owned()];
    for region in ["US", "USA", "United States", "North America"] {
        let it = item("PCSE00001", "Test", Some(region), "https://example.com/game");
        assert!(store_item_matches_regions(&it, &selected), "{region}");
    }
}

#[test]
fn canonical_regions() {
    assert_eq!(canonical_store_region("Europe/PAL"), Some("EU"));
    assert_eq!(canonical_store_region("japan"), Some("JP"));
    assert_eq!(canonical_store_region("Korea"), Some("ASIA"));
    assert_eq!(canonical_store_region("worldwide"), Some("INT"));
    assert_eq!(canonical_store_region("   "), None);
    assert_eq!(canonical_store_region("Mars"), None);
    let untagged = item("PCSE00001", "Test", None, "u");
    assert!(store_item_matches_regions(&untagged, &["JP".to_owned()]));
}

#[test]
fn urls_are_made_absolute_with_forced_formats() {
    assert_eq!(absolute_url("/api/v1/images/cover/X"), "https://vitaforge.josephinoo.dev/api/v1/images/cover/X?format=jpeg");
    assert_eq!(absolute_url(" a/b.png "), "https://vitaforge.josephinoo.dev/a/b.png");
    assert_eq!(
        force_format("https://h/images/icon/1?size=s&format=jpeg&x=1"),
        "https://h/images/icon/1?size=s&format=png&x=1"
    );
    assert_eq!(force_format("https://h/images/cover/1?format=webp"), "https://h/images/cover/1?format=jpeg");
    assert_eq!(force_format("https://h/scraped_assets/images/1.png"), "https://h/scraped_assets/images/1.png");
    assert_eq!(
        cover_url_for_title_id(" pcse00001 "),
        Some("https://vitaforge.josephinoo.dev/api/v1/images/cover/PCSE00001?size=large&format=jpeg".to_string())
    );
    assert_eq!(cover_url_for_title_id("PCSE-0001"), None);
}

#[test]
fn item_resolved_urls() {
    let mut it = item("PCSE00001", "Test", None, "u");
    it.screenshot_urls = vec!["  ".into(), "/s1.jpg".into(), "https://x/s2.jpg".into()];
    it.icon_hash = Some("default".into());
    it.icon_url = Some("/icon.png".into());
    assert!(!it.has_valid_icon());
    assert_eq!(it.resolved_icon_url(), None);
    assert_eq!(it.resolved_cover_url(), Some("https://vitaforge.josephinoo.dev/s1.jpg".to_string()));
    assert_eq!(it.resolved_screenshot_urls().len(), 2);
    it.description = Some("  hi ".into());
    assert_eq!(it.description_text(), Some("hi".to_string()));
}

#[test]
fn catalogue_filter_keeps_vita_games_once_sorted_by_name() {
    let mut psp = item("ULUS10041", "A PSP game", None, "u");
    psp.kind = "psp_game".into();
    let items = vec![
        item("PCSE00002", "zeta", None, "u"),
        item("PCSE00001", "Alpha", None, "u"),
        item("pcse00001", "Alpha again", None, "u"),
        item("PCSE00003", "Beta (PSP)", None, "u"),
        item("PCSE00004", "No url", None, ""),
        psp,
    ];
    let kept = filter_items(items);
    let names: Vec<&str> = kept.iter().map(|i| i.name.as_str()).collect();
    assert_eq!(names, vec!["Alpha", "zeta"]);
}

#[test]
fn saved_tab_order_is_restored_and_stale_entries_are_ignored() {
    let mut collections = Collections::with_defaults();
    assert!(collections.create("HOMEBREW"));
    let saved = vec![
        "store".to_owned(),
        "collection:HOMEBREW".to_owned(),
        "collection:DELETED".to_owned(),
        "all".to_owned(),
    ];
    let targets = build_tab_order(&collections, &saved);
    assert_eq!(targets[0], TabTarget::Store);
    assert_eq!(targets[1], TabTarget::Collection("HOMEBREW".to_owned()));
    assert_eq!(targets[2], TabTarget::All);
    assert_eq!(targets.len(), 8);
    assert_eq!(tab_token(&targets[1]), "collection:HOMEBREW");
}

#[test]
fn search_and_tabs_filter_games() {
    assert!(contains_ignore_case("Persona 4 Golden", "golden"));
    assert!(contains_ignore_case("anything", ""));
    assert!(!contains_ignore_case("ab", "abc"));
    assert_eq!(system_sort_key(System::Psx), 2);

    let games = vec![
        game("PCSE00001", "Vita One", System::Vita),
        game("ULUS00002", "Psp Two", System::Psp),
        game("SLUS00003", "Ps1 Three", System::Psx),
    ];
    let store_games = vec![game("PCSE00009", "Store Game", System::Vita), game("PCSE00010", "Other", System::Vita)];
    let store = StoreManager::new();
    let mut collections = Collections::with_defaults();
    collections.toggle(0, "ULUS00002");
    let recent = RecentlyPlayed::from_text("SLUS00003\nMISSING\nPCSE00001\n");

    let all = filter_games(&games, &store_games, &store, &collections, &recent, Some(&TabTarget::All), "", &[]);
    assert_eq!(all, vec![0, 1, 2]);
    let psp = filter_games(&games, &store_games, &store, &collections, &recent, Some(&TabTarget::Psp), "", &[]);
    assert_eq!(psp, vec![1]);
    let rec = filter_games(&games, &store_games, &store, &collections, &recent, Some(&TabTarget::Recent), "", &[]);
    assert_eq!(rec, vec![2, 0]);
    let fav = filter_games(
        &games,
        &store_games,
        &store,
        &collections,
        &recent,
        Some(&TabTarget::Collection("favorites".into())),
        "",
        &[],
    );
    assert_eq!(fav, vec![1]);
    let shop = filter_games(&games, &store_games, &store, &collections, &recent, Some(&TabTarget::Store), " STORE ", &[]);
    assert_eq!(shop, vec![0]);
    let none = filter_games(&games, &store_games, &store, &collections, &recent, None, "", &[]);
    assert!(none.is_empty());
    assert_eq!(filter_store_games(&store_games, &store, "", &["US".to_owned()]), vec![0, 1]);
}

#[test]
fn ms0_paths() {
    assert_eq!(to_ms0_path("ux0:pspemu/ISO/game.iso"), Some("ms0:/ISO/game.iso".to_string()));
    assert_eq!(to_ms0_path("ux0:data\\pspemu\\PSP\\GAME\\X\\EBOOT.PBP"), Some("ms0:/PSP/GAME/X/EBOOT.PBP".to_string()));
    assert_eq!(to_ms0_path("ux0:app/PCSE00001"), None);
}

#[test]
fn catalogue_source_and_version_tags() {
    assert_eq!(etag_of("  abc \n"), Some("abc".to_string()));
    assert_eq!(etag_of(" \n"), None);
    let a = Some("abc".to_string());
    let b = Some("abd".to_string());
    assert_eq!(catalog_source(&a, &a, true), CatalogSource::Cache);
    assert_eq!(catalog_source(&a, &b, true), CatalogSource::Download);
    assert_eq!(catalog_source(&a, &None, true), CatalogSource::Download);
    assert_eq!(catalog_source(&None, &b, true), CatalogSource::Cache);
    assert_eq!(catalog_source(&None, &None, false), CatalogSource::Download);
    assert_eq!(catalog_source(&a, &a, false), CatalogSource::Download);
}

#[test]
fn item_size_in_bytes() {
    let mut it = item("PCSE00001", "Game", None, "http://x/a.pkg");
    it.size = Some(" 1500000 ".to_string());
    assert_eq!(it.size_bytes(), Some(1_500_000));
    it.size = Some("12a".to_string());
    assert_eq!(it.size_bytes(), None);
    it.size = Some("  ".to_string());
    assert_eq!(it.size_bytes(), None);
    it.size = None;
    assert_eq!(it.size_bytes(), None);
}

#[test]
fn launch_texts_and_candidates() {
    assert_eq!(boot_inf_text("ms0:/ISO/a.iso"), "PATH=ms0:/ISO/a.iso\nDRIVER=INFERNO\nEXECUTE=EBOOT.BIN\n");
    assert_eq!(launch_uri("PCSE00001"), "psgm:play?titleid=PCSE00001");
    assert_eq!(license_path("UP0001-PCSE00001_00-0000000000000000"), "ux0:license/app/UP0001-PCSE00001_00-0000000000000000.rif");
    let vita = game("PCSE00001", "Vita Game", System::Vita);
    assert_eq!(launch_candidates(&vita, Vec::new()), Some(vec!["PCSE00001".to_string()]));
    let mut psp = game("ULUS10041", "Lumines", System::Psp);
    psp.has_bubble = false;
    assert_eq!(launch_candidates(&psp, vec!["PSPEMUCFW".to_string()]), None);
    psp.file_path = Some("ux0:pspemu/ISO/lumines.iso".to_string());
    assert_eq!(launch_candidates(&psp, Vec::new()), None);
    assert_eq!(
        launch_candidates(&psp, vec!["PSPEMUCFW".to_string(), "ADRLAUNCH".to_string()]),
        Some(vec!["PSPEMUCFW".to_string(), "ADRLAUNCH".to_string()])
    );
    psp.has_bubble = true;
    assert_eq!(launch_candidates(&psp, Vec::new()), Some(vec!["ULUS10041".to_string()]));
}

#[test]
fn downloads_are_planned_and_queued_once() {
    assert!(matches!(download_plan(None, "PCSE00001", None), Err(DownloadError::NotInCatalog)));
    let it = item("PCSB00002", "Game", Some("eu"), "https://x/y");
    let plan = download_plan(Some(&it), "PCSB00002", None).unwrap();
    assert_eq!(plan.name, "Game");
    assert_eq!(plan.url, "https://x/y");
    assert_eq!(plan.content_id, "EP0001-PCSB00002_00-0000000000000000");
    assert_eq!(plan.license, Some(create_fake_license("EP0001-PCSB00002_00-0000000000000000")));
    let with_key = download_plan(Some(&it), "PCSB00002", Some(vec![7, 8])).unwrap();
    assert_eq!(with_key.license, Some(vec![7, 8]));
    let mut nameless = item("", "Nameless", None, "https://x/y");
    nameless.title_id = None;
    assert!(matches!(download_plan(Some(&nameless), "", None), Err(DownloadError::License(_))));
    let mut q = DownloadQueue::new();
    assert!(!q.is_queued("pcsb00002"));
    q.mark_queued(" pcsb00002 ");
    assert!(q.is_queued("PCSB00002"));
    assert!(!q.is_queued("PCSB00003"));
}

#[test]
fn absolute_urls_are_stable() {
    assert_eq!(
        absolute_url("/images/icon/x.png"),
        "https://vitaforge.josephinoo.dev/images/icon/x.png?format=png"
    );
    assert_eq!(absolute_url("covers/a.jpg"), "https://vitaforge.josephinoo.dev/covers/a.jpg");
    for path in ["/images/icon/x.png", "covers/a.jpg", " /images/hero/b.png?size=l ", "https://x/images/c", ""] {
        let once = absolute_url(path);
        assert_eq!(absolute_url(&once), once);
    }
}

#[test]
fn a_queued_title_is_not_started_again() {
    let it = item("PCSB00002", "Game", Some("eu"), "https://x/y");
    let mut q = DownloadQueue::new();
    match q.request(Some(&it), "PCSB00002", None) {
        DownloadStep::Start(plan) => assert_eq!(plan.content_id, "EP0001-PCSB00002_00-0000000000000000"),
        _ => panic!("expected a plan"),
    }
    q.mark_queued("PCSB00002");
    assert!(matches!(q.request(Some(&it), " pcsb00002", None), DownloadStep::AlreadyQueued));
    assert!(matches!(q.request(None, "PCSE00009", None), DownloadStep::Failed(DownloadError::NotInCatalog)));
}
