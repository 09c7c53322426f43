use vitadeck::ime::decode_utf16_lossy;
use vitadeck::ime::{encode_utf16, ImeDialog, ImeResult};
use vitadeck::collections::Collections;
use vitadeck::config::{Config, LibrarySort, LibraryView};
use vitadeck::i18n::Locale;
use vitadeck::recent::RecentlyPlayed;
use vitadeck::stats::{GameStats, GameStatsStore};

#[test]
fn locale_cycles() {
    assert_eq!(Locale::ItIt.next(), Locale::EnUs);
}

#[test]
fn locale_cycle_returns_after_five_steps() {
    let mut l = Locale::FrFr;
    for _ in 0..5 {
        l = l.next();
    }
    assert_eq!(l, Locale::FrFr);
    assert_eq!(Locale::EnUs.next(), Locale::EsEs);
    assert_eq!(Locale::PtBr.tag(), "pt-BR");
    assert_eq!(Locale::default(), Locale::EnUs);
}

#[test]
fn launch_stats_are_normalized_and_monotonic() {
    let mut store = GameStatsStore::default();
    store.update_launch(" npug30038 ", 10);
    store.update_launch("NPUG30038", 20);
    assert_eq!(store.get("npug30038"), Some(&GameStats { launch_count: 2, last_launched_at: 20 }));
}

#[test]
fn stats_are_kept_per_title_and_record_launch_counts() {
    let mut store = GameStatsStore::default();
    store.record_launch("PCSE00001", 5);
    store.record_launch("pcsb00002", 7);
    store.record_launch("PCSE00001", 9);
    assert_eq!(store.get("PCSE00001"), Some(&GameStats { launch_count: 2, last_launched_at: 9 }));
    assert_eq!(store.get("PCSB00002"), Some(&GameStats { launch_count: 1, last_launched_at: 7 }));
    assert_eq!(store.get("PCSA00003"), None);
    let pairs = store.to_pairs();
    assert_eq!(pairs.len(), 2);
    let back = GameStatsStore::from_pairs(pairs);
    assert_eq!(back.get("pcse00001"), Some(&GameStats { launch_count: 2, last_launched_at: 9 }));
}

#[test]
fn stats_launch_count_saturates() {
    let mut pairs = Vec::new();
    pairs.push(("PCSE00001".to_string(), GameStats { launch_count: u32::MAX, last_launched_at: 1 }));
    let mut store = GameStatsStore::from_pairs(pairs);
    store.update_launch("PCSE00001", 2);
    assert_eq!(store.get("PCSE00001"), Some(&GameStats { launch_count: u32::MAX, last_launched_at: 2 }));
}

#[test]
fn config_defaults() {
    let c = Config::default();
    assert!(c.download_bgm);
    assert_eq!(c.cache_budget_mb, 150);
    assert!(c.store_regions.is_empty());
    assert_eq!(c.library_sort, LibrarySort::Name);
    assert_eq!(c.library_view, LibraryView::CoverFlow);
    assert_eq!(c.budget_label(), "150 MB");
}

#[test]
fn budget_options_cycle_and_labels() {
    let mut c = Config::default();
    let mut seen = Vec::new();
    for _ in 0..5 {
        c.next_budget_option();
        seen.push(c.cache_budget_mb);
    }
    assert_eq!(seen, vec![300, 0, 50, 100, 150]);
    c.cache_budget_mb = 0;
    assert_eq!(c.budget_label(), "budget-unlimited");
    c.cache_budget_mb = 77;
    assert_eq!(c.budget_label(), "budget-custom");
    c.next_budget_option();
    assert_eq!(c.cache_budget_mb, 300);
}

#[test]
fn scan_dirs_toggle_and_custom_dirs() {
    let mut c = Config::default();
    c.toggle_scan_dir("ux0:pspemu/ISO/CAT_PSP");
    assert_eq!(c.disabled_scan_dirs, vec!["ux0:pspemu/ISO/CAT_PSP".to_string()]);
    c.toggle_scan_dir("ux0:pspemu/ISO/CAT_PSP");
    assert!(c.disabled_scan_dirs.is_empty());

    assert!(c.add_custom_scan_dir("  uma0:\\games\\psp "));
    assert_eq!(c.custom_scan_dirs, vec!["uma0:/games/psp".to_string()]);
    assert!(!c.add_custom_scan_dir("UMA0:/GAMES/PSP"));
    assert!(!c.add_custom_scan_dir("   "));
    assert!(c.add_custom_scan_dir("imc0:/a"));
    assert_eq!(c.custom_scan_dirs, vec!["imc0:/a".to_string(), "uma0:/games/psp".to_string()]);
    assert!(!c.remove_custom_scan_dir(5));
    assert!(c.remove_custom_scan_dir(0));
    assert_eq!(c.custom_scan_dirs, vec!["uma0:/games/psp".to_string()]);
}

#[test]
fn store_regions_toggle_only_known_codes() {
    let mut c = Config::default();
    assert!(!c.toggle_store_region("MARS"));
    assert!(c.store_regions.is_empty());
    assert!(c.toggle_store_region("US"));
    assert!(c.toggle_store_region("EU"));
    assert_eq!(c.store_regions, vec!["EU".to_string(), "US".to_string()]);
    assert!(c.store_region_selected("US"));
    assert!(!c.store_region_selected("us"));
    assert!(c.toggle_store_region("US"));
    assert_eq!(c.store_regions, vec!["EU".to_string()]);
    assert!(c.clear_store_regions());
    assert!(!c.clear_store_regions());
}

#[test]
fn sort_and_view_cycle() {
    let mut c = Config::default();
    c.cycle_library_sort();
    assert_eq!(c.library_sort, LibrarySort::MostPlayed);
    c.cycle_library_sort();
    c.cycle_library_sort();
    c.cycle_library_sort();
    assert_eq!(c.library_sort, LibrarySort::Name);
    c.cycle_library_view();
    assert_eq!(c.library_view, LibraryView::List);
    assert_eq!(c.library_view.message_key(), "view-list");
    assert_eq!(LibrarySort::RecentlyPlayed.message_key(), "sort-recent");
}

#[test]
fn title_overrides_read_back_what_was_written() {
    let mut c = Config::default();
    c.set_title_override(" pcse00001 ", "  My Game ");
    assert_eq!(c.title_override("PCSE00001"), Some("My Game"));
    assert_eq!(c.title_override("pcse00001"), Some("My Game"));
    c.set_title_override("PCSE00001", "Other");
    assert_eq!(c.title_override("PCSE00001"), Some("Other"));
    assert_eq!(c.title_overrides.len(), 1);
    c.set_title_override("PCSE00001", "   ");
    assert_eq!(c.title_override("PCSE00001"), None);
}

#[test]
fn hidden_titles_toggle() {
    let mut c = Config::default();
    c.toggle_hidden_title(" pcse00002");
    assert!(c.title_is_hidden("PCSE00002"));
    assert!(c.title_is_hidden(" pcse00002 "));
    assert_eq!(c.hidden_title_ids, vec!["PCSE00002".to_string()]);
    c.toggle_hidden_title("PCSE00002");
    assert!(!c.title_is_hidden("PCSE00002"));
}

#[test]
fn loaded_config_gets_a_client_id_and_no_regions() {
    let mut c = Config::default();
    c.store_regions.push("US".to_string());
    assert!(c.normalize_loaded("vitadeck-abc".to_string()));
    assert_eq!(c.client_id, "vitadeck-abc");
    assert!(c.store_regions.is_empty());
    assert!(!c.normalize_loaded("vitadeck-xyz".to_string()));
    assert_eq!(c.client_id, "vitadeck-abc");
}

#[test]
fn collections_parse_and_write_back() {
    let text = "#Favorites\nPCSE00001\n\n#HOMEBREW\r\n VITASHELL \nPCSE00001\nstray\n";
    let c = Collections::from_text(text);
    assert_eq!(c.items.len(), 2);
    assert_eq!(c.items[0].name, "Favorites");
    assert!(c.contains(0, "PCSE00001"));
    assert!(c.contains(1, "VITASHELL"));
    assert!(c.contains(1, "stray"));
    assert!(!c.contains(2, "PCSE00001"));
    assert_eq!(c.to_text(), "#Favorites\nPCSE00001\n#HOMEBREW\nPCSE00001\nVITASHELL\nstray\n");
    let d = Collections::from_text("no header\n");
    assert_eq!(d.items.len(), 1);
    assert_eq!(d.items[0].name, "Favorites");
    assert!(d.items[0].title_ids.is_empty());
}

#[test]
fn collections_toggle_create_and_delete() {
    let mut c = Collections::with_defaults();
    assert!(c.toggle(0, "PCSE00001"));
    assert!(c.contains(0, "PCSE00001"));
    assert!(!c.toggle(0, "PCSE00001"));
    assert!(!c.contains(0, "PCSE00001"));
    assert!(!c.toggle(3, "PCSE00001"));
    assert!(c.create("  rpg "));
    assert_eq!(c.items[1].name, "RPG");
    assert!(!c.create("Rpg"));
    assert!(!c.create("   "));
    assert!(c.toggle(1, "PCSE00001"));
    assert!(c.toggle(0, "PCSE00001"));
    assert_eq!(c.memberships("PCSE00001"), vec!["Favorites", "RPG"]);
    assert!(c.remove(1, "PCSE00001"));
    assert!(!c.remove(1, "PCSE00001"));
    assert!(c.is_default(0));
    assert!(!c.is_default(1));
    assert!(!c.delete_custom(0));
    assert!(c.delete_custom(1));
    assert_eq!(c.items.len(), 1);
    assert!(!c.delete(4));
}

#[test]
fn recent_list_moves_played_title_to_front() {
    let mut r = RecentlyPlayed::from_text(" A \n\nB\nC\n");
    assert_eq!(r.order(), &["A".to_string(), "B".to_string(), "C".to_string()]);
    r.touch("C");
    assert_eq!(r.order(), &["C".to_string(), "A".to_string(), "B".to_string()]);
    r.touch("D");
    assert_eq!(r.order()[0], "D");
    assert_eq!(r.to_text(), "D\nC\nA\nB\n");
}

#[test]
fn recent_list_is_capped() {
    let mut r = RecentlyPlayed::new();
    for i in 0..40 {
        r.touch(&format!("T{i}"));
    }
    assert_eq!(r.order().len(), 30);
    assert_eq!(r.order()[0], "T39");
    assert_eq!(r.order()[29], "T10");
}

#[test]
fn ime_buffers_round_trip_text() {
    let mut d = ImeDialog::new();
    assert_eq!(encode_utf16("H\u{e9}\u{1F600}"), vec![0x48, 0xE9, 0xD83D, 0xDE00]);
    assert!(d.prepare("Rename", "H\u{e9}\u{1F600}", 64));
    assert_eq!(d.buffer.len(), 65);
    assert_eq!(&d.buffer[..5], &[0x48, 0xE9, 0xD83D, 0xDE00, 0]);
    assert_eq!(d.title.last(), Some(&0));
    d.opened();
    assert!(d.is_active());
    assert!(!d.prepare("Other", "x", 8));
    match d.finish(true) {
        ImeResult::Confirmed(t) => assert_eq!(t, "H\u{e9}\u{1F600}"),
        ImeResult::Canceled => panic!("expected text"),
    }
    assert!(!d.is_active());
    assert!(d.prepare("", "abcdef", 3));
    assert_eq!(d.buffer, vec![0x61, 0x62, 0x63, 0]);
    match d.finish(true) {
        ImeResult::Confirmed(t) => assert_eq!(t, "abc"),
        ImeResult::Canceled => panic!("expected text"),
    }
    assert!(matches!(d.finish(false), ImeResult::Canceled));
}

#[test]
fn collections_come_back_after_saving() {
    let mut c = Collections::with_defaults();
    assert!(c.create("Homebrew"));
    c.toggle(0, "PCSE00001");
    c.toggle(1, "VITASHELL");
    c.toggle(1, "PCSE00001");
    let loaded = Collections::from_text(&c.to_text());
    assert_eq!(loaded.items.len(), 2);
    for i in 0..2 {
        assert_eq!(loaded.items[i].name, c.items[i].name);
        assert_eq!(loaded.items[i].title_ids, c.items[i].title_ids);
    }
    assert_eq!(loaded.to_text(), c.to_text());
}

#[test]
fn recently_played_comes_back_after_saving() {
    let mut r = RecentlyPlayed::new();
    r.touch("PCSE00001");
    r.touch("SLUS00003");
    r.touch("VITASHELL");
    let loaded = RecentlyPlayed::from_text(&r.to_text());
    assert_eq!(loaded.order(), r.order());
    assert_eq!(loaded.order(), &["VITASHELL".to_string(), "SLUS00003".to_string(), "PCSE00001".to_string()]);
}

#[test]
fn collections_are_found_by_name_ignoring_case() {
    let mut c = Collections::from_text("#Homebrew\n#favoritos\nPCSE00001\n#Favorites\n");
    assert_eq!(c.index_by_name("HOMEBREW"), Some(0));
    assert_eq!(c.index_by_name("Favorites"), Some(2));
    assert_eq!(c.index_by_name("missing"), None);
    assert_eq!(c.favorites_index(), Some(1));
    c = Collections::from_text("#Homebrew\n");
    assert_eq!(c.favorites_index(), None);
}

#[test]
fn stats_read_from_storage_keep_the_last_pair_per_title() {
    let s = GameStatsStore::from_pairs(vec![
        (" pcse00001 ".to_string(), GameStats { launch_count: 1, last_launched_at: 5 }),
        ("PCSE00002".to_string(), GameStats { launch_count: 7, last_launched_at: 9 }),
        ("Pcse00001".to_string(), GameStats { launch_count: 3, last_launched_at: 8 }),
    ]);
    assert_eq!(s.get("PCSE00001"), Some(&GameStats { launch_count: 3, last_launched_at: 8 }));
    assert_eq!(s.get("pcse00002"), Some(&GameStats { launch_count: 7, last_launched_at: 9 }));
    assert_eq!(s.get("PCSE00003"), None);
}

#[test]
fn client_id_is_prefix_and_lower_case_hex() {
    let bytes: Vec<u8> = (0u8..16).map(|i| i * 17).collect();
    let id = vitadeck::config::client_id_from_bytes(&bytes);
    assert_eq!(id, "vitadeck-00112233445566778899aabbccddeeff");
    assert_eq!(id.len(), 9 + 32);
}

#[test]
fn utf16_is_decoded_as_std_does_it() {
    let samples: Vec<Vec<u16>> = vec![
        vec![],
        "héllo wörld".encode_utf16().collect(),
        "😀 emoji 🎮".encode_utf16().collect(),
        vec![0xD800],
        vec![0xDC00, 0x41],
        vec![0x41, 0xD83D, 0x42, 0xDE00],
        vec![0xD83D, 0xDE00, 0xDBFF, 0xDFFF, 0xFFFF],
    ];
    for s in samples {
        assert_eq!(decode_utf16_lossy(&s), String::from_utf16_lossy(&s));
    }
}
