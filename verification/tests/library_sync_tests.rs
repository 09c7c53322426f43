use vitadeck::artwork::LookupResult;
use vitadeck::config::{Config, LibrarySort};
use vitadeck::collections::Collections;
use vitadeck::library::{
    apply_lookup, art_mismatches, count_target, game_list_changed, is_title_installed, order_visible, refresh_scan_flags,
    reselect, tab_can_delete, TabTarget,
};
use vitadeck::recent::RecentlyPlayed;
use vitadeck::scanner::{Game, System};
use vitadeck::stats::{GameStats, GameStatsStore};

fn game(title_id: &str, title: &str, system: System) -> Game {
    Game {
        title_id: title_id.to_string(),
        art_key: title_id.to_string(),
        title: title.to_string(),
        system,
        cover_bytes: None,
        hero_bytes: None,
        logo_bytes: None,
        has_box_art: false,
        has_hero: false,
        has_logo: false,
        is_game: None,
        music_path: None,
        music_resolved: false,
        has_bubble: true,
        file_path: None,
    }
}

fn lookup(is_game: bool, canonical: Option<&str>) -> LookupResult {
    LookupResult {
        is_game,
        canonical_title: canonical.map(|s| s.to_string()),
        cover_url: None,
        screenshot_url: None,
        logo_url: None,
        music_url: None,
    }
}

#[test]
fn rescans_that_change_the_listing_are_noticed() {
    let a = vec![game("PCSE00001", "Alpha", System::Vita), game("ULUS10041", "Beta", System::Psp)];
    let mut b = a.clone();
    assert!(!game_list_changed(&a, &b));
    b[1].has_box_art = true;
    assert!(!game_list_changed(&a, &b));
    b[1].file_path = Some("ux0:pspemu/ISO/beta.iso".to_string());
    assert!(game_list_changed(&a, &b));
    assert!(game_list_changed(&a, &a[..1]));
}

#[test]
fn mismatched_art_is_found_by_key() {
    let old = vec![game("PCSE00001", "Gravity Rush", System::Vita), game("PCSE00002", "Tearaway", System::Vita)];
    let new = vec![
        game("PCSE00001", "Gravity Rush Remastered", System::Vita),
        game("PCSE00002", "Killzone Mercenary", System::Vita),
        game("PCSE00003", "New Game", System::Vita),
    ];
    assert_eq!(art_mismatches(&old, &new), vec![1]);
}

#[test]
fn scan_flags_are_refreshed_in_place() {
    let mut games = vec![game("A", "A", System::Vita), game("B", "B", System::Vita), game("C", "C", System::Vita)];
    let mut scanned = vec![game("A", "A", System::Vita), game("B", "B", System::Vita)];
    scanned[1].has_hero = true;
    scanned[1].music_path = Some("ux0:app/B/music.mp3".to_string());
    scanned[0].title = "renamed".to_string();
    refresh_scan_flags(&mut games, &scanned);
    assert!(games[1].has_hero);
    assert_eq!(games[1].music_path.as_deref(), Some("ux0:app/B/music.mp3"));
    assert_eq!(games[0].title, "A");
    assert!(!games[2].has_hero);
}

#[test]
fn service_titles_replace_id_titles() {
    let mut g = game("ULUS10041", "ULUS10041", System::Psp);
    assert!(apply_lookup(&mut g, &lookup(true, Some("Lumines"))));
    assert_eq!(g.title, "Lumines");
    assert_eq!(g.is_game, Some(true));

    let mut g = game("PCSE00001", "Rush", System::Vita);
    g.art_key = "GRAVITY".to_string();
    assert!(apply_lookup(&mut g, &lookup(false, Some("Gravity Rush"))));
    assert_eq!(g.title, "Gravity Rush");
    assert_eq!(g.is_game, None);

    let mut g = game("PCSE00001", "Gravity Rush", System::Vita);
    g.art_key = "GRAVITY".to_string();
    g.is_game = Some(false);
    assert!(!apply_lookup(&mut g, &lookup(true, Some("GR"))));
    assert_eq!(g.title, "Gravity Rush");
    assert_eq!(g.is_game, Some(false));

    let mut g = game("X", "crisis core.iso", System::Psp);
    g.art_key = "CRISIS".to_string();
    assert!(apply_lookup(&mut g, &lookup(true, Some(" "))));
    assert_eq!(g.title, " ");
}

#[test]
fn equal_sort_keys_keep_their_order() {
    let games = vec![
        game("PCSE00001", "Same", System::Vita),
        game("PCSE00002", "same", System::Psp),
        game("PCSE00003", "SAME", System::Vita),
        game("PCSE00004", "Other", System::Vita),
    ];
    let stats = GameStatsStore::from_pairs(vec![]);
    let mut config = Config::default();
    config.library_sort = LibrarySort::Name;
    assert_eq!(order_visible(vec![2, 0, 3, 1], &games, &stats, &config, false, false), vec![3, 2, 0, 1]);
    config.library_sort = LibrarySort::System;
    assert_eq!(order_visible(vec![1, 2, 0, 3], &games, &stats, &config, false, false), vec![3, 2, 0, 1]);
}

#[test]
fn local_tabs_drop_hidden_games_and_sort() {
    let games = vec![
        game("PCSE00001", "beta", System::Psp),
        game("PCSE00002", "Alpha", System::Vita),
        game("PCSE00003", "gamma", System::Vita),
        game("PCSE00004", "Delta", System::Psx),
    ];
    let stats = GameStatsStore::from_pairs(vec![
        ("PCSE00003".to_string(), GameStats { launch_count: 5, last_launched_at: 10 }),
        ("PCSE00001".to_string(), GameStats { launch_count: 2, last_launched_at: 30 }),
    ]);
    let mut config = Config::default();
    config.hidden_title_ids = vec!["pcse00004".to_string()];
    let visible = vec![3, 0, 1, 2, 9];
    assert_eq!(order_visible(visible.clone(), &games, &stats, &config, true, false), visible);
    assert_eq!(order_visible(visible.clone(), &games, &stats, &config, false, true), vec![0, 1, 2]);
    config.library_sort = LibrarySort::Name;
    assert_eq!(order_visible(visible.clone(), &games, &stats, &config, false, false), vec![1, 0, 2]);
    config.library_sort = LibrarySort::MostPlayed;
    assert_eq!(order_visible(visible.clone(), &games, &stats, &config, false, false), vec![2, 0, 1]);
    config.library_sort = LibrarySort::RecentlyPlayed;
    assert_eq!(order_visible(visible.clone(), &games, &stats, &config, false, false), vec![0, 2, 1]);
    config.library_sort = LibrarySort::System;
    assert_eq!(order_visible(visible, &games, &stats, &config, false, false), vec![1, 2, 0]);
}

#[test]
fn selection_follows_the_game() {
    assert_eq!(reselect(Some(7), &[3, 7, 9]), 1);
    assert_eq!(reselect(Some(8), &[3, 7, 9]), 0);
    assert_eq!(reselect(None, &[3, 7, 9]), 0);
    assert_eq!(reselect(Some(3), &[]), 0);
}

#[test]
fn tab_counts_and_deletable_tabs() {
    let mut games = vec![
        game("PCSE00001", "A", System::Vita),
        game("ULUS10041", "B", System::Psp),
        game("SLUS00001", "C", System::Psx),
        game("VITASHELL", "D", System::Vita),
    ];
    games[3].is_game = Some(false);
    let mut recent = RecentlyPlayed::new();
    recent.touch("missing");
    recent.touch(" ulus10041 ");
    let mut collections = Collections::with_defaults();
    assert!(collections.create("Mine"));
    let fav = collections.items.iter().position(|c| c.name.eq_ignore_ascii_case("favorites")).unwrap();
    collections.toggle(fav, "PCSE00001");
    assert_eq!(count_target(&TabTarget::All, &games, &recent, &collections, 7), 3);
    assert_eq!(count_target(&TabTarget::Vita, &games, &recent, &collections, 7), 1);
    assert_eq!(count_target(&TabTarget::Ps1, &games, &recent, &collections, 7), 1);
    assert_eq!(count_target(&TabTarget::Store, &games, &recent, &collections, 7), 7);
    assert_eq!(count_target(&TabTarget::Recent, &games, &recent, &collections, 7), 1);
    assert_eq!(count_target(&TabTarget::Collection("FAVORITES".to_string()), &games, &recent, &collections, 7), 1);
    assert_eq!(count_target(&TabTarget::Collection("nope".to_string()), &games, &recent, &collections, 7), 0);
    assert!(!tab_can_delete(Some(&TabTarget::Collection("Favorites".to_string())), &collections));
    assert!(tab_can_delete(Some(&TabTarget::Collection("MINE".to_string())), &collections));
    assert!(!tab_can_delete(Some(&TabTarget::All), &collections));
    assert!(!tab_can_delete(None, &collections));
    assert!(is_title_installed(&games, " pcse00001"));
    assert!(!is_title_installed(&games, "PCSE00002"));
}
