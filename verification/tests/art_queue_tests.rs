use vitadeck::art_queue::{
    art_jobs_budget, art_lookahead, job_cover_url, job_music_url, kept_games, library_art_window, library_keep_window,
    music_fetch_allowed, music_step, next_art_candidate, settle_music, store_art_window, MusicStep, StorePacer,
};
use vitadeck::art_queue::{tick_step, ArtReport, ArtState, TickAction, TickEvent, TickState, TitleArt};
use vitadeck::library::StoreDetailState;
use vitadeck::runtime::governor::MemoryPressure;
use vitadeck::store::StoreItem;

fn item(cover: Option<&str>) -> StoreItem {
    StoreItem {
        title_id: Some("PCSE00001".to_string()),
        content_id: None,
        name: "Game".to_string(),
        author: None,
        category: String::new(),
        kind: String::new(),
        download_url: String::new(),
        zrif: None,
        size: None,
        region: None,
        version: None,
        cover_url: cover.map(|c| c.to_string()),
        icon_url: None,
        icon_hash: None,
        background_url: None,
        screenshot_urls: Vec::new(),
        description: None,
    }
}

#[test]
fn art_budgets_shrink_under_pressure() {
    assert_eq!(art_lookahead(MemoryPressure::Normal), 10);
    assert_eq!(art_lookahead(MemoryPressure::Warning), 0);
    assert_eq!(art_jobs_budget(false, MemoryPressure::Normal), 2);
    assert_eq!(art_jobs_budget(true, MemoryPressure::Normal), 1);
    assert_eq!(art_jobs_budget(false, MemoryPressure::Warning), 2);
    assert_eq!(art_jobs_budget(true, MemoryPressure::Aggressive), 1);
    assert_eq!(art_jobs_budget(false, MemoryPressure::Emergency), 0);
}

#[test]
fn art_windows() {
    assert_eq!(library_art_window(0, 100, 10), (0, 14));
    assert_eq!(library_art_window(5, 8, 10), (3, 8));
    assert_eq!(store_art_window(0, 3, 10, 100), (0, 40));
    assert_eq!(store_art_window(4, 3, 0, 100), (18, 54));
    assert_eq!(store_art_window(4, 3, 0, 20), (18, 20));
    assert_eq!(store_art_window(4, 3, 0, 0), (0, 0));
    assert_eq!(library_keep_window(30, 100), (12, 49));
    assert_eq!(library_keep_window(2, 5), (0, 5));
    assert_eq!(library_keep_window(0, 0), (0, 1));
}

#[test]
fn next_candidate_is_the_first_needing_art() {
    let visible = vec![4, 2, 0, 1];
    let needs = vec![true, false, false, true, true];
    assert_eq!(next_art_candidate(&visible, &needs, 0, (1, 4), MemoryPressure::Normal), Some(0));
    assert_eq!(next_art_candidate(&visible, &needs, 0, (1, 2), MemoryPressure::Normal), None);
    assert_eq!(next_art_candidate(&visible, &needs, 0, (1, 4), MemoryPressure::Aggressive), Some(4));
    assert_eq!(next_art_candidate(&visible, &needs, 1, (0, 4), MemoryPressure::Emergency), None);
    assert_eq!(next_art_candidate(&[], &needs, 0, (0, 4), MemoryPressure::Normal), None);
}

#[test]
fn store_requests_wait_for_the_cursor_to_rest() {
    let mut p = StorePacer::new();
    assert!(!p.may_request(3, 100));
    assert!(!p.may_request(3, 111));
    assert!(p.may_request(3, 112));
    p.started(112);
    assert!(!p.may_request(3, 129));
    assert!(p.may_request(3, 130));
    assert!(!p.may_request(4, 200));
    p.leave();
    assert!(p.last_selected.is_none());
}

#[test]
fn job_urls() {
    let stable = job_cover_url(true, "pcse00001", Some(&item(Some("/c.png"))), None).unwrap();
    assert!(stable.ends_with("/api/v1/images/cover/PCSE00001?size=large&format=jpeg"));
    let from_item = job_cover_url(true, "bad id", Some(&item(Some("/c.png"))), None).unwrap();
    assert!(from_item.ends_with("/c.png"));
    assert_eq!(job_cover_url(true, "bad id", Some(&item(None)), Some("k".to_string())), Some("k".to_string()));
    assert_eq!(job_cover_url(false, "PCSE00001", None, Some("k".to_string())), Some("k".to_string()));
    assert_eq!(job_music_url(false, true, false, false, Some("m".to_string())), Some("m".to_string()));
    assert_eq!(job_music_url(true, true, false, false, Some("m".to_string())), None);
    assert_eq!(job_music_url(false, false, false, false, Some("m".to_string())), None);
    assert_eq!(job_music_url(false, true, true, false, Some("m".to_string())), None);
    assert_eq!(job_music_url(false, true, false, true, Some("m".to_string())), None);
}

#[test]
fn kept_games_by_index() {
    assert_eq!(kept_games(&[3, 0, 9, 1], 1, 4, 4), vec![true, true, false, false]);
    assert_eq!(kept_games(&[3, 0, 2], 0, 10, 4), vec![true, false, true, true]);
}

#[test]
fn music_follows_a_resting_highlight() {
    assert_eq!(settle_music(Some(1), Some(2), 9), (Some(2), 0));
    assert_eq!(settle_music(Some(2), Some(2), 9), (Some(2), 10));
    assert_eq!(settle_music(Some(2), Some(2), 19), (Some(2), 19));
    assert_eq!(music_step(false, false, false, Some(1), 18, true, Some("a.mp3".to_string())), MusicStep::Play("a.mp3".to_string()));
    assert_eq!(music_step(false, false, false, Some(1), 18, true, None), MusicStep::Fetch(1));
    assert_eq!(music_step(false, false, false, Some(1), 17, true, None), MusicStep::Wait);
    assert_eq!(music_step(false, false, true, Some(1), 30, true, None), MusicStep::Stop);
    assert_eq!(music_step(false, false, false, None, 30, true, None), MusicStep::Stop);
    assert!(music_fetch_allowed(true, true, true, MemoryPressure::Normal, Some(10), 10, false));
    assert!(!music_fetch_allowed(true, true, true, MemoryPressure::Normal, Some(11), 10, false));
    assert!(!music_fetch_allowed(true, true, true, MemoryPressure::Warning, None, 10, false));
    assert!(!music_fetch_allowed(true, true, false, MemoryPressure::Normal, None, 10, false));
    assert!(!music_fetch_allowed(true, true, true, MemoryPressure::Normal, None, 10, true));
}

fn detail(n: usize) -> StoreDetailState {
    StoreDetailState {
        title_id: "PCSE00001".to_string(),
        screenshot_urls: (0..n).map(|i| format!("http://x/{i}.jpg")).collect(),
        screenshots: vec![None; n],
        pending: Vec::new(),
        lightbox: None,
        selected_shot: 0,
        hero_bytes: None,
        looking_up_heroes: true,
    }
}

#[test]
fn screenshots_are_fetched_nearest_first() {
    let mut d = detail(6);
    d.selected_shot = 3;
    assert_eq!(d.shot_order(), vec![3, 2, 4, 1, 5]);
    assert_eq!(d.shots_to_request(), vec![3, 2]);
    d.pending = vec![3];
    assert_eq!(d.shots_to_request(), vec![2]);
    d.shot_arrived(3, Some((true, vec![1])));
    assert!(d.pending.is_empty());
    assert!(d.screenshots[3].is_some());
    assert_eq!(d.shots_to_request(), vec![2, 4]);
    d.screenshots[0] = Some((false, vec![2]));
    d.release_far_shots();
    assert!(d.screenshots[0].is_none());
    assert!(d.screenshots[3].is_some());
    d.lightbox = Some(9);
    assert_eq!(d.shot_order(), vec![5, 4, 3]);
    assert!(detail(0).shot_order().is_empty());
    d.shot_arrived(-1, Some((true, vec![7])));
    assert_eq!(d.hero_bytes, Some((true, vec![7])));
}

#[test]
fn service_screenshots_fill_an_empty_page() {
    let mut d = detail(0);
    assert_eq!(d.heroes_found("PCSE00002", vec!["a".to_string()]), None);
    assert!(d.looking_up_heroes);
    assert_eq!(d.heroes_found("PCSE00001", vec!["a".to_string(), "b".to_string()]), Some("a".to_string()));
    assert!(!d.looking_up_heroes);
    assert_eq!(d.screenshots.len(), 2);
    assert_eq!(d.heroes_found("PCSE00001", vec!["c".to_string()]), None);
}

fn report(job_complete: bool, images_ok: bool, music: bool, failed: bool) -> ArtReport {
    ArtReport {
        job_complete,
        images_ok,
        music_downloaded: music,
        failed,
        store_discarded: false,
        selected: true,
    }
}

#[test]
fn tick_counts_art_results_and_ages_the_notice() {
    let s = TickState { frame: 100, in_flight: 2, dl_ok: 0, dl_fail: 0, notice_since: Some(0) };
    let (s1, a1) = tick_step(s, TickEvent::Frame);
    assert_eq!(s1.frame, 101);
    assert_eq!(s1.notice_since, Some(0));
    assert!(a1.is_empty());
    let (s2, a2) = tick_step(TickState { frame: 195, ..s1 }, TickEvent::Frame);
    assert_eq!(s2.notice_since, None);
    assert_eq!(a2, vec![TickAction::ClearNotice]);

    let pending = TitleArt { state: Some(ArtState::Pending), music_requested: true, retry_after: None };
    let (s3, a3) = tick_step(s, TickEvent::ArtResult(pending, report(true, true, false, false)));
    assert_eq!((s3.in_flight, s3.dl_ok, s3.dl_fail), (1, 1, 0));
    assert_eq!(
        a3,
        vec![TickAction::SetTitleArt(TitleArt { state: Some(ArtState::Done), music_requested: true, retry_after: None })]
    );
    let (s4, a4) = tick_step(s, TickEvent::ArtResult(pending, report(false, false, false, false)));
    assert_eq!((s4.in_flight, s4.dl_ok, s4.dl_fail), (2, 0, 1));
    assert_eq!(
        a4,
        vec![TickAction::SetTitleArt(TitleArt {
            state: Some(ArtState::Failed),
            music_requested: false,
            retry_after: Some(580)
        })]
    );
    let (_, a5) = tick_step(s, TickEvent::ArtResult(pending, report(true, false, true, false)));
    assert_eq!(a5.len(), 2);
    assert_eq!(a5[1], TickAction::ResetMusicSettle);
    let (s6, _) = tick_step(s, TickEvent::ArtResult(pending, report(true, false, false, true)));
    assert_eq!((s6.dl_ok, s6.dl_fail), (0, 1));
}
