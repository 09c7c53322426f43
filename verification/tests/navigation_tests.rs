use vitadeck::audio::SoundEffect;
use vitadeck::config::LibraryView;
use vitadeck::library::{store_region_summary, tab_label, RegionSummary, TabTarget};
use vitadeck::navigation::{ime_outcome, AppCommand, ImeOutcome, InputCommand, Mode, NavAction, Navigator};

fn tabs() -> Vec<TabTarget> {
    vec![
        TabTarget::All,
        TabTarget::Vita,
        TabTarget::Store,
        TabTarget::Collection("Favorites".to_string()),
    ]
}

fn nav(visible: usize) -> Navigator {
    let mut n = Navigator::new(tabs(), LibraryView::CoverFlow, 2);
    n.cursor.visible_len = visible;
    n
}

#[test]
fn settings_round_trip_returns_to_the_tab() {
    let mut n = nav(5);
    n.handle_command(AppCommand::SelectTab(1));
    n.cursor.selected = 3;
    let a = n.handle_command(AppCommand::OpenSettings);
    assert_eq!(n.cursor.active_tab, 4);
    assert_eq!(a[0], NavAction::Play(SoundEffect::TabSwitch));
    let a = n.handle_command(AppCommand::OpenSettings);
    assert_eq!(a[0], NavAction::Play(SoundEffect::CloseModal));
    assert_eq!(n.cursor.active_tab, 1);
    assert_eq!(n.cursor.selected, 0);
}

#[test]
fn leaving_the_store_releases_its_art() {
    let mut n = nav(5);
    n.handle_command(AppCommand::SelectTab(2));
    let a = n.handle_command(AppCommand::TabNext);
    assert_eq!(
        a,
        vec![
            NavAction::Play(SoundEffect::TabSwitch),
            NavAction::ResetScroll,
            NavAction::DropStoreArt,
            NavAction::Refilter
        ]
    );
    assert_eq!(n.cursor.active_tab, 3);
    let a = n.handle_command(AppCommand::TabNext);
    assert_eq!(n.cursor.active_tab, 0);
    assert_eq!(a.len(), 3);
    n.handle_command(AppCommand::TabPrev);
    assert_eq!(n.cursor.active_tab, 3);
}

#[test]
fn organizer_moves_tabs_and_back_restores() {
    let mut n = nav(5);
    n.handle_command(AppCommand::ToggleSearch);
    assert_eq!(n.cursor.mode, Mode::TabOrganizer);
    let a = n.handle_command(AppCommand::TabNext);
    assert_eq!(a, vec![NavAction::SwapTabs(0, 1), NavAction::PersistTabOrder, NavAction::Play(SoundEffect::Navigate)]);
    assert_eq!(n.tabs[0], TabTarget::Vita);
    assert_eq!(n.tabs[1], TabTarget::All);
    assert_eq!(n.cursor.active_tab, 1);
    n.handle_command(AppCommand::Input(InputCommand::MoveLeft));
    assert_eq!(n.tabs, tabs());
    assert_eq!(n.cursor.active_tab, 0);
    let a = n.handle_command(AppCommand::Back);
    assert_eq!(a, vec![NavAction::Play(SoundEffect::CloseModal), NavAction::Refilter]);
    assert_eq!(n.cursor.mode, Mode::Browse);
}

#[test]
fn browse_moves_within_the_visible_games() {
    let mut n = nav(3);
    assert!(n.handle_command(AppCommand::Input(InputCommand::MoveLeft)).is_empty());
    n.handle_command(AppCommand::Input(InputCommand::MoveRight));
    n.handle_command(AppCommand::Input(InputCommand::MoveRight));
    assert_eq!(n.cursor.selected, 2);
    assert!(n.handle_command(AppCommand::Input(InputCommand::MoveRight)).is_empty());
    // Up and down only move in the list layout.
    assert!(n.handle_command(AppCommand::Input(InputCommand::MoveUp)).is_empty());
    n.handle_command(AppCommand::CycleLibraryView);
    assert_eq!(n.cursor.library_view, LibraryView::List);
    n.handle_command(AppCommand::Input(InputCommand::MoveUp));
    assert_eq!(n.cursor.selected, 1);
}

#[test]
fn store_grid_moves_by_rows() {
    let mut n = nav(20);
    n.handle_command(AppCommand::SelectTab(2));
    n.handle_command(AppCommand::Input(InputCommand::MoveDown));
    assert_eq!(n.cursor.selected, 6);
    n.cursor.selected = 17;
    n.handle_command(AppCommand::Input(InputCommand::MoveDown));
    assert_eq!(n.cursor.selected, 19);
    n.cursor.selected = 4;
    n.handle_command(AppCommand::Input(InputCommand::MoveUp));
    assert_eq!(n.cursor.selected, 0);
}

#[test]
fn confirm_dispatches_by_mode() {
    let mut n = nav(4);
    assert_eq!(n.handle_command(AppCommand::Confirm), vec![NavAction::Play(SoundEffect::Confirm), NavAction::LaunchSelected]);
    n.handle_command(AppCommand::SelectTab(2));
    assert_eq!(n.handle_command(AppCommand::Confirm), vec![NavAction::Play(SoundEffect::Confirm), NavAction::OpenStoreDetail]);
    n.store_detail_opened(3);
    assert_eq!(n.cursor.mode, Mode::StoreDetail);
    n.handle_command(AppCommand::Input(InputCommand::MoveRight));
    n.handle_command(AppCommand::OpenCollectionPicker);
    assert_eq!(n.cursor.detail.unwrap().lightbox, Some(1));
    n.handle_command(AppCommand::Back);
    assert_eq!(n.cursor.detail.unwrap().lightbox, None);
    assert_eq!(n.handle_command(AppCommand::Confirm), vec![NavAction::Play(SoundEffect::Confirm), NavAction::ConfirmStoreDetail]);
    n.download_confirm_opened();
    n.handle_command(AppCommand::Input(InputCommand::MoveRight));
    assert_eq!(n.cursor.download_choice, Some(1));
    assert_eq!(n.handle_command(AppCommand::Confirm), vec![NavAction::Play(SoundEffect::CloseModal)]);
    assert_eq!(n.cursor.download_choice, None);
    assert_eq!(n.handle_command(AppCommand::Quit), vec![NavAction::CloseStoreDetail]);
    assert_eq!(n.cursor.mode, Mode::Browse);
    assert_eq!(n.handle_command(AppCommand::Quit), vec![NavAction::Exit]);
}

#[test]
fn settings_rows_run_their_commands() {
    let mut n = nav(0);
    n.handle_command(AppCommand::OpenSettings);
    n.cursor.settings_selected = 2;
    assert_eq!(
        n.handle_command(AppCommand::Confirm),
        vec![
            NavAction::Play(SoundEffect::Confirm),
            NavAction::Play(SoundEffect::Confirm),
            NavAction::CycleLanguage,
            NavAction::RebuildTabs
        ]
    );
    for _ in 0..10 {
        n.handle_command(AppCommand::Input(InputCommand::MoveDown));
    }
    assert_eq!(n.cursor.settings_selected, 8);
    n.handle_command(AppCommand::Back);
    assert_eq!(n.cursor.active_tab, 0);
}

#[test]
fn rebuilt_and_removed_tabs_keep_a_valid_active_tab() {
    let mut n = nav(0);
    n.handle_command(AppCommand::SelectTab(3));
    let mut rebuilt = tabs();
    rebuilt.insert(0, TabTarget::Recent);
    n.tabs_rebuilt(rebuilt);
    assert_eq!(n.cursor.active_tab, 4);
    let a = n.active_tab_removed();
    assert_eq!(a, vec![NavAction::PersistTabOrder, NavAction::Refilter, NavAction::Play(SoundEffect::CloseModal)]);
    assert_eq!(n.tabs.len(), 4);
    assert_eq!(n.cursor.active_tab, 3);
    n.handle_command(AppCommand::OpenSettings);
    n.tabs_rebuilt(tabs());
    assert_eq!(n.cursor.active_tab, 0);
}

#[test]
fn remove_button_depends_on_the_tab() {
    let mut n = nav(2);
    assert_eq!(n.handle_command(AppCommand::RemoveFromCollection), vec![NavAction::ToggleSelectedFavorite]);
    n.handle_command(AppCommand::SelectTab(3));
    assert_eq!(
        n.handle_command(AppCommand::RemoveFromCollection),
        vec![NavAction::Play(SoundEffect::Confirm), NavAction::RemoveSelectedFromCollection]
    );
    n.handle_command(AppCommand::SelectTab(2));
    assert_eq!(n.handle_command(AppCommand::RemoveFromCollection), vec![NavAction::Play(SoundEffect::OpenModal)]);
    assert_eq!(n.cursor.mode, Mode::StoreFilters);
    n.cursor.picker_index = 3;
    assert_eq!(
        n.handle_command(AppCommand::Confirm),
        vec![
            NavAction::Play(SoundEffect::Confirm),
            NavAction::ToggleStoreRegion(1),
            NavAction::ResetScroll,
            NavAction::Refilter,
            NavAction::Play(SoundEffect::Confirm)
        ]
    );
}

#[test]
fn dialog_text_goes_where_it_was_asked_for() {
    assert_eq!(
        ime_outcome(Some("  New Name "), Some("PCSE00001"), true, false),
        ImeOutcome::Rename("PCSE00001".to_string(), "New Name".to_string())
    );
    assert_eq!(ime_outcome(Some(" Racing "), None, true, false), ImeOutcome::CreateCollection("Racing".to_string()));
    assert_eq!(ime_outcome(Some(" gravity "), None, false, true), ImeOutcome::Search("gravity".to_string()));
    assert_eq!(ime_outcome(Some("   "), None, false, false), ImeOutcome::ClearSearch);
    assert_eq!(ime_outcome(None, Some("X"), true, true), ImeOutcome::Cancelled { end_search: true });
    assert_eq!(ime_outcome(None, None, false, false), ImeOutcome::Cancelled { end_search: false });
}

fn english_tab_texts() -> vitadeck::library::TabTexts {
    vitadeck::library::TabTexts {
        all: "ALL".to_string(),
        recent: "RECENT".to_string(),
        store: "STORE".to_string(),
        favorites: "FAVORITES".to_string(),
    }
}

#[test]
fn tab_labels_use_translations_and_upper_case() {
    let t = english_tab_texts();
    assert_eq!(tab_label(&TabTarget::All, &t), "ALL");
    assert_eq!(tab_label(&TabTarget::Vita, &t), "PS VITA");
    assert_eq!(tab_label(&TabTarget::Psp, &t), "PSP");
    assert_eq!(tab_label(&TabTarget::Ps1, &t), "PS1");
    assert_eq!(tab_label(&TabTarget::Recent, &t), "RECENT");
    assert_eq!(tab_label(&TabTarget::Store, &t), "STORE");
    assert_eq!(tab_label(&TabTarget::Collection("favoritos".to_string()), &t), "FAVORITES");
    assert_eq!(tab_label(&TabTarget::Collection("FAVORITES".to_string()), &t), "FAVORITES");
    assert_eq!(tab_label(&TabTarget::Collection("Homebrew ñ".to_string()), &t), "HOMEBREW Ñ");
}

#[test]
fn store_region_summary_counts_regions() {
    assert_eq!(store_region_summary(&[]), RegionSummary::All);
    assert_eq!(store_region_summary(&["EU".to_string()]), RegionSummary::One("EU".to_string()));
    assert_eq!(store_region_summary(&["EU".to_string(), "US".to_string()]), RegionSummary::Count(2));
}
