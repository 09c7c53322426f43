use vstd::prelude::*;

use crate::audio::SoundEffect;
use crate::config::{view_next, LibraryView, STORE_REGION_COUNT};
use crate::library::{tab_token, tab_token_spec, TabTarget};
use crate::text::str_equal;

verus! {

/// What the launcher's screen is doing.
#[derive(Clone, Copy, PartialEq, Eq, Structural, Debug)]
pub enum Mode {
    Browse,
    CollectionPicker,
    StoreDetail,
    TabOrganizer,
    ScanFolders,
    StoreFilters,
    GameOptions,
}

/// A direction pressed on the pad.
#[derive(Clone, Copy, PartialEq, Eq, Structural, Debug)]
pub enum InputCommand {
    MoveLeft,
    MoveRight,
    MoveUp,
    MoveDown,
}

/// What the user asked for, from the pad, the touch screen or the UI.
#[derive(Clone, Copy, PartialEq, Eq, Structural, Debug)]
pub enum AppCommand {
    Input(InputCommand),
    TabPrev,
    TabNext,
    OpenSettings,
    SelectTab(usize),
    OpenCollectionPicker,
    OpenGameOptions,
    RenameSelectedGame,
    ToggleHideSelectedGame,
    RemoveFromCollection,
    CreateCollection,
    ToggleSearch,
    CycleLibrarySort,
    CycleLibraryView,
    SearchStore,
    OpenStoreFilters,
    ClearStoreRegions,
    ToggleStoreRegion(usize),
    SetDownloadChoice(usize),
    ConfirmDownload(bool),
    Confirm,
    Rescan,
    ToggleDownloadBgm,
    CycleLanguage,
    CycleCacheBudget,
    CleanOrphanCache,
    PurgeMusicCache,
    PurgeAllCache,
    TogglePickerRow(usize),
    OpenScanFolders,
    ToggleScanFolder(usize),
    AddCustomScanFolder,
    RemoveCustomScanFolder(usize),
    Back,
    SelectVisibleSlot(usize),
    Quit,
}

/// What the launcher must do after a command, in order; each names work
/// outside the navigation state (sound, files, dialogs, lists).
#[derive(Clone, Copy, PartialEq, Eq, Structural, Debug)]
pub enum NavAction {
    Play(SoundEffect),
    /// Rebuild the list of visible games.
    Refilter,
    /// Release the artwork of the store tab.
    DropStoreArt,
    ResetScroll,
    /// Swap the labels and counts of two tabs, as the targets were.
    SwapTabs(usize, usize),
    PersistTabOrder,
    OpenRenameDialog,
    ToggleHideSelected,
    DeleteActiveCustomTab,
    ToggleSelectedFavorite,
    RemoveSelectedFromCollection,
    OpenNewCollectionDialog,
    CycleLibrarySort,
    CycleLibraryView,
    OpenStoreSearchDialog,
    ClearStoreRegions,
    ToggleStoreRegion(usize),
    ExecuteDownload,
    Rescan,
    ToggleDownloadBgm,
    CycleLanguage,
    CycleCacheBudget,
    CleanOrphanCache,
    PurgeMusicCache,
    PurgeAllCache,
    TogglePickerRow(usize),
    DiscoverScanFolders,
    ToggleScanFolder(usize),
    CloseStoreDetail,
    ClearSearch,
    RebuildTabs,
    OpenStoreDetail,
    ConfirmStoreDetail,
    LaunchSelected,
    Exit,
}

/// Where the store detail page stands: how many screenshots it has, the
/// one shown full screen and the one highlighted.
#[derive(Clone, Copy, PartialEq, Eq, Structural, Debug)]
pub struct DetailCursor {
    pub shots: usize,
    pub lightbox: Option<usize>,
    pub selected_shot: usize,
}

/// The navigation state of the launcher, apart from its tabs.
#[derive(Clone, Copy, PartialEq, Eq, Structural, Debug)]
pub struct NavCursor {
    pub mode: Mode,
    /// The active tab; the settings tab comes after the last tab.
    pub active_tab: usize,
    pub tab_before_settings: usize,
    pub settings_selected: usize,
    pub picker_index: usize,
    /// The highlighted slot among the visible games.
    pub selected: usize,
    pub visible_len: usize,
    pub collection_rows: usize,
    pub scan_folder_rows: usize,
    pub library_view: LibraryView,
    /// The highlighted answer of the download question being asked.
    pub download_choice: Option<usize>,
    pub search_active: bool,
    pub ime_active: bool,
    pub detail: Option<DetailCursor>,
}

/// The launcher's tabs and navigation state.
pub struct Navigator {
    pub tabs: Vec<TabTarget>,
    pub cursor: NavCursor,
}

/// Rows of the store filter list: search, clear, then the regions.
pub const STORE_FILTER_ROWS: usize = 7;

/// The last row of the settings list.
pub const LAST_SETTINGS_ROW: usize = 8;

/// Games per row of the store grid.
pub const GRID_COLS: usize = 6;

pub open spec fn is_settings(tabs: Seq<TabTarget>, c: NavCursor) -> bool {
    c.active_tab == tabs.len()
}

pub open spec fn is_store_tab(tabs: Seq<TabTarget>, c: NavCursor) -> bool {
    c.active_tab < tabs.len() && tabs[c.active_tab as int] is Store
}

pub open spec fn tab_is_collection(tabs: Seq<TabTarget>, c: NavCursor) -> bool {
    c.active_tab < tabs.len() && tabs[c.active_tab as int] is Collection
}

/// Switching to tab `index` (the settings tab included), from browsing
/// only: the selection and scroll reset, the store's artwork is released
/// when leaving the store, and the visible games are rebuilt.
pub open spec fn set_tab_spec(tabs: Seq<TabTarget>, c: NavCursor, index: int) -> (NavCursor, Seq<NavAction>) {
    if index > tabs.len() || index < 0 || c.mode != Mode::Browse {
        (c, seq![])
    } else {
        let leaving = is_store_tab(tabs, c) && !(index < tabs.len() && tabs[index] is Store);
        (
            NavCursor { active_tab: index as usize, selected: 0, ..c },
            if leaving {
                seq![NavAction::ResetScroll, NavAction::DropStoreArt, NavAction::Refilter]
            } else {
                seq![NavAction::ResetScroll, NavAction::Refilter]
            },
        )
    }
}

/// The tab after (or before) the current one, wrapping around and leaving
/// the settings tab out.
pub open spec fn change_tab_spec(tabs: Seq<TabTarget>, c: NavCursor, forward: bool) -> (NavCursor, Seq<NavAction>) {
    if c.mode != Mode::Browse || tabs.len() == 0 {
        (c, seq![])
    } else {
        let total = tabs.len() as int;
        let current = if c.active_tab < total - 1 { c.active_tab as int } else { total - 1 };
        let next = if forward { (current + 1) % total } else { (current + total - 1) % total };
        set_tab_spec(tabs, c, next)
    }
}

/// The tabs with the ones at `a` and `b` exchanged.
pub open spec fn swap_tabs(tabs: Seq<TabTarget>, a: int, b: int) -> Seq<TabTarget> {
    tabs.update(a, tabs[b]).update(b, tabs[a])
}

/// Moving the active tab one place left or right in the tab order.
pub open spec fn move_tab_spec(tabs: Seq<TabTarget>, c: NavCursor, forward: bool) -> (Seq<TabTarget>, NavCursor, Seq<NavAction>) {
    let len = tabs.len() as int;
    let a = c.active_tab as int;
    let next = if forward {
        if a + 1 > len - 1 { len - 1 } else { a + 1 }
    } else {
        if a - 1 < 0 { 0 } else { a - 1 }
    };
    if len < 2 || next == a {
        (tabs, c, seq![])
    } else {
        (
            swap_tabs(tabs, a, next),
            NavCursor { active_tab: next as usize, ..c },
            seq![NavAction::SwapTabs(a as usize, next as usize), NavAction::PersistTabOrder, NavAction::Play(SoundEffect::Navigate)],
        )
    }
}

/// One step up a list: the index and whether it moved.
pub open spec fn step_up(i: usize) -> (usize, Seq<NavAction>) {
    if i > 0 {
        ((i - 1) as usize, seq![NavAction::Play(SoundEffect::Navigate)])
    } else {
        (i, seq![])
    }
}

/// One step down a list of `rows` rows.
pub open spec fn step_down(i: usize, rows: int) -> (usize, Seq<NavAction>) {
    if i + 1 < rows {
        ((i + 1) as usize, seq![NavAction::Play(SoundEffect::Navigate)])
    } else {
        (i, seq![])
    }
}

/// A direction pressed while browsing a tab.
pub open spec fn browse_input_spec(tabs: Seq<TabTarget>, c: NavCursor, input: InputCommand) -> (NavCursor, Seq<NavAction>) {
    let nav = seq![NavAction::Play(SoundEffect::Navigate)];
    match input {
        InputCommand::MoveLeft => {
            let (s, a) = step_up(c.selected);
            (NavCursor { selected: s, ..c }, a)
        },
        InputCommand::MoveRight => {
            let (s, a) = step_down(c.selected, c.visible_len as int);
            (NavCursor { selected: s, ..c }, a)
        },
        InputCommand::MoveUp => if is_settings(tabs, c) {
            let (s, a) = step_up(c.settings_selected);
            (NavCursor { settings_selected: s, ..c }, a)
        } else if is_store_tab(tabs, c) {
            if c.selected > 0 {
                (NavCursor { selected: if c.selected >= GRID_COLS { (c.selected - GRID_COLS) as usize } else { 0 }, ..c }, nav)
            } else {
                (c, seq![])
            }
        } else if c.library_view == LibraryView::List {
            let (s, a) = step_up(c.selected);
            (NavCursor { selected: s, ..c }, a)
        } else {
            (c, seq![])
        },
        InputCommand::MoveDown => if is_settings(tabs, c) {
            let (s, a) = step_down(c.settings_selected, LAST_SETTINGS_ROW + 1);
            (NavCursor { settings_selected: s, ..c }, a)
        } else if is_store_tab(tabs, c) {
            if c.selected + 1 < c.visible_len {
                let down = c.selected + GRID_COLS;
                let last = c.visible_len - 1;
                (NavCursor { selected: (if down < last { down } else { last }) as usize, ..c }, nav)
            } else {
                (c, seq![])
            }
        } else if c.library_view == LibraryView::List {
            let (s, a) = step_down(c.selected, c.visible_len as int);
            (NavCursor { selected: s, ..c }, a)
        } else {
            (c, seq![])
        },
    }
}

/// Left and right through the screenshots of the store detail page, in the
/// full-screen view or in the strip.
pub open spec fn detail_input_spec(c: NavCursor, input: InputCommand) -> (NavCursor, Seq<NavAction>) {
    let nav = seq![NavAction::Play(SoundEffect::Navigate)];
    match c.detail {
        None => (c, seq![]),
        Some(d) => if d.shots == 0 {
            (c, seq![])
        } else {
            match input {
                InputCommand::MoveLeft => match d.lightbox {
                    Some(idx) => if idx > 0 {
                        (NavCursor { detail: Some(DetailCursor { lightbox: Some((idx - 1) as usize), selected_shot: (idx - 1) as usize, ..d }), ..c }, nav)
                    } else {
                        (c, seq![])
                    },
                    None => if d.selected_shot > 0 {
                        (NavCursor { detail: Some(DetailCursor { selected_shot: (d.selected_shot - 1) as usize, ..d }), ..c }, nav)
                    } else {
                        (c, seq![])
                    },
                },
                InputCommand::MoveRight => match d.lightbox {
                    Some(idx) => if idx + 1 < d.shots {
                        (NavCursor { detail: Some(DetailCursor { lightbox: Some((idx + 1) as usize), selected_shot: (idx + 1) as usize, ..d }), ..c }, nav)
                    } else {
                        (c, seq![])
                    },
                    None => if d.selected_shot + 1 < d.shots {
                        (NavCursor { detail: Some(DetailCursor { selected_shot: (d.selected_shot + 1) as usize, ..d }), ..c }, nav)
                    } else {
                        (c, seq![])
                    },
                },
                _ => (c, seq![]),
            }
        },
    }
}

/// A direction pressed: it moves the answer of an open download question,
/// else the highlight of the current mode's list (or the tab itself while
/// organising tabs).
pub open spec fn input_spec(tabs: Seq<TabTarget>, c: NavCursor, input: InputCommand) -> (Seq<TabTarget>, NavCursor, Seq<NavAction>) {
    let nav = seq![NavAction::Play(SoundEffect::Navigate)];
    match c.download_choice {
        Some(choice) => match input {
            InputCommand::MoveLeft => if choice > 0 {
                (tabs, NavCursor { download_choice: Some(0), ..c }, nav)
            } else {
                (tabs, c, seq![])
            },
            InputCommand::MoveRight => if choice < 1 {
                (tabs, NavCursor { download_choice: Some(1), ..c }, nav)
            } else {
                (tabs, c, seq![])
            },
            _ => (tabs, c, seq![]),
        },
        None => match c.mode {
            Mode::Browse => {
                let (c2, a) = browse_input_spec(tabs, c, input);
                (tabs, c2, a)
            },
            Mode::TabOrganizer => match input {
                InputCommand::MoveLeft => move_tab_spec(tabs, c, false),
                InputCommand::MoveRight => move_tab_spec(tabs, c, true),
                _ => (tabs, c, seq![]),
            },
            Mode::StoreDetail => {
                let (c2, a) = detail_input_spec(c, input);
                (tabs, c2, a)
            },
            _ => {
                let rows = match c.mode {
                    Mode::CollectionPicker => c.collection_rows as int,
                    Mode::ScanFolders => c.scan_folder_rows as int,
                    Mode::StoreFilters => STORE_FILTER_ROWS as int,
                    _ => 3,
                };
                match input {
                    InputCommand::MoveUp => {
                        let (p, a) = step_up(c.picker_index);
                        (tabs, NavCursor { picker_index: p, ..c }, a)
                    },
                    InputCommand::MoveDown => {
                        let (p, a) = step_down(c.picker_index, rows);
                        (tabs, NavCursor { picker_index: p, ..c }, a)
                    },
                    _ => (tabs, c, seq![]),
                }
            },
        },
    }
}

/// Showing or hiding the full-screen screenshot of the store detail page.
pub open spec fn toggle_lightbox_spec(c: NavCursor) -> NavCursor {
    match c.detail {
        None => c,
        Some(d) => if d.shots == 0 {
            c
        } else if d.lightbox is Some {
            NavCursor { detail: Some(DetailCursor { lightbox: None, ..d }), ..c }
        } else {
            let idx = if d.selected_shot < d.shots - 1 { d.selected_shot } else { (d.shots - 1) as usize };
            NavCursor { detail: Some(DetailCursor { lightbox: Some(idx), ..d }), ..c }
        },
    }
}

/// How deep a command may hand over to others (Confirm runs a menu entry's
/// command; a picker or store shortcut runs another).
pub open spec fn rank(cmd: AppCommand) -> nat {
    match cmd {
        AppCommand::Confirm => 2,
        AppCommand::OpenCollectionPicker => 1,
        AppCommand::RemoveFromCollection => 1,
        _ => 0,
    }
}

/// The one input the launcher cannot take: moving the settings tab (which
/// is no tab of the order) while organising tabs.
pub open spec fn moves_settings_tab(tabs: Seq<TabTarget>, c: NavCursor, cmd: AppCommand) -> bool {
    &&& c.mode == Mode::TabOrganizer
    &&& c.download_choice is None || !(cmd is Input)
    &&& tabs.len() >= 2
    &&& c.active_tab >= tabs.len()
    &&& (cmd == AppCommand::TabPrev || cmd == AppCommand::TabNext || cmd == AppCommand::Input(InputCommand::MoveLeft)
        || cmd == AppCommand::Input(InputCommand::MoveRight))
}

/// A sound, then what follows.
pub open spec fn sound_then(e: SoundEffect, c: NavCursor, rest: (NavCursor, Seq<NavAction>)) -> (NavCursor, Seq<NavAction>) {
    (rest.0, seq![NavAction::Play(e)] + rest.1)
}

/// What a command does to the tabs and the navigation state, and the work
/// it asks for, in order.
pub open spec fn command_spec(tabs: Seq<TabTarget>, c: NavCursor, cmd: AppCommand) -> (Seq<TabTarget>, NavCursor, Seq<NavAction>)
    decreases rank(cmd),
{
    let confirm_snd = NavAction::Play(SoundEffect::Confirm);
    let open_snd = NavAction::Play(SoundEffect::OpenModal);
    let close_snd = NavAction::Play(SoundEffect::CloseModal);
    let browse_idle = c.mode == Mode::Browse && !is_store_tab(tabs, c);
    match cmd {
        AppCommand::Input(input) => input_spec(tabs, c, input),
        AppCommand::TabPrev | AppCommand::TabNext => {
            let forward = cmd == AppCommand::TabNext;
            if c.mode == Mode::TabOrganizer {
                move_tab_spec(tabs, c, forward)
            } else {
                let (c2, a) = change_tab_spec(tabs, c, forward);
                (tabs, c2, seq![NavAction::Play(SoundEffect::TabSwitch)] + a)
            }
        },
        AppCommand::OpenSettings => if is_settings(tabs, c) {
            let (c2, a) = set_tab_spec(tabs, c, c.tab_before_settings as int);
            (tabs, c2, seq![close_snd] + a)
        } else {
            let c1 = NavCursor { tab_before_settings: c.active_tab, settings_selected: 0, ..c };
            let (c2, a) = set_tab_spec(tabs, c1, tabs.len() as int);
            (tabs, c2, seq![NavAction::Play(SoundEffect::TabSwitch)] + a)
        },
        AppCommand::SelectTab(index) => {
            let (c2, a) = set_tab_spec(tabs, c, index as int);
            (tabs, c2, if index != c.active_tab { seq![NavAction::Play(SoundEffect::TabSwitch)] + a } else { a })
        },
        AppCommand::OpenCollectionPicker => if c.mode == Mode::StoreDetail {
            (tabs, toggle_lightbox_spec(c), seq![open_snd])
        } else if c.mode == Mode::CollectionPicker {
            command_spec(tabs, c, AppCommand::CreateCollection)
        } else if c.mode == Mode::Browse && c.visible_len > 0 {
            (tabs, NavCursor { mode: Mode::CollectionPicker, picker_index: 0, ..c }, seq![open_snd])
        } else {
            (tabs, c, seq![])
        },
        AppCommand::OpenGameOptions => if browse_idle && c.visible_len > 0 {
            (tabs, NavCursor { mode: Mode::GameOptions, picker_index: 0, ..c }, seq![open_snd])
        } else {
            (tabs, c, seq![])
        },
        AppCommand::RenameSelectedGame => if c.selected < c.visible_len {
            (tabs, c, seq![NavAction::OpenRenameDialog])
        } else {
            (tabs, c, seq![])
        },
        AppCommand::ToggleHideSelectedGame => if c.selected < c.visible_len {
            (
                tabs,
                NavCursor { mode: Mode::Browse, ..c },
                seq![NavAction::ToggleHideSelected, NavAction::Refilter, confirm_snd],
            )
        } else {
            (tabs, c, seq![])
        },
        AppCommand::RemoveFromCollection => if c.mode == Mode::TabOrganizer {
            (tabs, c, seq![NavAction::DeleteActiveCustomTab])
        } else if is_store_tab(tabs, c) {
            command_spec(tabs, c, AppCommand::OpenStoreFilters)
        } else if c.mode == Mode::Browse && !(!is_settings(tabs, c) && tab_is_collection(tabs, c)) {
            (tabs, c, seq![NavAction::ToggleSelectedFavorite])
        } else {
            (tabs, c, seq![confirm_snd, NavAction::RemoveSelectedFromCollection])
        },
        AppCommand::CreateCollection => if c.mode != Mode::CollectionPicker || c.ime_active {
            (tabs, c, seq![])
        } else {
            (tabs, c, seq![NavAction::OpenNewCollectionDialog])
        },
        AppCommand::ToggleSearch => if c.mode == Mode::Browse {
            (tabs, NavCursor { mode: Mode::TabOrganizer, ..c }, seq![open_snd])
        } else {
            (tabs, c, seq![])
        },
        AppCommand::CycleLibrarySort => if browse_idle {
            (tabs, c, seq![NavAction::CycleLibrarySort, NavAction::Refilter, confirm_snd])
        } else {
            (tabs, c, seq![])
        },
        AppCommand::CycleLibraryView => if browse_idle {
            (
                tabs,
                NavCursor { library_view: view_next(c.library_view), ..c },
                seq![NavAction::CycleLibraryView, NavAction::ResetScroll, confirm_snd],
            )
        } else {
            (tabs, c, seq![])
        },
        AppCommand::SearchStore => if !is_store_tab(tabs, c) || !(c.mode == Mode::Browse || c.mode == Mode::StoreFilters)
            || c.ime_active {
            (tabs, c, seq![])
        } else {
            (tabs, c, seq![open_snd, NavAction::OpenStoreSearchDialog])
        },
        AppCommand::OpenStoreFilters => if is_store_tab(tabs, c) && c.mode == Mode::Browse {
            (tabs, NavCursor { mode: Mode::StoreFilters, picker_index: 0, ..c }, seq![open_snd])
        } else {
            (tabs, c, seq![])
        },
        AppCommand::ClearStoreRegions => (
            tabs,
            NavCursor { selected: 0, ..c },
            seq![NavAction::ClearStoreRegions, NavAction::ResetScroll, NavAction::Refilter, confirm_snd],
        ),
        AppCommand::ToggleStoreRegion(i) => if i < STORE_REGION_COUNT {
            (
                tabs,
                NavCursor { selected: 0, ..c },
                seq![NavAction::ToggleStoreRegion(i), NavAction::ResetScroll, NavAction::Refilter, confirm_snd],
            )
        } else {
            (tabs, c, seq![])
        },
        AppCommand::SetDownloadChoice(choice) => if c.download_choice is Some {
            (tabs, NavCursor { download_choice: Some(choice), ..c }, seq![NavAction::Play(SoundEffect::Navigate)])
        } else {
            (tabs, c, seq![])
        },
        AppCommand::ConfirmDownload(yes) => if c.download_choice is Some {
            (tabs, NavCursor { download_choice: None, ..c }, if yes { seq![NavAction::ExecuteDownload] } else { seq![close_snd] })
        } else {
            (tabs, c, seq![])
        },
        AppCommand::Confirm => match c.download_choice {
            Some(choice) => (
                tabs,
                NavCursor { download_choice: None, ..c },
                if choice == 0 { seq![NavAction::ExecuteDownload] } else { seq![close_snd] },
            ),
            None => {
                let r = if c.mode == Mode::TabOrganizer {
                    (tabs, NavCursor { mode: Mode::Browse, ..c }, seq![NavAction::Refilter])
                } else if c.mode == Mode::ScanFolders {
                    command_spec(tabs, c, AppCommand::ToggleScanFolder(c.picker_index))
                } else if c.mode == Mode::StoreFilters {
                    if c.picker_index == 0 {
                        command_spec(tabs, c, AppCommand::SearchStore)
                    } else if c.picker_index == 1 {
                        command_spec(tabs, c, AppCommand::ClearStoreRegions)
                    } else {
                        command_spec(tabs, c, AppCommand::ToggleStoreRegion((c.picker_index - 2) as usize))
                    }
                } else if c.mode == Mode::GameOptions {
                    if c.picker_index == 0 {
                        command_spec(tabs, c, AppCommand::RenameSelectedGame)
                    } else if c.picker_index == 1 {
                        command_spec(tabs, c, AppCommand::ToggleHideSelectedGame)
                    } else {
                        (tabs, NavCursor { mode: Mode::Browse, ..c }, seq![])
                    }
                } else if is_settings(tabs, c) {
                    if c.settings_selected == 0 {
                        (tabs, c, seq![NavAction::Rescan])
                    } else if c.settings_selected == 1 {
                        command_spec(tabs, c, AppCommand::ToggleDownloadBgm)
                    } else if c.settings_selected == 2 {
                        command_spec(tabs, c, AppCommand::CycleLanguage)
                    } else if c.settings_selected == 3 {
                        command_spec(tabs, c, AppCommand::OpenScanFolders)
                    } else if c.settings_selected == 4 {
                        command_spec(tabs, c, AppCommand::CycleCacheBudget)
                    } else if c.settings_selected == 5 {
                        command_spec(tabs, c, AppCommand::CycleLibrarySort)
                    } else if c.settings_selected == 6 {
                        command_spec(tabs, c, AppCommand::CleanOrphanCache)
                    } else if c.settings_selected == 7 {
                        command_spec(tabs, c, AppCommand::PurgeMusicCache)
                    } else if c.settings_selected == 8 {
                        command_spec(tabs, c, AppCommand::PurgeAllCache)
                    } else {
                        (tabs, c, seq![])
                    }
                } else if c.mode == Mode::CollectionPicker {
                    command_spec(tabs, c, AppCommand::TogglePickerRow(c.picker_index))
                } else if c.mode == Mode::StoreDetail {
                    (tabs, c, seq![NavAction::ConfirmStoreDetail])
                } else if is_store_tab(tabs, c) {
                    (tabs, c, seq![NavAction::OpenStoreDetail])
                } else {
                    (tabs, c, seq![NavAction::LaunchSelected])
                };
                (r.0, r.1, seq![confirm_snd] + r.2)
            },
        },
        AppCommand::Rescan => (tabs, c, seq![confirm_snd, NavAction::Rescan]),
        AppCommand::ToggleDownloadBgm => (tabs, c, seq![confirm_snd, NavAction::ToggleDownloadBgm]),
        AppCommand::CycleLanguage => (tabs, c, seq![confirm_snd, NavAction::CycleLanguage, NavAction::RebuildTabs]),
        AppCommand::CycleCacheBudget => (tabs, c, seq![confirm_snd, NavAction::CycleCacheBudget]),
        AppCommand::CleanOrphanCache => (tabs, c, seq![confirm_snd, NavAction::CleanOrphanCache]),
        AppCommand::PurgeMusicCache => (tabs, c, seq![confirm_snd, NavAction::PurgeMusicCache]),
        AppCommand::PurgeAllCache => (tabs, c, seq![confirm_snd, NavAction::PurgeAllCache]),
        AppCommand::TogglePickerRow(i) => if c.mode == Mode::CollectionPicker && c.selected < c.visible_len {
            (tabs, NavCursor { picker_index: i, ..c }, seq![NavAction::TogglePickerRow(i)])
        } else {
            (tabs, c, seq![])
        },
        AppCommand::OpenScanFolders => (
            tabs,
            NavCursor { mode: Mode::ScanFolders, picker_index: 0, ..c },
            seq![open_snd, NavAction::DiscoverScanFolders],
        ),
        AppCommand::ToggleScanFolder(i) => if i < c.scan_folder_rows {
            (tabs, c, seq![confirm_snd, NavAction::ToggleScanFolder(i)])
        } else {
            (tabs, c, seq![])
        },
        AppCommand::AddCustomScanFolder | AppCommand::RemoveCustomScanFolder(_) => (tabs, c, seq![]),
        AppCommand::Back => if c.download_choice is Some {
            (tabs, NavCursor { download_choice: None, ..c }, seq![close_snd])
        } else if c.mode == Mode::StoreDetail {
            if c.detail matches Some(d) && d.lightbox is Some {
                (tabs, NavCursor { detail: Some(DetailCursor { lightbox: None, ..c.detail->0 }), ..c }, seq![close_snd])
            } else {
                (tabs, NavCursor { mode: Mode::Browse, detail: None, ..c }, seq![close_snd, NavAction::CloseStoreDetail])
            }
        } else if c.mode == Mode::StoreFilters || c.mode == Mode::GameOptions || c.mode == Mode::ScanFolders {
            (tabs, NavCursor { mode: Mode::Browse, ..c }, seq![close_snd])
        } else if c.search_active {
            (tabs, NavCursor { search_active: false, ..c }, seq![close_snd, NavAction::ClearSearch, NavAction::Refilter])
        } else if c.mode == Mode::CollectionPicker {
            (tabs, NavCursor { mode: Mode::Browse, ..c }, seq![close_snd, NavAction::RebuildTabs])
        } else if c.mode == Mode::TabOrganizer {
            (tabs, NavCursor { mode: Mode::Browse, ..c }, seq![close_snd, NavAction::Refilter])
        } else if is_settings(tabs, c) {
            let (c2, a) = set_tab_spec(tabs, c, c.tab_before_settings as int);
            (tabs, c2, seq![close_snd] + a)
        } else {
            (tabs, c, seq![])
        },
        AppCommand::SelectVisibleSlot(slot) => if slot < c.visible_len {
            (
                tabs,
                NavCursor { selected: slot, ..c },
                if slot != c.selected { seq![NavAction::Play(SoundEffect::Navigate)] } else { seq![] },
            )
        } else {
            (tabs, c, seq![])
        },
        AppCommand::Quit => if c.download_choice is Some {
            (tabs, NavCursor { download_choice: None, ..c }, seq![])
        } else if c.mode == Mode::StoreDetail {
            (tabs, NavCursor { mode: Mode::Browse, detail: None, ..c }, seq![NavAction::CloseStoreDetail])
        } else if c.mode == Mode::Browse {
            (tabs, c, seq![NavAction::Exit])
        } else {
            (tabs, c, seq![])
        },
    }
}

/// Index of the first tab with the same target as `t` (targets are told
/// apart by their tokens), or -1.
pub open spec fn tab_position(tabs: Seq<TabTarget>, t: TabTarget) -> int
    decreases tabs.len(),
{
    if tabs.len() == 0 {
        -1
    } else {
        let p = tab_position(tabs.drop_last(), t);
        if p >= 0 {
            p
        } else if tab_token_spec(tabs.last()) == tab_token_spec(t) {
            tabs.len() - 1
        } else {
            -1
        }
    }
}

/// The active tab after the tabs are rebuilt: the same target where it
/// still is, else the first tab; never past the last tab.
pub open spec fn rebuilt_active(old_tabs: Seq<TabTarget>, active: int, new_tabs: Seq<TabTarget>) -> int {
    let pos = if 0 <= active < old_tabs.len() { tab_position(new_tabs, old_tabs[active]) } else { -1 };
    let p = if pos >= 0 { pos } else { 0 };
    let last = if new_tabs.len() > 0 { new_tabs.len() - 1 } else { 0 };
    if p < last { p } else { last }
}

proof fn lemma_tab_position_bound(tabs: Seq<TabTarget>, t: TabTarget)
    ensures
        -1 <= tab_position(tabs, t) < tabs.len(),
    decreases tabs.len(),
{
    if tabs.len() > 0 {
        lemma_tab_position_bound(tabs.drop_last(), t);
    }
}

fn find_tab(tabs: &[TabTarget], t: &TabTarget) -> (r: Option<usize>)
    ensures
        match r {
            Some(i) => tab_position(tabs@, *t) == i,
            None => tab_position(tabs@, *t) == -1,
        },
{
    let token = tab_token(t);
    let mut i: usize = 0;
    while i < tabs.len()
        invariant
            i <= tabs@.len(),
            token@ == tab_token_spec(*t),
            tab_position(tabs@.take(i as int), *t) == -1,
        decreases tabs@.len() - i,
    {
        proof {
            assert(tabs@.take(i as int + 1).drop_last() =~= tabs@.take(i as int));
        }
        let other = tab_token(&tabs[i]);
        if str_equal(other.as_str(), token.as_str()) {
            proof {
                lemma_tab_position_prefix(tabs@, *t, i as int + 1);
            }
            return Some(i);
        }
        i = i + 1;
    }
    proof {
        assert(tabs@.take(i as int) =~= tabs@);
    }
    None
}

proof fn lemma_tab_position_prefix(tabs: Seq<TabTarget>, t: TabTarget, i: int)
    requires
        0 <= i <= tabs.len(),
        tab_position(tabs.take(i), t) >= 0,
    ensures
        tab_position(tabs, t) == tab_position(tabs.take(i), t),
    decreases tabs.len() - i,
{
    if i < tabs.len() {
        assert(tabs.take(i + 1).drop_last() =~= tabs.take(i));
        lemma_tab_position_prefix(tabs, t, i + 1);
    } else {
        assert(tabs.take(i) =~= tabs);
    }
}

fn then(first: Vec<NavAction>, rest: Vec<NavAction>) -> (r: Vec<NavAction>)
    ensures
        r@ == first@ + rest@,
{
    let mut first = first;
    let mut rest = rest;
    first.append(&mut rest);
    first
}

fn one(a: NavAction) -> (r: Vec<NavAction>)
    ensures
        r@ == seq![a],
{
    let mut v = Vec::new();
    v.push(a);
    proof {
        assert(v@ =~= seq![a]);
    }
    v
}

fn none() -> (r: Vec<NavAction>)
    ensures
        r@ == Seq::<NavAction>::empty(),
{
    Vec::new()
}

fn tab_is_store_at(tabs: &[TabTarget], i: usize) -> (b: bool)
    ensures
        b == (i < tabs@.len() && tabs@[i as int] is Store),
{
    if i < tabs.len() {
        match &tabs[i] {
            TabTarget::Store => true,
            _ => false,
        }
    } else {
        false
    }
}

fn tab_is_collection_at(tabs: &[TabTarget], i: usize) -> (b: bool)
    ensures
        b == (i < tabs@.len() && tabs@[i as int] is Collection),
{
    if i < tabs.len() {
        match &tabs[i] {
            TabTarget::Collection(_) => true,
            _ => false,
        }
    } else {
        false
    }
}

fn set_tab(tabs: &[TabTarget], c: NavCursor, index: usize) -> (r: (NavCursor, Vec<NavAction>))
    ensures
        (r.0, r.1@) == set_tab_spec(tabs@, c, index as int),
{
    if index > tabs.len() || c.mode != Mode::Browse {
        return (c, none());
    }
    let leaving = tab_is_store_at(tabs, c.active_tab) && !tab_is_store_at(tabs, index);
    let c2 = NavCursor { active_tab: index, selected: 0, ..c };
    let mut a = one(NavAction::ResetScroll);
    if leaving {
        a.push(NavAction::DropStoreArt);
    }
    a.push(NavAction::Refilter);
    proof {
        if leaving {
            assert(a@ =~= seq![NavAction::ResetScroll, NavAction::DropStoreArt, NavAction::Refilter]);
        } else {
            assert(a@ =~= seq![NavAction::ResetScroll, NavAction::Refilter]);
        }
    }
    (c2, a)
}

fn change_tab(tabs: &[TabTarget], c: NavCursor, forward: bool) -> (r: (NavCursor, Vec<NavAction>))
    ensures
        (r.0, r.1@) == change_tab_spec(tabs@, c, forward),
{
    if c.mode != Mode::Browse || tabs.len() == 0 {
        return (c, none());
    }
    let total = tabs.len();
    let current = if c.active_tab < total - 1 { c.active_tab } else { total - 1 };
    let next = if forward {
        if current + 1 == total { 0 } else { current + 1 }
    } else {
        if current == 0 { total - 1 } else { current - 1 }
    };
    proof {
        let t = total as int;
        let cur = current as int;
        if forward {
            if cur + 1 == t {
                assert((cur + 1) % t == 0) by (nonlinear_arith)
                    requires cur + 1 == t, t > 0;
            } else {
                assert((cur + 1) % t == cur + 1) by (nonlinear_arith)
                    requires 0 <= cur + 1 < t;
            }
        } else {
            if cur == 0 {
                assert((cur + t - 1) % t == t - 1) by (nonlinear_arith)
                    requires cur == 0, t > 0;
            } else {
                assert((cur + t - 1) % t == cur - 1) by (nonlinear_arith)
                    requires 0 < cur < t;
            }
        }
    }
    set_tab(tabs, c, next)
}

proof fn lemma_remove_insert_is_swap(tabs: Seq<TabTarget>, a: int, b: int)
    requires
        0 <= a < tabs.len(),
        0 <= b < tabs.len(),
        b == a + 1 || b == a - 1,
    ensures
        tabs.remove(a).insert(b, tabs[a]) =~= swap_tabs(tabs, a, b),
{
}

fn step_up_exec(i: usize) -> (r: (usize, Vec<NavAction>))
    ensures
        (r.0, r.1@) == step_up(i),
{
    if i > 0 {
        (i - 1, one(NavAction::Play(SoundEffect::Navigate)))
    } else {
        (i, none())
    }
}

fn step_down_exec(i: usize, rows: usize) -> (r: (usize, Vec<NavAction>))
    ensures
        (r.0, r.1@) == step_down(i, rows as int),
{
    if rows > 0 && i < rows - 1 {
        (i + 1, one(NavAction::Play(SoundEffect::Navigate)))
    } else {
        (i, none())
    }
}

fn browse_input(tabs: &[TabTarget], c: NavCursor, input: InputCommand) -> (r: (NavCursor, Vec<NavAction>))
    ensures
        (r.0, r.1@) == browse_input_spec(tabs@, c, input),
{
    let settings = c.active_tab == tabs.len();
    let store = tab_is_store_at(tabs, c.active_tab);
    let list = match c.library_view {
        LibraryView::List => true,
        _ => false,
    };
    match input {
        InputCommand::MoveLeft => {
            let (s, a) = step_up_exec(c.selected);
            (NavCursor { selected: s, ..c }, a)
        },
        InputCommand::MoveRight => {
            let (s, a) = step_down_exec(c.selected, c.visible_len);
            (NavCursor { selected: s, ..c }, a)
        },
        InputCommand::MoveUp => if settings {
            let (s, a) = step_up_exec(c.settings_selected);
            (NavCursor { settings_selected: s, ..c }, a)
        } else if store {
            if c.selected > 0 {
                let s = if c.selected >= GRID_COLS { c.selected - GRID_COLS } else { 0 };
                (NavCursor { selected: s, ..c }, one(NavAction::Play(SoundEffect::Navigate)))
            } else {
                (c, none())
            }
        } else if list {
            let (s, a) = step_up_exec(c.selected);
            (NavCursor { selected: s, ..c }, a)
        } else {
            (c, none())
        },
        InputCommand::MoveDown => if settings {
            let (s, a) = step_down_exec(c.settings_selected, LAST_SETTINGS_ROW + 1);
            (NavCursor { settings_selected: s, ..c }, a)
        } else if store {
            if c.visible_len > 0 && c.selected < c.visible_len - 1 {
                let last = c.visible_len - 1;
                let s = if last - c.selected > GRID_COLS { c.selected + GRID_COLS } else { last };
                (NavCursor { selected: s, ..c }, one(NavAction::Play(SoundEffect::Navigate)))
            } else {
                (c, none())
            }
        } else if list {
            let (s, a) = step_down_exec(c.selected, c.visible_len);
            (NavCursor { selected: s, ..c }, a)
        } else {
            (c, none())
        },
    }
}

fn detail_input(c: NavCursor, input: InputCommand) -> (r: (NavCursor, Vec<NavAction>))
    ensures
        (r.0, r.1@) == detail_input_spec(c, input),
{
    let d = match c.detail {
        Some(d) => d,
        None => return (c, none()),
    };
    if d.shots == 0 {
        return (c, none());
    }
    match input {
        InputCommand::MoveLeft => match d.lightbox {
            Some(idx) => if idx > 0 {
                let d2 = DetailCursor { lightbox: Some(idx - 1), selected_shot: idx - 1, ..d };
                (NavCursor { detail: Some(d2), ..c }, one(NavAction::Play(SoundEffect::Navigate)))
            } else {
                (c, none())
            },
            None => if d.selected_shot > 0 {
                let d2 = DetailCursor { selected_shot: d.selected_shot - 1, ..d };
                (NavCursor { detail: Some(d2), ..c }, one(NavAction::Play(SoundEffect::Navigate)))
            } else {
                (c, none())
            },
        },
        InputCommand::MoveRight => match d.lightbox {
            Some(idx) => if idx < d.shots - 1 {
                let d2 = DetailCursor { lightbox: Some(idx + 1), selected_shot: idx + 1, ..d };
                (NavCursor { detail: Some(d2), ..c }, one(NavAction::Play(SoundEffect::Navigate)))
            } else {
                (c, none())
            },
            None => if d.selected_shot < d.shots - 1 {
                let d2 = DetailCursor { selected_shot: d.selected_shot + 1, ..d };
                (NavCursor { detail: Some(d2), ..c }, one(NavAction::Play(SoundEffect::Navigate)))
            } else {
                (c, none())
            },
        },
        _ => (c, none()),
    }
}

fn toggle_lightbox(c: NavCursor) -> (r: NavCursor)
    ensures
        r == toggle_lightbox_spec(c),
{
    match c.detail {
        None => c,
        Some(d) => if d.shots == 0 {
            c
        } else if d.lightbox.is_some() {
            NavCursor { detail: Some(DetailCursor { lightbox: None, ..d }), ..c }
        } else {
            let idx = if d.selected_shot < d.shots - 1 { d.selected_shot } else { d.shots - 1 };
            NavCursor { detail: Some(DetailCursor { lightbox: Some(idx), ..d }), ..c }
        },
    }
}

impl Navigator {
    /// The active tab is the settings tab or one of the tabs.
    pub open spec fn wf(&self) -> bool {
        self.cursor.active_tab <= self.tabs@.len()
    }

    /// The navigation of a freshly started launcher: browsing the first tab.
    pub fn new(tabs: Vec<TabTarget>, library_view: LibraryView, collection_rows: usize) -> (n: Self)
        ensures
            n.wf(),
            n.tabs@ == tabs@,
            n.cursor == (NavCursor {
                mode: Mode::Browse,
                active_tab: 0,
                tab_before_settings: 0,
                settings_selected: 0,
                picker_index: 0,
                selected: 0,
                visible_len: 0,
                collection_rows,
                scan_folder_rows: 0,
                library_view,
                download_choice: None,
                search_active: false,
                ime_active: false,
                detail: None,
            }),
    {
        Navigator {
            tabs,
            cursor: NavCursor {
                mode: Mode::Browse,
                active_tab: 0,
                tab_before_settings: 0,
                settings_selected: 0,
                picker_index: 0,
                selected: 0,
                visible_len: 0,
                collection_rows,
                scan_folder_rows: 0,
                library_view,
                download_choice: None,
                search_active: false,
                ime_active: false,
                detail: None,
            },
        }
    }

    /// Takes the rebuilt tabs, keeping the active tab on the same target
    /// where it still is.
    pub fn tabs_rebuilt(&mut self, new_tabs: Vec<TabTarget>)
        requires
            old(self).wf(),
        ensures
            final(self).wf(),
            final(self).tabs@ == new_tabs@,
            final(self).cursor == (NavCursor {
                active_tab: rebuilt_active(old(self).tabs@, old(self).cursor.active_tab as int, new_tabs@) as usize,
                ..old(self).cursor
            }),
    {
        let active = self.cursor.active_tab;
        let pos = if active < self.tabs.len() {
            find_tab(new_tabs.as_slice(), &self.tabs[active])
        } else {
            None
        };
        proof {
            if active < self.tabs@.len() {
                lemma_tab_position_bound(new_tabs@, self.tabs@[active as int]);
            }
        }
        let p = match pos {
            Some(i) => i,
            None => 0,
        };
        let last = if new_tabs.len() > 0 { new_tabs.len() - 1 } else { 0 };
        let next = if p < last { p } else { last };
        self.tabs = new_tabs;
        self.cursor = NavCursor { active_tab: next, ..self.cursor };
    }

    /// Drops the active tab after its collection was deleted; the tab after
    /// it (or the new last one) becomes active.
    pub fn active_tab_removed(&mut self) -> (actions: Vec<NavAction>)
        requires
            old(self).wf(),
        ensures
            final(self).wf(),
            old(self).cursor.active_tab < old(self).tabs@.len() ==> {
                let len = old(self).tabs@.len() - 1;
                let a = old(self).cursor.active_tab as int;
                &&& final(self).tabs@ == old(self).tabs@.remove(a)
                &&& final(self).cursor == (NavCursor {
                    active_tab: (if len == 0 { 0 } else if a < len - 1 { a } else { len - 1 }) as usize,
                    ..old(self).cursor
                })
                &&& actions@ == seq![NavAction::PersistTabOrder, NavAction::Refilter, NavAction::Play(SoundEffect::CloseModal)]
            },
            old(self).cursor.active_tab >= old(self).tabs@.len() ==> final(self).tabs@ == old(self).tabs@
                && final(self).cursor == old(self).cursor && actions@.len() == 0,
    {
        let a = self.cursor.active_tab;
        if a >= self.tabs.len() {
            return none();
        }
        self.tabs.remove(a);
        let len = self.tabs.len();
        let next = if len == 0 {
            0
        } else if a < len - 1 {
            a
        } else {
            len - 1
        };
        self.cursor = NavCursor { active_tab: next, ..self.cursor };
        let mut v = one(NavAction::PersistTabOrder);
        v.push(NavAction::Refilter);
        v.push(NavAction::Play(SoundEffect::CloseModal));
        proof {
            assert(v@ =~= seq![NavAction::PersistTabOrder, NavAction::Refilter, NavAction::Play(SoundEffect::CloseModal)]);
        }
        v
    }

    /// The store detail page opened with `shots` screenshots.
    pub fn store_detail_opened(&mut self, shots: usize)
        requires
            old(self).wf(),
        ensures
            final(self).wf(),
            final(self).tabs@ == old(self).tabs@,
            final(self).cursor == (NavCursor {
                mode: Mode::StoreDetail,
                detail: Some(DetailCursor { shots, lightbox: None, selected_shot: 0 }),
                ..old(self).cursor
            }),
    {
        self.cursor = NavCursor {
            mode: Mode::StoreDetail,
            detail: Some(DetailCursor { shots, lightbox: None, selected_shot: 0 }),
            ..self.cursor
        };
    }

    /// A download question opened, its first answer ("yes") highlighted.
    pub fn download_confirm_opened(&mut self) -> (actions: Vec<NavAction>)
        requires
            old(self).wf(),
        ensures
            final(self).wf(),
            final(self).tabs@ == old(self).tabs@,
            final(self).cursor == (NavCursor { download_choice: Some(0), ..old(self).cursor }),
            actions@ == seq![NavAction::Play(SoundEffect::OpenModal)],
    {
        self.cursor = NavCursor { download_choice: Some(0), ..self.cursor };
        one(NavAction::Play(SoundEffect::OpenModal))
    }

    /// Carries out a command on the tabs and the navigation state and
    /// returns the work it asks of the launcher, in order.
    pub fn handle_command(&mut self, cmd: AppCommand) -> (actions: Vec<NavAction>)
        requires
            old(self).wf(),
            !moves_settings_tab(old(self).tabs@, old(self).cursor, cmd),
        ensures
            final(self).wf(),
            (final(self).tabs@, final(self).cursor, actions@) == command_spec(old(self).tabs@, old(self).cursor, cmd),
        decreases rank(cmd),
    {
        let c = self.cursor;
        let settings = c.active_tab == self.tabs.len();
        let store = tab_is_store_at(self.tabs.as_slice(), c.active_tab);
        let browse = match c.mode {
            Mode::Browse => true,
            _ => false,
        };
        match cmd {
            AppCommand::Input(input) => self.handle_input(input),
            AppCommand::TabPrev | AppCommand::TabNext => {
                let forward = match cmd {
                    AppCommand::TabNext => true,
                    _ => false,
                };
                match c.mode {
                    Mode::TabOrganizer => self.move_tab(forward),
                    _ => {
                        let (c2, a) = change_tab(self.tabs.as_slice(), c, forward);
                        self.cursor = c2;
                        then(one(NavAction::Play(SoundEffect::TabSwitch)), a)
                    },
                }
            },
            AppCommand::OpenSettings => if settings {
                let (c2, a) = set_tab(self.tabs.as_slice(), c, c.tab_before_settings);
                self.cursor = c2;
                then(one(NavAction::Play(SoundEffect::CloseModal)), a)
            } else {
                let c1 = NavCursor { tab_before_settings: c.active_tab, settings_selected: 0, ..c };
                let (c2, a) = set_tab(self.tabs.as_slice(), c1, self.tabs.len());
                self.cursor = c2;
                then(one(NavAction::Play(SoundEffect::TabSwitch)), a)
            },
            AppCommand::SelectTab(index) => {
                let (c2, a) = set_tab(self.tabs.as_slice(), c, index);
                self.cursor = c2;
                if index != c.active_tab {
                    then(one(NavAction::Play(SoundEffect::TabSwitch)), a)
                } else {
                    a
                }
            },
            AppCommand::OpenCollectionPicker => match c.mode {
                Mode::StoreDetail => {
                    self.cursor = toggle_lightbox(c);
                    one(NavAction::Play(SoundEffect::OpenModal))
                },
                Mode::CollectionPicker => self.handle_command(AppCommand::CreateCollection),
                Mode::Browse => if c.visible_len > 0 {
                    self.cursor = NavCursor { mode: Mode::CollectionPicker, picker_index: 0, ..c };
                    one(NavAction::Play(SoundEffect::OpenModal))
                } else {
                    none()
                },
                _ => none(),
            },
            AppCommand::OpenGameOptions => if browse && !store && c.visible_len > 0 {
                self.cursor = NavCursor { mode: Mode::GameOptions, picker_index: 0, ..c };
                one(NavAction::Play(SoundEffect::OpenModal))
            } else {
                none()
            },
            AppCommand::RenameSelectedGame => if c.selected < c.visible_len {
                one(NavAction::OpenRenameDialog)
            } else {
                none()
            },
            AppCommand::ToggleHideSelectedGame => if c.selected < c.visible_len {
                self.cursor = NavCursor { mode: Mode::Browse, ..c };
                let mut v = one(NavAction::ToggleHideSelected);
                v.push(NavAction::Refilter);
                v.push(NavAction::Play(SoundEffect::Confirm));
                proof {
                    assert(v@ =~= seq![NavAction::ToggleHideSelected, NavAction::Refilter, NavAction::Play(SoundEffect::Confirm)]);
                }
                v
            } else {
                none()
            },
            AppCommand::RemoveFromCollection => match c.mode {
                Mode::TabOrganizer => one(NavAction::DeleteActiveCustomTab),
                _ => if store {
                    self.handle_command(AppCommand::OpenStoreFilters)
                } else if browse && !tab_is_collection_at(self.tabs.as_slice(), c.active_tab) {
                    one(NavAction::ToggleSelectedFavorite)
                } else {
                    then(one(NavAction::Play(SoundEffect::Confirm)), one(NavAction::RemoveSelectedFromCollection))
                },
            },
            AppCommand::CreateCollection => match c.mode {
                Mode::CollectionPicker => if c.ime_active {
                    none()
                } else {
                    one(NavAction::OpenNewCollectionDialog)
                },
                _ => none(),
            },
            AppCommand::ToggleSearch => if browse {
                self.cursor = NavCursor { mode: Mode::TabOrganizer, ..c };
                one(NavAction::Play(SoundEffect::OpenModal))
            } else {
                none()
            },
            AppCommand::CycleLibrarySort => if browse && !store {
                let mut v = one(NavAction::CycleLibrarySort);
                v.push(NavAction::Refilter);
                v.push(NavAction::Play(SoundEffect::Confirm));
                proof {
                    assert(v@ =~= seq![NavAction::CycleLibrarySort, NavAction::Refilter, NavAction::Play(SoundEffect::Confirm)]);
                }
                v
            } else {
                none()
            },
            AppCommand::CycleLibraryView => if browse && !store {
                self.cursor = NavCursor { library_view: c.library_view.next(), ..c };
                let mut v = one(NavAction::CycleLibraryView);
                v.push(NavAction::ResetScroll);
                v.push(NavAction::Play(SoundEffect::Confirm));
                proof {
                    assert(v@ =~= seq![NavAction::CycleLibraryView, NavAction::ResetScroll, NavAction::Play(SoundEffect::Confirm)]);
                }
                v
            } else {
                none()
            },
            AppCommand::SearchStore => {
                let filters = match c.mode {
                    Mode::StoreFilters => true,
                    _ => false,
                };
                if !store || !(browse || filters) || c.ime_active {
                    none()
                } else {
                    then(one(NavAction::Play(SoundEffect::OpenModal)), one(NavAction::OpenStoreSearchDialog))
                }
            },
            AppCommand::OpenStoreFilters => if store && browse {
                self.cursor = NavCursor { mode: Mode::StoreFilters, picker_index: 0, ..c };
                one(NavAction::Play(SoundEffect::OpenModal))
            } else {
                none()
            },
            AppCommand::ClearStoreRegions => {
                self.cursor = NavCursor { selected: 0, ..c };
                let mut v = one(NavAction::ClearStoreRegions);
                v.push(NavAction::ResetScroll);
                v.push(NavAction::Refilter);
                v.push(NavAction::Play(SoundEffect::Confirm));
                proof {
                    assert(v@ =~= seq![NavAction::ClearStoreRegions, NavAction::ResetScroll, NavAction::Refilter, NavAction::Play(SoundEffect::Confirm)]);
                }
                v
            },
            AppCommand::ToggleStoreRegion(i) => if i < STORE_REGION_COUNT {
                self.cursor = NavCursor { selected: 0, ..c };
                let mut v = one(NavAction::ToggleStoreRegion(i));
                v.push(NavAction::ResetScroll);
                v.push(NavAction::Refilter);
                v.push(NavAction::Play(SoundEffect::Confirm));
                proof {
                    assert(v@ =~= seq![NavAction::ToggleStoreRegion(i), NavAction::ResetScroll, NavAction::Refilter, NavAction::Play(SoundEffect::Confirm)]);
                }
                v
            } else {
                none()
            },
            AppCommand::SetDownloadChoice(choice) => if c.download_choice.is_some() {
                self.cursor = NavCursor { download_choice: Some(choice), ..c };
                one(NavAction::Play(SoundEffect::Navigate))
            } else {
                none()
            },
            AppCommand::ConfirmDownload(yes) => if c.download_choice.is_some() {
                self.cursor = NavCursor { download_choice: None, ..c };
                if yes {
                    one(NavAction::ExecuteDownload)
                } else {
                    one(NavAction::Play(SoundEffect::CloseModal))
                }
            } else {
                none()
            },
            AppCommand::Confirm => match c.download_choice {
                Some(choice) => {
                    self.cursor = NavCursor { download_choice: None, ..c };
                    if choice == 0 {
                        one(NavAction::ExecuteDownload)
                    } else {
                        one(NavAction::Play(SoundEffect::CloseModal))
                    }
                },
                None => {
                    let rest = match c.mode {
                        Mode::TabOrganizer => {
                            self.cursor = NavCursor { mode: Mode::Browse, ..c };
                            one(NavAction::Refilter)
                        },
                        Mode::ScanFolders => self.handle_command(AppCommand::ToggleScanFolder(c.picker_index)),
                        Mode::StoreFilters => if c.picker_index == 0 {
                            self.handle_command(AppCommand::SearchStore)
                        } else if c.picker_index == 1 {
                            self.handle_command(AppCommand::ClearStoreRegions)
                        } else {
                            self.handle_command(AppCommand::ToggleStoreRegion(c.picker_index - 2))
                        },
                        Mode::GameOptions => if c.picker_index == 0 {
                            self.handle_command(AppCommand::RenameSelectedGame)
                        } else if c.picker_index == 1 {
                            self.handle_command(AppCommand::ToggleHideSelectedGame)
                        } else {
                            self.cursor = NavCursor { mode: Mode::Browse, ..c };
                            none()
                        },
                        _ => if settings {
                            let k = c.settings_selected;
                            if k == 0 {
                                one(NavAction::Rescan)
                            } else if k == 1 {
                                self.handle_command(AppCommand::ToggleDownloadBgm)
                            } else if k == 2 {
                                self.handle_command(AppCommand::CycleLanguage)
                            } else if k == 3 {
                                self.handle_command(AppCommand::OpenScanFolders)
                            } else if k == 4 {
                                self.handle_command(AppCommand::CycleCacheBudget)
                            } else if k == 5 {
                                self.handle_command(AppCommand::CycleLibrarySort)
                            } else if k == 6 {
                                self.handle_command(AppCommand::CleanOrphanCache)
                            } else if k == 7 {
                                self.handle_command(AppCommand::PurgeMusicCache)
                            } else if k == 8 {
                                self.handle_command(AppCommand::PurgeAllCache)
                            } else {
                                none()
                            }
                        } else {
                            match c.mode {
                                Mode::CollectionPicker => self.handle_command(AppCommand::TogglePickerRow(c.picker_index)),
                                Mode::StoreDetail => one(NavAction::ConfirmStoreDetail),
                                _ => if store {
                                    one(NavAction::OpenStoreDetail)
                                } else {
                                    one(NavAction::LaunchSelected)
                                },
                            }
                        },
                    };
                    then(one(NavAction::Play(SoundEffect::Confirm)), rest)
                },
            },
            AppCommand::Rescan => then(one(NavAction::Play(SoundEffect::Confirm)), one(NavAction::Rescan)),
            AppCommand::ToggleDownloadBgm => then(one(NavAction::Play(SoundEffect::Confirm)), one(NavAction::ToggleDownloadBgm)),
            AppCommand::CycleLanguage => {
                let mut v = one(NavAction::Play(SoundEffect::Confirm));
                v.push(NavAction::CycleLanguage);
                v.push(NavAction::RebuildTabs);
                proof {
                    assert(v@ =~= seq![NavAction::Play(SoundEffect::Confirm), NavAction::CycleLanguage, NavAction::RebuildTabs]);
                }
                v
            },
            AppCommand::CycleCacheBudget => then(one(NavAction::Play(SoundEffect::Confirm)), one(NavAction::CycleCacheBudget)),
            AppCommand::CleanOrphanCache => then(one(NavAction::Play(SoundEffect::Confirm)), one(NavAction::CleanOrphanCache)),
            AppCommand::PurgeMusicCache => then(one(NavAction::Play(SoundEffect::Confirm)), one(NavAction::PurgeMusicCache)),
            AppCommand::PurgeAllCache => then(one(NavAction::Play(SoundEffect::Confirm)), one(NavAction::PurgeAllCache)),
            AppCommand::TogglePickerRow(i) => match c.mode {
                Mode::CollectionPicker => if c.selected < c.visible_len {
                    self.cursor = NavCursor { picker_index: i, ..c };
                    one(NavAction::TogglePickerRow(i))
                } else {
                    none()
                },
                _ => none(),
            },
            AppCommand::OpenScanFolders => {
                self.cursor = NavCursor { mode: Mode::ScanFolders, picker_index: 0, ..c };
                then(one(NavAction::Play(SoundEffect::OpenModal)), one(NavAction::DiscoverScanFolders))
            },
            AppCommand::ToggleScanFolder(i) => if i < c.scan_folder_rows {
                then(one(NavAction::Play(SoundEffect::Confirm)), one(NavAction::ToggleScanFolder(i)))
            } else {
                none()
            },
            AppCommand::AddCustomScanFolder | AppCommand::RemoveCustomScanFolder(_) => none(),
            AppCommand::Back => self.back(),
            AppCommand::SelectVisibleSlot(slot) => if slot < c.visible_len {
                self.cursor = NavCursor { selected: slot, ..c };
                if slot != c.selected {
                    one(NavAction::Play(SoundEffect::Navigate))
                } else {
                    none()
                }
            } else {
                none()
            },
            AppCommand::Quit => if c.download_choice.is_some() {
                self.cursor = NavCursor { download_choice: None, ..c };
                none()
            } else {
                match c.mode {
                    Mode::StoreDetail => {
                        self.cursor = NavCursor { mode: Mode::Browse, detail: None, ..c };
                        one(NavAction::CloseStoreDetail)
                    },
                    Mode::Browse => one(NavAction::Exit),
                    _ => none(),
                }
            },
        }
    }

    fn back(&mut self) -> (actions: Vec<NavAction>)
        requires
            old(self).wf(),
        ensures
            final(self).wf(),
            (final(self).tabs@, final(self).cursor, actions@) == command_spec(old(self).tabs@, old(self).cursor, AppCommand::Back),
    {
        let c = self.cursor;
        let close = NavAction::Play(SoundEffect::CloseModal);
        if c.download_choice.is_some() {
            self.cursor = NavCursor { download_choice: None, ..c };
            return one(close);
        }
        match c.mode {
            Mode::StoreDetail => {
                let lit = match c.detail {
                    Some(d) => d.lightbox.is_some(),
                    None => false,
                };
                if lit {
                    let d = c.detail.unwrap();
                    self.cursor = NavCursor { detail: Some(DetailCursor { lightbox: None, ..d }), ..c };
                    one(close)
                } else {
                    self.cursor = NavCursor { mode: Mode::Browse, detail: None, ..c };
                    then(one(close), one(NavAction::CloseStoreDetail))
                }
            },
            Mode::StoreFilters | Mode::GameOptions | Mode::ScanFolders => {
                self.cursor = NavCursor { mode: Mode::Browse, ..c };
                one(close)
            },
            _ => if c.search_active {
                self.cursor = NavCursor { search_active: false, ..c };
                let mut v = one(close);
                v.push(NavAction::ClearSearch);
                v.push(NavAction::Refilter);
                proof {
                    assert(v@ =~= seq![close, NavAction::ClearSearch, NavAction::Refilter]);
                }
                v
            } else {
                match c.mode {
                    Mode::CollectionPicker => {
                        self.cursor = NavCursor { mode: Mode::Browse, ..c };
                        then(one(close), one(NavAction::RebuildTabs))
                    },
                    Mode::TabOrganizer => {
                        self.cursor = NavCursor { mode: Mode::Browse, ..c };
                        then(one(close), one(NavAction::Refilter))
                    },
                    _ => if c.active_tab == self.tabs.len() {
                        let (c2, a) = set_tab(self.tabs.as_slice(), c, c.tab_before_settings);
                        self.cursor = c2;
                        then(one(close), a)
                    } else {
                        none()
                    },
                }
            },
        }
    }

    fn handle_input(&mut self, input: InputCommand) -> (actions: Vec<NavAction>)
        requires
            old(self).wf(),
            !moves_settings_tab(old(self).tabs@, old(self).cursor, AppCommand::Input(input)),
        ensures
            final(self).wf(),
            (final(self).tabs@, final(self).cursor, actions@) == input_spec(old(self).tabs@, old(self).cursor, input),
    {
        let c = self.cursor;
        match c.download_choice {
            Some(choice) => {
                return match input {
                    InputCommand::MoveLeft => if choice > 0 {
                        self.cursor = NavCursor { download_choice: Some(0), ..c };
                        one(NavAction::Play(SoundEffect::Navigate))
                    } else {
                        none()
                    },
                    InputCommand::MoveRight => if choice < 1 {
                        self.cursor = NavCursor { download_choice: Some(1), ..c };
                        one(NavAction::Play(SoundEffect::Navigate))
                    } else {
                        none()
                    },
                    _ => none(),
                };
            },
            None => {},
        }
        match c.mode {
            Mode::Browse => {
                let (c2, a) = browse_input(self.tabs.as_slice(), c, input);
                self.cursor = c2;
                a
            },
            Mode::TabOrganizer => match input {
                InputCommand::MoveLeft => self.move_tab(false),
                InputCommand::MoveRight => self.move_tab(true),
                _ => none(),
            },
            Mode::StoreDetail => {
                let (c2, a) = detail_input(c, input);
                self.cursor = c2;
                a
            },
            _ => {
                let rows = match c.mode {
                    Mode::CollectionPicker => c.collection_rows,
                    Mode::ScanFolders => c.scan_folder_rows,
                    Mode::StoreFilters => STORE_FILTER_ROWS,
                    _ => 3,
                };
                match input {
                    InputCommand::MoveUp => {
                        let (p, a) = step_up_exec(c.picker_index);
                        self.cursor = NavCursor { picker_index: p, ..c };
                        a
                    },
                    InputCommand::MoveDown => {
                        let (p, a) = step_down_exec(c.picker_index, rows);
                        self.cursor = NavCursor { picker_index: p, ..c };
                        a
                    },
                    _ => none(),
                }
            },
        }
    }

    fn move_tab(&mut self, forward: bool) -> (actions: Vec<NavAction>)
        requires
            old(self).wf(),
            old(self).tabs@.len() >= 2 ==> old(self).cursor.active_tab < old(self).tabs@.len(),
        ensures
            final(self).wf(),
            (final(self).tabs@, final(self).cursor, actions@) == move_tab_spec(old(self).tabs@, old(self).cursor, forward),
    {
        let len = self.tabs.len();
        if len < 2 {
            return none();
        }
        let a = self.cursor.active_tab;
        let next = if forward {
            if a + 1 > len - 1 { len - 1 } else { a + 1 }
        } else {
            if a == 0 { 0 } else { a - 1 }
        };
        if next == a {
            return none();
        }
        let ghost old_tabs = self.tabs@;
        let t = self.tabs.remove(a);
        self.tabs.insert(next, t);
        proof {
            lemma_remove_insert_is_swap(old_tabs, a as int, next as int);
        }
        self.cursor = NavCursor { active_tab: next, ..self.cursor };
        let mut v = one(NavAction::SwapTabs(a, next));
        v.push(NavAction::PersistTabOrder);
        v.push(NavAction::Play(SoundEffect::Navigate));
        proof {
            assert(v@ =~= seq![NavAction::SwapTabs(a, next), NavAction::PersistTabOrder, NavAction::Play(SoundEffect::Navigate)]);
        }
        v
    }
}


/// Opening the settings from a tab and closing them again (by the same
/// command) comes back to that tab, browsing, with the selection reset.
pub proof fn law_settings_round_trip(tabs: Seq<TabTarget>, c: NavCursor)
    requires
        c.mode == Mode::Browse,
        c.active_tab < tabs.len(),
        tabs.len() <= usize::MAX,
    ensures
        ({
            let (t1, c1, _) = command_spec(tabs, c, AppCommand::OpenSettings);
            let (t2, c2, _) = command_spec(t1, c1, AppCommand::OpenSettings);
            &&& is_settings(t1, c1)
            &&& t2 == tabs
            &&& c2.active_tab == c.active_tab
            &&& c2.mode == Mode::Browse
            &&& c2.selected == 0
        }),
{
    let c0 = NavCursor { tab_before_settings: c.active_tab, settings_selected: 0, ..c };
    let r1 = command_spec(tabs, c, AppCommand::OpenSettings);
    assert(r1.0 == tabs);
    assert(r1.1 == NavCursor { active_tab: tabs.len() as usize, selected: 0, ..c0 });
    let r2 = command_spec(r1.0, r1.1, AppCommand::OpenSettings);
    assert(r2.1 == NavCursor { active_tab: c.active_tab, selected: 0, ..r1.1 });
}

/// Opening the tab organiser while browsing and backing out of it leaves
/// the navigation state as it was.
pub proof fn law_organizer_back(tabs: Seq<TabTarget>, c: NavCursor)
    requires
        c.mode == Mode::Browse,
        c.download_choice is None,
        !c.search_active,
    ensures
        ({
            let (t1, c1, _) = command_spec(tabs, c, AppCommand::ToggleSearch);
            let (t2, c2, _) = command_spec(t1, c1, AppCommand::Back);
            t2 == tabs && c2 == c
        }),
{
}

/// Moving to the next tab and back to the previous one returns to the same
/// tab.
pub proof fn law_tab_next_prev(tabs: Seq<TabTarget>, c: NavCursor)
    requires
        c.mode == Mode::Browse,
        c.active_tab < tabs.len(),
        tabs.len() <= usize::MAX,
    ensures
        ({
            let (t1, c1, _) = command_spec(tabs, c, AppCommand::TabNext);
            let (t2, c2, _) = command_spec(t1, c1, AppCommand::TabPrev);
            t2 == tabs && c2.active_tab == c.active_tab && c2.selected == 0
        }),
{
    let n = tabs.len() as int;
    let a = c.active_tab as int;
    let next = (a + 1) % n;
    assert(0 <= next < n && (next + n - 1) % n == a) by (nonlinear_arith)
        requires
            0 <= a < n,
            next == (a + 1) % n,
    {
        if a + 1 < n {
            assert((a + 1) % n == a + 1);
        } else {
            assert((a + 1) % n == 0);
        }
    }
}

/// While organising tabs, moving the active tab right and then left puts
/// every tab back where it was.
pub proof fn law_move_tab_back(tabs: Seq<TabTarget>, c: NavCursor)
    requires
        c.mode == Mode::TabOrganizer,
        c.active_tab + 1 < tabs.len(),
        tabs.len() <= usize::MAX,
    ensures
        ({
            let (t1, c1, _) = command_spec(tabs, c, AppCommand::TabNext);
            let (t2, c2, _) = command_spec(t1, c1, AppCommand::TabPrev);
            t2 == tabs && c2 == c
        }),
{
    let a = c.active_tab as int;
    let (t1, c1, _) = command_spec(tabs, c, AppCommand::TabNext);
    assert(t1 == swap_tabs(tabs, a, a + 1));
    assert(swap_tabs(t1, a + 1, a) =~= tabs);
}


/// What the launcher does with the text a closed input dialog gave.
#[derive(Clone, Debug, PartialEq, Eq)]
pub enum ImeOutcome {
    /// Show this title (trimmed) for the game with this id.
    Rename(String, String),
    /// Create a collection of this name (trimmed) with the highlighted game.
    CreateCollection(String),
    /// Search for this text (trimmed).
    Search(String),
    /// The search was emptied.
    ClearSearch,
    /// The dialog was cancelled: pending renames and creations are dropped,
    /// and an empty search ends.
    Cancelled { end_search: bool },
}

/// What a closed input dialog asks for: with text, the pending rename, else
/// the pending collection, else the search (emptied by blank text); when
/// cancelled, nothing but ending an empty search.
pub open spec fn ime_outcome_spec(
    text: Option<Seq<char>>,
    rename_pending: Option<Seq<char>>,
    create_pending: bool,
    search_empty: bool,
) -> (Option<Seq<char>>, Option<Seq<char>>, int) {
    match text {
        Some(t) => {
            let trimmed = crate::text::trim_seq(t);
            match rename_pending {
                Some(id) => (Some(id), Some(trimmed), 0),
                None => if create_pending {
                    (None, Some(trimmed), 1)
                } else if trimmed.len() == 0 {
                    (None, None, 3)
                } else {
                    (None, Some(trimmed), 2)
                },
            }
        },
        None => (None, None, if search_empty { 5 } else { 4 }),
    }
}

/// The shape of an outcome: which variant, and the texts it carries.
pub open spec fn outcome_view(o: ImeOutcome) -> (Option<Seq<char>>, Option<Seq<char>>, int) {
    match o {
        ImeOutcome::Rename(id, t) => (Some(id@), Some(t@), 0),
        ImeOutcome::CreateCollection(t) => (None, Some(t@), 1),
        ImeOutcome::Search(t) => (None, Some(t@), 2),
        ImeOutcome::ClearSearch => (None, None, 3),
        ImeOutcome::Cancelled { end_search } => (None, None, if end_search { 5 } else { 4 }),
    }
}

/// What a closed input dialog asks for.
pub fn ime_outcome(text: Option<&str>, rename_pending: Option<&str>, create_pending: bool, search_empty: bool) -> (o: ImeOutcome)
    ensures
        outcome_view(o) == ime_outcome_spec(
            match text {
                Some(t) => Some(t@),
                None => None,
            },
            match rename_pending {
                Some(id) => Some(id@),
                None => None,
            },
            create_pending,
            search_empty,
        ),
{
    match text {
        Some(t) => {
            let trimmed = crate::text::trim(t);
            match rename_pending {
                Some(id) => ImeOutcome::Rename(id.to_owned(), trimmed),
                None => if create_pending {
                    ImeOutcome::CreateCollection(trimmed)
                } else if trimmed.as_str().is_empty() {
                    ImeOutcome::ClearSearch
                } else {
                    ImeOutcome::Search(trimmed)
                },
            }
        },
        None => ImeOutcome::Cancelled { end_search: search_empty },
    }
}

} // verus!
