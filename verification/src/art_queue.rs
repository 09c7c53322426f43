use vstd::prelude::*;

use crate::runtime::governor::{pressure_rank, MemoryPressure};
use crate::store::{cover_url_for_title_id, cover_url_spec, item_cover_spec, opt_view, StoreItem};

verus! {

/// Games past the highlighted one whose artwork is fetched ahead.
pub const ART_LOOKAHEAD: usize = 10;

/// Artwork jobs running at once for the library.
pub const MAX_ART_JOBS_IN_FLIGHT: usize = 2;

/// Artwork jobs running at once for the store, kept serial so fast
/// scrolling never bursts requests at the service.
pub const STORE_ART_JOBS_IN_FLIGHT: usize = 1;

/// Frames the store highlight must rest before a cover is requested.
pub const STORE_SCROLL_SETTLE_FRAMES: u64 = 12;

/// Frames between two store cover requests.
pub const STORE_ART_INTERVAL_FRAMES: u64 = 18;

/// Games per row of the store grid.
pub const STORE_GRID_COLS: usize = 6;

/// How far ahead artwork is fetched: only with memory to spare.
pub fn art_lookahead(p: MemoryPressure) -> (n: usize)
    ensures
        n == if p == MemoryPressure::Normal { ART_LOOKAHEAD } else { 0 },
{
    match p {
        MemoryPressure::Normal => ART_LOOKAHEAD,
        _ => 0,
    }
}

/// How many artwork jobs may run at once: fewer as memory gets scarce,
/// none in an emergency.
pub fn art_jobs_budget(store_tab: bool, p: MemoryPressure) -> (n: usize)
    ensures
        n == match p {
            MemoryPressure::Normal => if store_tab { STORE_ART_JOBS_IN_FLIGHT } else { MAX_ART_JOBS_IN_FLIGHT },
            MemoryPressure::Warning => if store_tab { STORE_ART_JOBS_IN_FLIGHT } else { MAX_ART_JOBS_IN_FLIGHT },
            MemoryPressure::Aggressive => 1,
            MemoryPressure::Emergency => 0,
        },
{
    let base = if store_tab { STORE_ART_JOBS_IN_FLIGHT } else { MAX_ART_JOBS_IN_FLIGHT };
    match p {
        MemoryPressure::Normal => base,
        MemoryPressure::Warning => if base < 2 { base } else { 2 },
        MemoryPressure::Aggressive => 1,
        MemoryPressure::Emergency => 0,
    }
}

/// The slots of the library whose artwork is wanted: two before the
/// highlighted one to four (plus the look-ahead) after it.
pub fn library_art_window(selected: usize, visible_len: usize, lookahead: usize) -> (r: (usize, usize))
    ensures
        r.0 == if selected >= 2 { selected - 2 } else { 0 },
        r.1 == if selected + 4 + lookahead < visible_len { selected + 4 + lookahead } else { visible_len as int },
{
    let start = if selected >= 2 { selected - 2 } else { 0 };
    let end = if selected < visible_len && visible_len - selected > 4 && visible_len - selected - 4 > lookahead {
        selected + 4 + lookahead
    } else {
        visible_len
    };
    (start, end)
}

/// The slots of the store grid whose covers are wanted: from the row
/// above the first one on screen to two rows past the screen, plus the
/// look-ahead; nothing for an empty grid.
pub fn store_art_window(first_row: usize, rows_on_screen: usize, lookahead: usize, visible_len: usize) -> (r: (usize, usize))
    requires
        first_row + rows_on_screen + 2 <= usize::MAX,
    ensures
        visible_len == 0 ==> r == (0usize, 0usize),
        visible_len > 0 ==> {
            let start_row = if first_row >= 1 { first_row - 1 } else { 0 };
            let end = (first_row + rows_on_screen + 2) * STORE_GRID_COLS + lookahead;
            &&& r.0 == if start_row * STORE_GRID_COLS <= usize::MAX { start_row * STORE_GRID_COLS } else { usize::MAX as int }
            &&& r.1 == if end < visible_len { end } else { visible_len as int }
        },
{
    if visible_len == 0 {
        return (0, 0);
    }
    let start_row = if first_row >= 1 { first_row - 1 } else { 0 };
    let start = if start_row <= usize::MAX / STORE_GRID_COLS { start_row * STORE_GRID_COLS } else { usize::MAX };
    let rows = first_row + rows_on_screen + 2;
    let end = if rows < visible_len / STORE_GRID_COLS + 1 {
        let cells = rows * STORE_GRID_COLS;
        if cells < visible_len && visible_len - cells > lookahead {
            cells + lookahead
        } else {
            visible_len
        }
    } else {
        visible_len
    };
    (start, end)
}

/// The first slot of `start..end` whose game needs artwork.
pub open spec fn first_needing(visible: Seq<usize>, needs: Seq<bool>, start: int, end: int) -> Option<usize>
    decreases end - start,
{
    if start >= end {
        None
    } else if start < visible.len() && visible[start] < needs.len() && needs[visible[start] as int] {
        Some(visible[start])
    } else {
        first_needing(visible, needs, start + 1, end)
    }
}

/// The game whose artwork to fetch next, given for each game whether it
/// needs artwork: under heavy memory pressure only the highlighted game;
/// otherwise the first game of the window that needs it.
pub open spec fn next_art_spec(
    visible: Seq<usize>,
    needs: Seq<bool>,
    selected: int,
    window: (usize, usize),
    p: MemoryPressure,
) -> Option<usize> {
    if visible.len() == 0 {
        None
    } else if pressure_rank(p) >= pressure_rank(MemoryPressure::Aggressive) {
        if 0 <= selected < visible.len() && visible[selected] < needs.len() && needs[visible[selected] as int] {
            Some(visible[selected])
        } else {
            None
        }
    } else {
        first_needing(visible, needs, window.0 as int, window.1 as int)
    }
}

/// The game whose artwork to fetch next.
pub fn next_art_candidate(
    visible: &[usize],
    needs: &[bool],
    selected: usize,
    window: (usize, usize),
    p: MemoryPressure,
) -> (r: Option<usize>)
    ensures
        r == next_art_spec(visible@, needs@, selected as int, window, p),
{
    if visible.len() == 0 {
        return None;
    }
    if p.at_least(MemoryPressure::Aggressive) {
        if selected < visible.len() && visible[selected] < needs.len() && needs[visible[selected]] {
            return Some(visible[selected]);
        }
        return None;
    }
    let (start, end) = window;
    let mut slot = start;
    while slot < end
        invariant
            start <= slot,
            visible@.len() > 0,
            pressure_rank(p) < pressure_rank(MemoryPressure::Aggressive),
            window == (start, end),
            first_needing(visible@, needs@, start as int, end as int) == first_needing(visible@, needs@, slot as int, end as int),
        decreases end - slot,
    {
        if slot < visible.len() && visible[slot] < needs.len() && needs[visible[slot]] {
            return Some(visible[slot]);
        }
        slot = slot + 1;
    }
    None
}

/// Pacing of store cover requests: the highlight they were last paced
/// for, and the first frame a request may start.
pub struct StorePacer {
    pub last_selected: Option<usize>,
    pub next_art_frame: u64,
}

impl StorePacer {
    pub fn new() -> (s: Self)
        ensures
            s.last_selected is None,
            s.next_art_frame == 0,
    {
        StorePacer { last_selected: None, next_art_frame: 0 }
    }

    /// On the store tab, whether a cover request may start at `frame`: a
    /// moved highlight restarts the settling wait and admits nothing.
    pub fn may_request(&mut self, selected: usize, frame: u64) -> (ok: bool)
        ensures
            old(self).last_selected != Some(selected) ==> {
                &&& !ok
                &&& final(self).last_selected == Some(selected)
                &&& final(self).next_art_frame == if frame + STORE_SCROLL_SETTLE_FRAMES <= u64::MAX {
                    frame + STORE_SCROLL_SETTLE_FRAMES
                } else {
                    u64::MAX as int
                }
            },
            old(self).last_selected == Some(selected) ==> {
                &&& ok == (frame >= old(self).next_art_frame)
                &&& *final(self) == *old(self)
            },
    {
        if self.last_selected != Some(selected) {
            self.last_selected = Some(selected);
            self.next_art_frame = frame.saturating_add(STORE_SCROLL_SETTLE_FRAMES);
            return false;
        }
        frame >= self.next_art_frame
    }

    /// Away from the store: the next visit starts settling afresh.
    pub fn leave(&mut self)
        ensures
            final(self).last_selected is None,
            final(self).next_art_frame == old(self).next_art_frame,
    {
        self.last_selected = None;
    }

    /// A store cover request started at `frame`: the next waits a while.
    pub fn started(&mut self, frame: u64)
        ensures
            final(self).last_selected == old(self).last_selected,
            final(self).next_art_frame == if frame + STORE_ART_INTERVAL_FRAMES <= u64::MAX {
                frame + STORE_ART_INTERVAL_FRAMES
            } else {
                u64::MAX as int
            },
    {
        self.next_art_frame = frame.saturating_add(STORE_ART_INTERVAL_FRAMES);
    }
}

/// The cover URL handed to an artwork job: for the store, the stable
/// title-id route, else the catalogue's image, else what the artwork
/// service knew; for the library, what the service knew.
pub open spec fn job_cover_spec(
    is_store: bool,
    title_id: Seq<char>,
    item: Option<StoreItem>,
    known_cover: Option<Seq<char>>,
) -> Option<Seq<char>> {
    if is_store {
        match cover_url_spec(title_id) {
            Some(u) => Some(u),
            None => match item {
                Some(it) => match item_cover_spec(it) {
                    Some(u) => Some(u),
                    None => known_cover,
                },
                None => known_cover,
            },
        }
    } else {
        known_cover
    }
}

/// The cover URL handed to an artwork job.
pub fn job_cover_url(is_store: bool, title_id: &str, item: Option<&StoreItem>, known_cover: Option<String>) -> (r: Option<
    String,
>)
    ensures
        opt_view(r) == job_cover_spec(
            is_store,
            title_id@,
            match item {
                Some(it) => Some(*it),
                None => None,
            },
            opt_view(known_cover),
        ),
{
    if !is_store {
        return known_cover;
    }
    match cover_url_for_title_id(title_id) {
        Some(u) => Some(u),
        None => match item {
            Some(it) => match it.resolved_cover_url() {
                Some(u) => Some(u),
                None => known_cover,
            },
            None => known_cover,
        },
    }
}

/// The music URL handed to an artwork job: none in safe mode, with music
/// downloads off, when the game has its music, or for the store.
pub fn job_music_url(
    safe_mode: bool,
    download_bgm: bool,
    music_resolved: bool,
    is_store: bool,
    known_music: Option<String>,
) -> (r: Option<String>)
    ensures
        r == if safe_mode || !download_bgm || music_resolved || is_store { None } else { known_music },
{
    if safe_mode || !download_bgm || music_resolved || is_store {
        None
    } else {
        known_music
    }
}


/// Covers kept around the highlighted library game, each way.
pub const COVER_KEEP_RADIUS: usize = 18;

/// Frames the highlight must rest before its music plays.
pub const MUSIC_SETTLE_FRAMES: u32 = 18;

/// Frames the highlight must rest before its hero and logo are loaded.
pub const ART_SETTLE_FRAMES: u32 = 14;

/// The slots of the library whose covers stay loaded: the highlighted one
/// and up to the radius each way (an empty range when nothing is visible).
pub fn library_keep_window(selected: usize, visible_len: usize) -> (r: (usize, usize))
    ensures
        r.0 == if selected >= COVER_KEEP_RADIUS { selected - COVER_KEEP_RADIUS } else { 0 },
        ({
            let last = if visible_len > 0 { visible_len - 1 } else { 0 };
            let hi = if selected + COVER_KEEP_RADIUS < last { selected + COVER_KEEP_RADIUS } else { last };
            r.1 == if r.0 <= hi { hi + 1 } else { r.0 as int }
        }),
{
    let start = if selected >= COVER_KEEP_RADIUS { selected - COVER_KEEP_RADIUS } else { 0 };
    let last = if visible_len > 0 { visible_len - 1 } else { 0 };
    let hi = if selected < last && last - selected > COVER_KEEP_RADIUS { selected + COVER_KEEP_RADIUS } else { last };
    if start <= hi {
        (start, hi + 1)
    } else {
        (start, start)
    }
}

/// Which games (by index, out of `game_count`) are shown in the slots
/// `start..end` of the visible list.
pub fn kept_games(visible: &[usize], start: usize, end: usize, game_count: usize) -> (keep: Vec<bool>)
    ensures
        keep@.len() == game_count,
        forall|g: int| 0 <= g < game_count ==> #[trigger] keep@[g] == exists|s: int|
            start <= s < end && s < visible@.len() && visible@[s] == g,
{
    let mut keep: Vec<bool> = Vec::new();
    let mut k: usize = 0;
    while k < game_count
        invariant
            k <= game_count,
            keep@.len() == k,
            forall|g: int| 0 <= g < k ==> !#[trigger] keep@[g],
        decreases game_count - k,
    {
        keep.push(false);
        k = k + 1;
    }
    let mut s: usize = start;
    while s < end && s < visible.len()
        invariant
            start <= s,
            keep@.len() == game_count,
            forall|g: int| 0 <= g < game_count ==> #[trigger] keep@[g] == exists|t: int|
                start <= t < s && t < end && t < visible@.len() && visible@[t] == g,
        decreases visible@.len() - s,
    {
        let g = visible[s];
        if g < game_count {
            keep.set(g, true);
        }
        proof {
            assert forall|h: int| 0 <= h < game_count implies #[trigger] keep@[h] == exists|t: int|
                start <= t < s + 1 && t < end && t < visible@.len() && visible@[t] == h by {
                if visible@[s as int] == h {
                    assert(start <= s < s + 1 && s < end && s < visible@.len() && visible@[s as int] == h);
                }
            }
        }
        s = s + 1;
    }
    proof {
        assert forall|g: int| 0 <= g < game_count implies #[trigger] keep@[g] == exists|t: int|
            start <= t < end && t < visible@.len() && visible@[t] == g by {
            if exists|t: int| start <= t < end && t < visible@.len() && visible@[t] == g {
                let t = choose|t: int| start <= t < end && t < visible@.len() && visible@[t] == g;
                assert(t < s);
            }
        }
    }
    keep
}

/// The highlight the music follows and how long it has rested: a new
/// highlight starts again from zero; a resting one counts up to just past
/// the music delay.
pub fn settle_music(music_selected: Option<usize>, selected_index: Option<usize>, frames: u32) -> (r: (Option<usize>, u32))
    ensures
        music_selected != selected_index ==> r == (selected_index, 0u32),
        music_selected == selected_index ==> r == (music_selected, if frames <= MUSIC_SETTLE_FRAMES { (frames + 1) as u32 } else { frames }),
{
    if music_selected != selected_index {
        (selected_index, 0)
    } else if frames <= MUSIC_SETTLE_FRAMES {
        (music_selected, frames + 1)
    } else {
        (music_selected, frames)
    }
}

/// What the background music does this frame.
#[derive(Clone, Debug, PartialEq, Eq)]
pub enum MusicStep {
    /// Silence: no music on this screen.
    Stop,
    /// Keep what plays; the highlight has not rested long enough.
    Wait,
    /// Play this file.
    Play(String),
    /// Silence, and ask for the game's music to be downloaded.
    Fetch(usize),
}

/// What the background music does: none in safe mode, on the settings or
/// store tab, or with nothing highlighted; nothing new until the highlight
/// rests; then the game's music when it has one, else a download of it.
pub fn music_step(
    safe_mode: bool,
    settings_tab: bool,
    store_tab: bool,
    selected_index: Option<usize>,
    settle_frames: u32,
    game_exists: bool,
    music_path: Option<String>,
) -> (r: MusicStep)
    ensures
        safe_mode || settings_tab || store_tab || selected_index is None ==> r == MusicStep::Stop,
        !(safe_mode || settings_tab || store_tab || selected_index is None) ==> r == if settle_frames < MUSIC_SETTLE_FRAMES || !game_exists {
            MusicStep::Wait
        } else {
            match music_path {
                Some(p) => MusicStep::Play(p),
                None => MusicStep::Fetch(selected_index->0),
            }
        },
{
    if safe_mode || settings_tab || store_tab {
        return MusicStep::Stop;
    }
    let index = match selected_index {
        Some(i) => i,
        None => return MusicStep::Stop,
    };
    if settle_frames < MUSIC_SETTLE_FRAMES || !game_exists {
        return MusicStep::Wait;
    }
    match music_path {
        Some(p) => MusicStep::Play(p),
        None => MusicStep::Fetch(index),
    }
}

/// Whether a game's music may be downloaded now: downloads on, online on
/// Wi-Fi with memory to spare, not already asked for, and past any retry
/// wait.
pub fn music_fetch_allowed(
    download_bgm: bool,
    net_ready: bool,
    wifi: bool,
    p: MemoryPressure,
    retry_at: Option<u64>,
    frame: u64,
    requested: bool,
) -> (ok: bool)
    ensures
        ok == (download_bgm && net_ready && wifi && p == MemoryPressure::Normal && !(retry_at matches Some(t) && frame < t)
            && !requested),
{
    let waiting = match retry_at {
        Some(t) => frame < t,
        None => false,
    };
    let normal = match p {
        MemoryPressure::Normal => true,
        _ => false,
    };
    download_bgm && net_ready && wifi && normal && !waiting && !requested
}

/// Frames a cache notice stays on screen.
pub const NOTICE_FRAMES: u64 = 195;

/// Frames a title waits before its music is asked for again after a job
/// that ended without it.
pub const MUSIC_RETRY_FRAMES: u64 = 480;

/// Where a title's artwork download stands.
#[derive(Clone, Copy, Debug, PartialEq, Eq, Structural)]
pub enum ArtState {
    Pending,
    Done,
    Failed,
}

/// What the launcher keeps about one title's artwork and music downloads.
#[derive(Clone, Copy, Debug, PartialEq, Eq, Structural)]
pub struct TitleArt {
    pub state: Option<ArtState>,
    pub music_requested: bool,
    /// The frame before which its music is not asked for again.
    pub retry_after: Option<u64>,
}

/// What an artwork job reported for a title.
#[derive(Clone, Copy, Debug, PartialEq, Eq, Structural)]
pub struct ArtReport {
    /// The job is finished (a partial report comes first when music lags).
    pub job_complete: bool,
    pub images_ok: bool,
    pub music_downloaded: bool,
    /// The job reported an error.
    pub failed: bool,
    /// The cover was for a store card no longer kept on screen.
    pub store_discarded: bool,
    /// The title is the highlighted game.
    pub selected: bool,
}

/// The frame-to-frame bookkeeping of the launcher.
#[derive(Clone, Copy, Debug, PartialEq, Eq, Structural)]
pub struct TickState {
    pub frame: u64,
    pub in_flight: usize,
    pub dl_ok: u32,
    pub dl_fail: u32,
    /// The frame the cache notice was shown at, while one is shown.
    pub notice_since: Option<u64>,
}

/// What happens to the bookkeeping.
#[derive(Clone, Copy, Debug, PartialEq, Eq, Structural)]
pub enum TickEvent {
    /// A new frame starts.
    Frame,
    /// An artwork job reported for a title, whose entry was as given.
    ArtResult(TitleArt, ArtReport),
}

/// What the launcher does after a step.
#[derive(Clone, Copy, Debug, PartialEq, Eq, Structural)]
pub enum TickAction {
    /// Take the cache notice down.
    ClearNotice,
    /// Store this as the title's entry.
    SetTitleArt(TitleArt),
    /// Start the highlighted game's music wait over.
    ResetMusicSettle,
}

/// The title's entry after a report: a discarded store cover forgets a
/// finished job; music that arrived clears the request and the retry wait,
/// a partial report without it schedules a retry; a finished job is done
/// when anything arrived and failed when it reported an error; a partial
/// report with music is done; a partial report without music fails a
/// pending title.
pub open spec fn title_after(t: TitleArt, r: ArtReport, frame: u64) -> TitleArt {
    let state0 = if r.store_discarded && r.job_complete { None } else { t.state };
    let (requested, retry) = if r.music_downloaded {
        (false, None)
    } else if !r.job_complete {
        (false, Some(if frame as int + MUSIC_RETRY_FRAMES > u64::MAX { u64::MAX } else { (frame + MUSIC_RETRY_FRAMES) as u64 }))
    } else {
        (t.music_requested, t.retry_after)
    };
    let state = if r.job_complete {
        if !r.store_discarded && (r.images_ok || r.music_downloaded) {
            Some(ArtState::Done)
        } else if !r.store_discarded && r.failed {
            Some(ArtState::Failed)
        } else {
            state0
        }
    } else if r.music_downloaded {
        Some(ArtState::Done)
    } else if state0 == Some(ArtState::Pending) {
        Some(ArtState::Failed)
    } else {
        state0
    };
    TitleArt { state, music_requested: requested, retry_after: retry }
}

/// One step of the launcher's bookkeeping. A frame advances the counter
/// (wrapping) and takes down a cache notice shown more than
/// `NOTICE_FRAMES` ago. An artwork report frees its job slot when the job
/// is finished, counts a finished job that was not discarded as a success
/// when anything arrived and as a failure when it reported an error, counts
/// a pending title's partial report without music as a failure, stores the
/// title's new entry, and starts the music wait over when the highlighted
/// game's music arrived.
pub open spec fn tick_spec(s: TickState, e: TickEvent) -> (TickState, Seq<TickAction>) {
    match e {
        TickEvent::Frame => {
            let frame = if s.frame == u64::MAX { 0 } else { (s.frame + 1) as u64 };
            match s.notice_since {
                Some(since) if frame >= since && frame - since > NOTICE_FRAMES => (
                    TickState { frame, notice_since: None, ..s },
                    seq![TickAction::ClearNotice],
                ),
                _ => (TickState { frame, ..s }, Seq::empty()),
            }
        },
        TickEvent::ArtResult(t, r) => {
            let in_flight = if r.job_complete && s.in_flight > 0 { (s.in_flight - 1) as usize } else { s.in_flight };
            let succeeded = r.job_complete && !r.store_discarded && (r.images_ok || r.music_downloaded);
            let state0 = if r.store_discarded && r.job_complete { None } else { t.state };
            let failed = (r.job_complete && !r.store_discarded && !(r.images_ok || r.music_downloaded) && r.failed)
                || (!r.job_complete && !r.music_downloaded && state0 == Some(ArtState::Pending));
            let st = TickState {
                in_flight,
                dl_ok: if succeeded { (s.dl_ok + 1) as u32 } else { s.dl_ok },
                dl_fail: if failed { (s.dl_fail + 1) as u32 } else { s.dl_fail },
                ..s
            };
            let set = seq![TickAction::SetTitleArt(title_after(t, r, s.frame))];
            (st, if r.music_downloaded && r.selected { set.push(TickAction::ResetMusicSettle) } else { set })
        },
    }
}

/// Advances the launcher's bookkeeping by one event.
pub fn tick_step(s: TickState, e: TickEvent) -> (r: (TickState, Vec<TickAction>))
    requires
        e is ArtResult ==> s.dl_ok < u32::MAX && s.dl_fail < u32::MAX,
    ensures
        r.0 == tick_spec(s, e).0,
        r.1@ == tick_spec(s, e).1,
{
    let mut actions: Vec<TickAction> = Vec::new();
    match e {
        TickEvent::Frame => {
            let frame = s.frame.wrapping_add(1);
            let mut st = TickState { frame, ..s };
            if let Some(since) = s.notice_since {
                if frame.saturating_sub(since) > NOTICE_FRAMES {
                    st.notice_since = None;
                    actions.push(TickAction::ClearNotice);
                }
            }
            proof {
                assert(actions@ =~= tick_spec(s, e).1);
            }
            (st, actions)
        },
        TickEvent::ArtResult(t, r) => {
            let mut st = s;
            if r.job_complete {
                st.in_flight = s.in_flight.saturating_sub(1);
            }
            let mut state = if r.store_discarded && r.job_complete { None } else { t.state };
            let mut requested = t.music_requested;
            let mut retry = t.retry_after;
            if r.music_downloaded {
                requested = false;
                retry = None;
            } else if !r.job_complete {
                requested = false;
                retry = Some(s.frame.saturating_add(MUSIC_RETRY_FRAMES));
            }
            if r.job_complete {
                if !r.store_discarded {
                    if r.images_ok || r.music_downloaded {
                        st.dl_ok = st.dl_ok + 1;
                        state = Some(ArtState::Done);
                    } else if r.failed {
                        st.dl_fail = st.dl_fail + 1;
                        state = Some(ArtState::Failed);
                    }
                }
            } else if r.music_downloaded {
                state = Some(ArtState::Done);
            } else if state == Some(ArtState::Pending) {
                state = Some(ArtState::Failed);
                st.dl_fail = st.dl_fail + 1;
            }
            actions.push(TickAction::SetTitleArt(TitleArt { state, music_requested: requested, retry_after: retry }));
            if r.music_downloaded && r.selected {
                actions.push(TickAction::ResetMusicSettle);
            }
            proof {
                assert(actions@ =~= tick_spec(s, e).1);
            }
            (st, actions)
        },
    }
}

/// A cache notice on screen was shown no more than `NOTICE_FRAMES` ago.
pub open spec fn notice_fresh(s: TickState) -> bool {
    s.notice_since matches Some(since) ==> since <= s.frame && s.frame - since <= NOTICE_FRAMES
}

/// Every step keeps a shown cache notice at most `NOTICE_FRAMES` old (until
/// the frame counter runs out), so a notice left alone is gone by the
/// frame after that.
pub proof fn law_notice_age(s: TickState, e: TickEvent)
    requires
        notice_fresh(s),
        s.frame < u64::MAX,
    ensures
        notice_fresh(tick_spec(s, e).0),
        (e is Frame && (s.notice_since matches Some(since) && s.frame + 1 - since > NOTICE_FRAMES)) ==> tick_spec(
            s,
            e,
        ).0.notice_since is None,
{
}

} // verus!
