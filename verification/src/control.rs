//! What the host tells the search, and what a search is for.

use vstd::prelude::*;
use crate::math::count_assigned_packed;
use crate::packed::{array_to_u64, assigned_count, is_symbol_grid, packed_of};

verus! {

/// What a search maximises.
#[derive(Copy, Clone, Debug, PartialEq, Eq, Hash, Structural)]
pub enum SearchMode {
    /// The chance to reveal every 2 and 3.
    WinChance,
    /// The chance to reveal every 2 and 3 with at least 8 cells revealed.
    WinEight,
    /// The chance that the next reveal is no bomb.
    SurviveNextMove,
    /// The chance to reveal as many cells as the level says.
    SurviveLevel,
    /// The chance to reveal 8 cells.
    SurviveEight,
    /// The expected number of coins.
    Coins,
}

/// The modes that count revealed cells: there a cell may be worth a reveal
/// though it cannot hold a 2 or 3.
pub open spec fn counts_reveals(mode: SearchMode) -> bool {
    mode == SearchMode::WinEight || mode == SearchMode::SurviveLevel || mode
        == SearchMode::SurviveEight
}

/// Whether `mode` counts revealed cells.
pub fn is_threshold_mode(mode: SearchMode) -> (counting: bool)
    ensures
        counting == counts_reveals(mode),
{
    mode == SearchMode::WinEight || mode == SearchMode::SurviveLevel || mode
        == SearchMode::SurviveEight
}

/// What the host tells the search worker.
#[derive(Copy, Clone, Debug)]
pub enum ControlMessage {
    /// Search with what was told so far.
    Start,
    /// Give up the running search, or confirm that none is running.
    Stop,
    /// The margins `sr`, `sc`, `br`, `bc` and the level.
    Constraints([usize; 5], [usize; 5], [usize; 5], [usize; 5], usize),
    /// The grid of what is revealed.
    State([[usize; 5]; 5]),
    /// What to maximise.
    Mode(SearchMode),
    /// How many reveals may be searched at a time.
    Threads(usize),
}

/// What the worker was told so far.
#[derive(Copy, Clone, Debug)]
pub struct WorkerSettings {
    pub org_packed_state: Option<u64>,
    pub level: Option<usize>,
    pub sr: Option<[usize; 5]>,
    pub sc: Option<[usize; 5]>,
    pub br: Option<[usize; 5]>,
    pub bc: Option<[usize; 5]>,
    pub mode: Option<SearchMode>,
    pub threads: Option<usize>,
}

/// A search to run.
#[derive(Copy, Clone, Debug)]
pub struct SearchRequest {
    pub org_packed_state: u64,
    pub sr: [usize; 5],
    pub sc: [usize; 5],
    pub br: [usize; 5],
    pub bc: [usize; 5],
    pub level: usize,
    pub mode: SearchMode,
    pub threads: usize,
}

/// What the worker does on a message.
#[derive(Copy, Clone, Debug)]
pub enum WorkerAction {
    /// Run this search and report how it ended.
    RunSearch(SearchRequest),
    /// Report that no search is running.
    ConfirmStop,
    /// Forget every memo table: the margins or the level changed.
    ClearAllCaches,
    /// Forget the memo table of the search: the mode changed.
    ClearSearchCache,
    /// Nothing.
    Nothing,
}

impl WorkerSettings {
    /// Everything that a search needs was told.
    pub open spec fn configured(self) -> bool {
        self.org_packed_state.is_some() && self.level.is_some() && self.sr.is_some()
            && self.sc.is_some() && self.br.is_some() && self.bc.is_some() && self.mode.is_some()
            && self.threads.is_some()
    }

    /// The search that `Start` runs.
    pub open spec fn request(self) -> SearchRequest {
        SearchRequest {
            org_packed_state: self.org_packed_state.unwrap(),
            sr: self.sr.unwrap(),
            sc: self.sc.unwrap(),
            br: self.br.unwrap(),
            bc: self.bc.unwrap(),
            level: self.level.unwrap(),
            mode: self.mode.unwrap(),
            threads: self.threads.unwrap(),
        }
    }

    /// A worker that was told nothing yet.
    pub fn new() -> (settings: WorkerSettings)
        ensures
            settings == (WorkerSettings {
                org_packed_state: None,
                level: None,
                sr: None,
                sc: None,
                br: None,
                bc: None,
                mode: None,
                threads: None,
            }),
    {
        WorkerSettings {
            org_packed_state: None,
            level: None,
            sr: None,
            sc: None,
            br: None,
            bc: None,
            mode: None,
            threads: None,
        }
    }

    /// Whether everything that a search needs was told.
    pub fn is_configured(&self) -> (ready: bool)
        ensures
            ready == self.configured(),
    {
        self.org_packed_state.is_some() && self.level.is_some() && self.sr.is_some()
            && self.sc.is_some() && self.br.is_some() && self.bc.is_some() && self.mode.is_some()
            && self.threads.is_some()
    }
}

/// The settings after a message.
pub open spec fn settings_after(before: WorkerSettings, msg: ControlMessage) -> WorkerSettings {
    match msg {
        ControlMessage::Start => before,
        ControlMessage::Stop => before,
        ControlMessage::Constraints(sr, sc, br, bc, level) => WorkerSettings {
            sr: Some(sr),
            sc: Some(sc),
            br: Some(br),
            bc: Some(bc),
            level: Some(level),
            ..before
        },
        ControlMessage::State(grid) => WorkerSettings {
            org_packed_state: Some(packed_of(grid)),
            ..before
        },
        ControlMessage::Mode(m) => WorkerSettings { mode: Some(m), ..before },
        ControlMessage::Threads(t) => WorkerSettings { threads: Some(t), ..before },
    }
}

/// What the worker does on a message: it searches on `Start`, confirms a
/// `Stop`, forgets every memo table on new margins and the table of the
/// search on a new mode.
pub open spec fn action_on(before: WorkerSettings, msg: ControlMessage) -> WorkerAction {
    match msg {
        ControlMessage::Start => WorkerAction::RunSearch(before.request()),
        ControlMessage::Stop => WorkerAction::ConfirmStop,
        ControlMessage::Constraints(_, _, _, _, _) => WorkerAction::ClearAllCaches,
        ControlMessage::State(_) => WorkerAction::Nothing,
        ControlMessage::Mode(m) => if before.mode == Some(m) {
            WorkerAction::Nothing
        } else {
            WorkerAction::ClearSearchCache
        },
        ControlMessage::Threads(_) => WorkerAction::Nothing,
    }
}

/// One step of the worker between searches: takes a message of the host,
/// updates what the worker knows and says what to do.
pub fn handle_control(settings: &mut WorkerSettings, msg: ControlMessage) -> (action: WorkerAction)
    requires
        msg is Start ==> old(settings).configured(),
        msg matches ControlMessage::State(grid) ==> is_symbol_grid(grid),
    ensures
        *final(settings) == settings_after(*old(settings), msg),
        action == action_on(*old(settings), msg),
{
    match msg {
        ControlMessage::Start => WorkerAction::RunSearch(
            SearchRequest {
                org_packed_state: settings.org_packed_state.unwrap(),
                sr: settings.sr.unwrap(),
                sc: settings.sc.unwrap(),
                br: settings.br.unwrap(),
                bc: settings.bc.unwrap(),
                level: settings.level.unwrap(),
                mode: settings.mode.unwrap(),
                threads: settings.threads.unwrap(),
            },
        ),
        ControlMessage::Stop => WorkerAction::ConfirmStop,
        ControlMessage::Constraints(sr, sc, br, bc, level) => {
            settings.sr = Some(sr);
            settings.sc = Some(sc);
            settings.br = Some(br);
            settings.bc = Some(bc);
            settings.level = Some(level);
            WorkerAction::ClearAllCaches
        },
        ControlMessage::State(grid) => {
            settings.org_packed_state = Some(array_to_u64(&grid));
            WorkerAction::Nothing
        },
        ControlMessage::Mode(m) => {
            let same = match settings.mode {
                Some(current) => current == m,
                None => false,
            };
            if same {
                WorkerAction::Nothing
            } else {
                settings.mode = Some(m);
                WorkerAction::ClearSearchCache
            }
        },
        ControlMessage::Threads(t) => {
            settings.threads = Some(t);
            WorkerAction::Nothing
        },
    }
}

/// The depth at which a search looks for a message of the host.
pub const POLL_DEPTH: usize = 6;

/// What a search does after it looked for a message.
#[derive(Copy, Clone, Debug, PartialEq, Eq, Structural)]
pub enum PollVerdict {
    /// No message: the search goes on.
    GoOn,
    /// `Stop`: the search hands the message on to the other workers and
    /// gives up.
    Abort,
    /// Any other message must not come while a search runs.
    Unexpected,
}

/// What a running search does with what it found when it looked for a
/// message of the host.
pub fn poll_verdict(msg: Option<ControlMessage>) -> (verdict: PollVerdict)
    ensures
        verdict == match msg {
            None => PollVerdict::GoOn,
            Some(ControlMessage::Stop) => PollVerdict::Abort,
            Some(_) => PollVerdict::Unexpected,
        },
{
    match msg {
        None => PollVerdict::GoOn,
        Some(ControlMessage::Stop) => PollVerdict::Abort,
        Some(_) => PollVerdict::Unexpected,
    }
}

/// Whether the value of a state is kept for the next search in the same
/// mode: the values of the states with at most 3 revealed cells are.
pub fn keeps_for_next_search(packed_state: u64) -> (kept: bool)
    ensures
        kept == (assigned_count(packed_state) <= 3),
{
    count_assigned_packed(packed_state) <= 3
}

} // verus!
