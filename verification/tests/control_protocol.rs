use flip_solver::control::{
    handle_control, keeps_for_next_search, poll_verdict, ControlMessage, PollVerdict, SearchMode,
    WorkerAction, WorkerSettings, POLL_DEPTH,
};
use flip_solver::packed::set_in_packed_state;

const GRID: [[usize; 5]; 5] = [
    [3, 1, 0, 1, 0],
    [1, 1, 2, 0, 3],
    [1, 0, 1, 1, 0],
    [1, 1, 2, 1, 1],
    [1, 1, 1, 0, 1],
];

fn configured() -> WorkerSettings {
    let mut settings = WorkerSettings::new();
    handle_control(&mut settings, ControlMessage::Mode(SearchMode::SurviveNextMove));
    handle_control(
        &mut settings,
        ControlMessage::Constraints([5, 7, 3, 6, 4], [7, 4, 6, 3, 5], [2, 1, 2, 0, 1], [0, 1, 1, 2, 2], 1),
    );
    handle_control(&mut settings, ControlMessage::State([[0; 5]; 5]));
    handle_control(&mut settings, ControlMessage::Threads(4));
    settings
}

#[test]
fn a_new_worker_knows_nothing() {
    let settings = WorkerSettings::new();
    assert!(!settings.is_configured());
    assert!(settings.org_packed_state.is_none() && settings.level.is_none());
    assert!(settings.sr.is_none() && settings.sc.is_none());
    assert!(settings.br.is_none() && settings.bc.is_none());
    assert!(settings.mode.is_none() && settings.threads.is_none());
}

#[test]
fn a_worker_is_configured_once_it_was_told_everything() {
    let mut settings = WorkerSettings::new();
    handle_control(&mut settings, ControlMessage::Mode(SearchMode::Coins));
    assert!(!settings.is_configured());
    handle_control(&mut settings, ControlMessage::State(GRID));
    assert!(!settings.is_configured());
    handle_control(&mut settings, ControlMessage::Threads(2));
    assert!(!settings.is_configured());
    handle_control(&mut settings, ControlMessage::Constraints([1; 5], [2; 5], [3; 5], [4; 5], 7));
    assert!(settings.is_configured());
    assert_eq!(settings.org_packed_state, Some(919573188941137));
    assert_eq!(settings.sr, Some([1; 5]));
    assert_eq!(settings.sc, Some([2; 5]));
    assert_eq!(settings.br, Some([3; 5]));
    assert_eq!(settings.bc, Some([4; 5]));
    assert_eq!(settings.level, Some(7));
    assert_eq!(settings.mode, Some(SearchMode::Coins));
    assert_eq!(settings.threads, Some(2));
}

#[test]
fn start_runs_a_search_with_what_was_told() {
    let mut settings = configured();
    match handle_control(&mut settings, ControlMessage::Start) {
        WorkerAction::RunSearch(request) => {
            assert_eq!(request.org_packed_state, 0);
            assert_eq!(request.sr, [5, 7, 3, 6, 4]);
            assert_eq!(request.sc, [7, 4, 6, 3, 5]);
            assert_eq!(request.br, [2, 1, 2, 0, 1]);
            assert_eq!(request.bc, [0, 1, 1, 2, 2]);
            assert_eq!(request.level, 1);
            assert_eq!(request.mode, SearchMode::SurviveNextMove);
            assert_eq!(request.threads, 4);
        }
        other => panic!("{:?}", other),
    }
    assert!(settings.is_configured());
}

#[test]
fn stop_between_searches_is_confirmed() {
    let mut settings = configured();
    assert!(matches!(handle_control(&mut settings, ControlMessage::Stop), WorkerAction::ConfirmStop));
    let mut fresh = WorkerSettings::new();
    assert!(matches!(handle_control(&mut fresh, ControlMessage::Stop), WorkerAction::ConfirmStop));
    assert!(!fresh.is_configured());
}

#[test]
fn new_margins_clear_every_cache() {
    let mut settings = configured();
    let action =
        handle_control(&mut settings, ControlMessage::Constraints([5; 5], [5; 5], [1; 5], [1; 5], 2));
    assert!(matches!(action, WorkerAction::ClearAllCaches));
    assert_eq!(settings.sr, Some([5; 5]));
    assert_eq!(settings.level, Some(2));
    assert_eq!(settings.mode, Some(SearchMode::SurviveNextMove));
}

#[test]
fn a_new_mode_clears_the_cache_of_the_search() {
    let mut settings = configured();
    let same = handle_control(&mut settings, ControlMessage::Mode(SearchMode::SurviveNextMove));
    assert!(matches!(same, WorkerAction::Nothing));
    let other = handle_control(&mut settings, ControlMessage::Mode(SearchMode::WinChance));
    assert!(matches!(other, WorkerAction::ClearSearchCache));
    assert_eq!(settings.mode, Some(SearchMode::WinChance));
    let mut fresh = WorkerSettings::new();
    let first = handle_control(&mut fresh, ControlMessage::Mode(SearchMode::WinChance));
    assert!(matches!(first, WorkerAction::ClearSearchCache));
}

#[test]
fn a_new_state_or_thread_count_changes_nothing_else() {
    let mut settings = configured();
    let action = handle_control(&mut settings, ControlMessage::State(GRID));
    assert!(matches!(action, WorkerAction::Nothing));
    assert_eq!(settings.org_packed_state, Some(919573188941137));
    let action = handle_control(&mut settings, ControlMessage::Threads(9));
    assert!(matches!(action, WorkerAction::Nothing));
    assert_eq!(settings.threads, Some(9));
    assert_eq!(settings.level, Some(1));
}

#[test]
fn a_running_search_only_expects_stop() {
    assert_eq!(POLL_DEPTH, 6);
    assert_eq!(poll_verdict(None), PollVerdict::GoOn);
    assert_eq!(poll_verdict(Some(ControlMessage::Stop)), PollVerdict::Abort);
    assert_eq!(poll_verdict(Some(ControlMessage::Start)), PollVerdict::Unexpected);
    assert_eq!(poll_verdict(Some(ControlMessage::Threads(1))), PollVerdict::Unexpected);
    assert_eq!(poll_verdict(Some(ControlMessage::State(GRID))), PollVerdict::Unexpected);
    assert_eq!(poll_verdict(Some(ControlMessage::Mode(SearchMode::Coins))), PollVerdict::Unexpected);
    assert_eq!(
        poll_verdict(Some(ControlMessage::Constraints([0; 5], [0; 5], [0; 5], [0; 5], 1))),
        PollVerdict::Unexpected
    );
}

#[test]
fn shallow_states_are_kept_for_the_next_search() {
    assert!(keeps_for_next_search(0));
    let mut state = 0;
    for (i, (r, c)) in [(0usize, 0usize), (1, 1), (2, 2), (3, 3)].iter().enumerate() {
        state = set_in_packed_state(state, *r, *c, 1);
        assert_eq!(keeps_for_next_search(state), i < 3);
    }
}
