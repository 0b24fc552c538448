use md_archive::update_state::UpdateState;
use md_archive::updater::{next_action, sync_begin, sync_step, SyncAction, SyncEvent, SyncState, UpdateStatus};

#[test]
fn no_remote_reports_not_configured() {
    let state = sync_begin(&None);
    assert_eq!(state, SyncState::Done(UpdateStatus::NotConfigured));
    assert_eq!(next_action(&state), SyncAction::Report);

    let state = sync_begin(&Some(String::new()));
    assert_eq!(state, SyncState::Done(UpdateStatus::NotConfigured));
    assert_eq!(next_action(&state), SyncAction::Report);
}

#[test]
fn finished_attempt_ignores_events() {
    let state = sync_begin(&None);
    let state = sync_step(state, SyncEvent::Opened);
    assert_eq!(state, SyncState::Done(UpdateStatus::NotConfigured));
    let state = sync_step(state, SyncEvent::AnalysisFastForward);
    assert_eq!(state, SyncState::Done(UpdateStatus::NotConfigured));
}

#[test]
fn up_to_date_repository() {
    let url = Some("https://example.org/archive.git".to_string());
    let mut state = sync_begin(&url);
    assert_eq!(state, SyncState::Acquiring);
    state = sync_step(state, SyncEvent::Opened);
    assert_eq!(state, SyncState::Fetching);
    state = sync_step(state, SyncEvent::FetchOk);
    assert_eq!(state, SyncState::Analyzing);
    // The checkout state was never reached: the working tree is untouched.
    state = sync_step(state, SyncEvent::AnalysisUpToDate);
    assert_eq!(state, SyncState::Done(UpdateStatus::UpToDate));
}

#[test]
fn fast_forward_updates() {
    let url = Some("https://example.org/archive.git".to_string());
    let mut state = sync_begin(&url);
    state = sync_step(state, SyncEvent::Opened);
    state = sync_step(state, SyncEvent::FetchOk);
    state = sync_step(state, SyncEvent::AnalysisFastForward);
    assert_eq!(state, SyncState::CheckingOut);
    assert_eq!(next_action(&state), SyncAction::FastForward);
    state = sync_step(state, SyncEvent::CheckoutOk);
    assert_eq!(state, SyncState::Done(UpdateStatus::Updated));
}

#[test]
fn diverged_history_fails_without_checkout() {
    let url = Some("https://example.org/archive.git".to_string());
    let mut state = sync_begin(&url);
    state = sync_step(state, SyncEvent::Opened);
    assert_ne!(next_action(&state), SyncAction::FastForward);
    state = sync_step(state, SyncEvent::FetchOk);
    assert_ne!(next_action(&state), SyncAction::FastForward);
    state = sync_step(state, SyncEvent::AnalysisDiverged);
    assert_eq!(state, SyncState::Done(UpdateStatus::Failed));
    assert_eq!(next_action(&state), SyncAction::Report);
}

#[test]
fn clone_failure_fails() {
    let url = Some("https://example.org/archive.git".to_string());
    let mut state = sync_begin(&url);
    state = sync_step(state, SyncEvent::CloneFailed);
    assert_eq!(state, SyncState::Done(UpdateStatus::Failed));
}

#[test]
fn missing_remote_fails() {
    let url = Some("https://example.org/archive.git".to_string());
    let mut state = sync_begin(&url);
    state = sync_step(state, SyncEvent::Opened);
    state = sync_step(state, SyncEvent::RemoteMissing);
    assert_eq!(state, SyncState::Done(UpdateStatus::Failed));
}

#[test]
fn fetch_failure_fails() {
    let url = Some("https://example.org/archive.git".to_string());
    let mut state = sync_begin(&url);
    state = sync_step(state, SyncEvent::Cloned);
    state = sync_step(state, SyncEvent::FetchFailed);
    assert_eq!(state, SyncState::Done(UpdateStatus::Failed));
}

#[test]
fn checkout_failure_fails() {
    let url = Some("https://example.org/archive.git".to_string());
    let mut state = sync_begin(&url);
    state = sync_step(state, SyncEvent::Opened);
    state = sync_step(state, SyncEvent::FetchOk);
    state = sync_step(state, SyncEvent::AnalysisFastForward);
    state = sync_step(state, SyncEvent::CheckoutFailed);
    assert_eq!(state, SyncState::Done(UpdateStatus::Failed));
}

#[test]
fn guard_flag_lifecycle() {
    let mut guard = UpdateState::new();
    assert!(!guard.updating());
    guard.begin_update();
    assert!(guard.updating());
    guard.end_update();
    assert!(!guard.updating());
    // The flag never changes without a call: repeated reads agree.
    assert!(!guard.updating());
    assert!(!guard.updating());
}
