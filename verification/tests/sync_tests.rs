use open_tab::sync::{pull_failure, push_failure, sync_step, ConnectivityStatusKind, SyncAction, SyncEvent, SyncFailure, SyncState};

fn report(status: ConnectivityStatusKind) -> SyncAction {
    SyncAction::Report { status }
}

#[test]
fn a_full_round_creates_pulls_pushes_and_reports_alive() {
    let mut state = SyncState::Waiting;
    let mut log = vec![];
    for event in [
        SyncEvent::Ready,
        SyncEvent::RemoteLoaded { created: Some(false) },
        SyncEvent::KeyLookedUp { found: true },
        SyncEvent::TournamentCreated { ok: true },
        SyncEvent::Pulled { failure: None },
        SyncEvent::RemoteReloaded { found: true },
        SyncEvent::Pushed { failure: None },
    ] {
        let (next, actions) = sync_step(state, event);
        state = next;
        log.extend(actions);
    }
    assert_eq!(state, SyncState::Waiting);
    assert_eq!(
        log,
        vec![
            SyncAction::LoadRemote,
            SyncAction::LookUpKey,
            SyncAction::CreateTournament,
            SyncAction::MarkCreated,
            SyncAction::Pull,
            SyncAction::ReloadRemote,
            SyncAction::Push,
            report(ConnectivityStatusKind::Alive),
            SyncAction::WaitForNextRound,
        ]
    );
}

#[test]
fn no_remote_stops_with_a_disconnect() {
    let (state, actions) = sync_step(SyncState::LoadingRemote, SyncEvent::RemoteLoaded { created: None });
    assert_eq!(state, SyncState::Stopped);
    assert_eq!(actions, vec![report(ConnectivityStatusKind::Disconnect), SyncAction::Stop]);
}

#[test]
fn a_missing_key_is_asked_for_then_the_round_goes_on() {
    let (state, actions) = sync_step(SyncState::LookingUpKey { created: true }, SyncEvent::KeyLookedUp { found: false });
    assert_eq!(state, SyncState::WaitingForKey { created: true });
    assert_eq!(actions, vec![report(ConnectivityStatusKind::PasswordRequired), SyncAction::WaitForKey]);
    let (state, actions) = sync_step(state, SyncEvent::KeyObtained);
    assert_eq!(state, SyncState::Pulling);
    assert_eq!(actions, vec![SyncAction::Pull]);
}

#[test]
fn pull_failures_are_handled_by_kind() {
    let cases = [
        (SyncFailure::NotAuthorized, vec![report(ConnectivityStatusKind::PasswordRequired), SyncAction::WaitForNextRound]),
        (
            SyncFailure::TournamentDoesNotExist,
            vec![SyncAction::ClearCreation, report(ConnectivityStatusKind::Error), SyncAction::WaitForNextRound],
        ),
        (
            SyncFailure::LogsOutOfSync,
            vec![SyncAction::ClearLogPositions, report(ConnectivityStatusKind::Error), SyncAction::WaitForNextRound],
        ),
        (SyncFailure::Other, vec![report(ConnectivityStatusKind::Error), SyncAction::WaitForNextRound]),
    ];
    for (failure, expected) in cases {
        let (state, actions) = sync_step(SyncState::Pulling, SyncEvent::Pulled { failure: Some(failure) });
        assert_eq!(state, SyncState::Waiting);
        assert_eq!(actions, expected);
    }
}

#[test]
fn push_failures_are_handled_by_kind() {
    let (_, actions) = sync_step(SyncState::Pushing, SyncEvent::Pushed { failure: Some(SyncFailure::NotAuthorized) });
    assert_eq!(actions, vec![report(ConnectivityStatusKind::PasswordRequired), SyncAction::WaitForNextRound]);
    let (_, actions) =
        sync_step(SyncState::Pushing, SyncEvent::Pushed { failure: Some(SyncFailure::TournamentDoesNotExist) });
    assert_eq!(actions, vec![SyncAction::ClearCreation, SyncAction::WaitForNextRound]);
    let (_, actions) = sync_step(SyncState::Pushing, SyncEvent::Pushed { failure: Some(SyncFailure::LogsOutOfSync) });
    assert_eq!(actions, vec![SyncAction::WaitForNextRound]);
}

#[test]
fn a_failed_creation_or_a_lost_remote_ends_the_round() {
    let (state, actions) = sync_step(SyncState::CreatingTournament, SyncEvent::TournamentCreated { ok: false });
    assert_eq!(state, SyncState::Waiting);
    assert_eq!(actions, vec![report(ConnectivityStatusKind::Error), SyncAction::WaitForNextRound]);
    let (state, actions) = sync_step(SyncState::ReloadingRemote, SyncEvent::RemoteReloaded { found: false });
    assert_eq!(state, SyncState::Waiting);
    assert_eq!(actions, vec![SyncAction::WaitForNextRound]);
}

#[test]
fn an_unexpected_event_changes_nothing() {
    let (state, actions) = sync_step(SyncState::Pushing, SyncEvent::Ready);
    assert_eq!(state, SyncState::Pushing);
    assert!(actions.is_empty());
}

#[test]
fn pull_answers_are_classified_by_status_and_message() {
    let none = String::new();
    assert_eq!(pull_failure(401, &none), Some(SyncFailure::NotAuthorized));
    assert_eq!(pull_failure(403, &none), Some(SyncFailure::NotAuthorized));
    assert_eq!(pull_failure(404, &none), Some(SyncFailure::TournamentDoesNotExist));
    assert_eq!(pull_failure(500, &"Since is not a valid log entry".to_string()), Some(SyncFailure::LogsOutOfSync));
    assert_eq!(pull_failure(500, &"Database down".to_string()), Some(SyncFailure::Other));
    assert_eq!(pull_failure(200, &none), None);
}

#[test]
fn push_answers_are_classified_by_status_and_outcome() {
    assert_eq!(push_failure(200, true), None);
    assert_eq!(push_failure(200, false), Some(SyncFailure::Rejected));
    assert_eq!(push_failure(401, true), Some(SyncFailure::NotAuthorized));
    assert_eq!(push_failure(404, true), Some(SyncFailure::TournamentDoesNotExist));
    assert_eq!(push_failure(502, true), Some(SyncFailure::Other));
    let (_, actions) = sync_step(SyncState::Pushing, SyncEvent::Pushed { failure: push_failure(200, false) });
    assert_eq!(actions, vec![SyncAction::WaitForNextRound]);
}
