use vstd::prelude::*;

verus! {

/// The connectivity status that the synchronisation reports.
#[derive(Clone, Copy, Debug, PartialEq, Eq, Structural)]
pub enum ConnectivityStatusKind {
    Alive,
    Error,
    Disconnect,
    PasswordRequired,
}

/// Why an exchange with the remote failed.
#[derive(Clone, Copy, Debug, PartialEq, Eq, Structural)]
pub enum SyncFailure {
    NotAuthorized,
    TournamentDoesNotExist,
    LogsOutOfSync,
    Rejected,
    Other,
}

/// Where one round of synchronising a tournament with its remote stands.
#[derive(Clone, Copy, Debug, PartialEq, Eq, Structural)]
pub enum SyncState {
    Waiting,
    LoadingRemote,
    LookingUpKey { created: bool },
    WaitingForKey { created: bool },
    CreatingTournament,
    Pulling,
    ReloadingRemote,
    Pushing,
    Stopped,
}

/// What the outside work of the last step gave.
#[derive(Clone, Copy, Debug, PartialEq, Eq, Structural)]
pub enum SyncEvent {
    /// The wait before the next round is over.
    Ready,
    /// The tournament's remote, with whether the remote tournament was
    /// created, or none.
    RemoteLoaded { created: Option<bool> },
    /// Whether a key for the remote was at hand.
    KeyLookedUp { found: bool },
    /// A key was entered.
    KeyObtained,
    /// Whether creating the remote tournament succeeded.
    TournamentCreated { ok: bool },
    /// How pulling the remote changes went.
    Pulled { failure: Option<SyncFailure> },
    /// Whether the remote is still there.
    RemoteReloaded { found: bool },
    /// How pushing the local changes went.
    Pushed { failure: Option<SyncFailure> },
}

/// Outside work to do, in order.
#[derive(Clone, Copy, Debug, PartialEq, Eq, Structural)]
pub enum SyncAction {
    Report { status: ConnectivityStatusKind },
    LoadRemote,
    LookUpKey,
    WaitForKey,
    CreateTournament,
    MarkCreated,
    Pull,
    ClearCreation,
    ClearLogPositions,
    ReloadRemote,
    Push,
    WaitForNextRound,
    Stop,
}

/// What the synchronisation does on an event in a state: its next state and
/// the outside work, in order. A round loads the remote (and stops, reporting
/// a disconnect, where there is none), gets a key (asking for one where none
/// is at hand), creates the remote tournament where it was not created,
/// pulls, reloads the remote and pushes, then reports that it is alive. A
/// failure asks for the password where the remote refused the key, forgets
/// the remote tournament where it does not exist and the log positions where
/// the logs are out of sync; a failed creation or pull is reported as an
/// error; the round then ends and the next one starts after the wait. An
/// event that the state does not wait for changes nothing.
pub open spec fn sync_transition(state: SyncState, event: SyncEvent) -> (SyncState, Seq<SyncAction>) {
    let next_round = SyncAction::WaitForNextRound;
    match (state, event) {
        (SyncState::Waiting, SyncEvent::Ready) => (SyncState::LoadingRemote, seq![SyncAction::LoadRemote]),
        (SyncState::LoadingRemote, SyncEvent::RemoteLoaded { created }) => match created {
            None => (
                SyncState::Stopped,
                seq![SyncAction::Report { status: ConnectivityStatusKind::Disconnect }, SyncAction::Stop],
            ),
            Some(c) => (SyncState::LookingUpKey { created: c }, seq![SyncAction::LookUpKey]),
        },
        (SyncState::LookingUpKey { created }, SyncEvent::KeyLookedUp { found }) => if found {
            after_key(created)
        } else {
            (
                SyncState::WaitingForKey { created },
                seq![SyncAction::Report { status: ConnectivityStatusKind::PasswordRequired }, SyncAction::WaitForKey],
            )
        },
        (SyncState::WaitingForKey { created }, SyncEvent::KeyObtained) => after_key(created),
        (SyncState::CreatingTournament, SyncEvent::TournamentCreated { ok }) => if ok {
            (SyncState::Pulling, seq![SyncAction::MarkCreated, SyncAction::Pull])
        } else {
            (SyncState::Waiting, seq![SyncAction::Report { status: ConnectivityStatusKind::Error }, next_round])
        },
        (SyncState::Pulling, SyncEvent::Pulled { failure }) => match failure {
            None => (SyncState::ReloadingRemote, seq![SyncAction::ReloadRemote]),
            Some(SyncFailure::NotAuthorized) => (
                SyncState::Waiting,
                seq![SyncAction::Report { status: ConnectivityStatusKind::PasswordRequired }, next_round],
            ),
            Some(f) => (
                SyncState::Waiting,
                forget(f) + seq![SyncAction::Report { status: ConnectivityStatusKind::Error }, next_round],
            ),
        },
        (SyncState::ReloadingRemote, SyncEvent::RemoteReloaded { found }) => if found {
            (SyncState::Pushing, seq![SyncAction::Push])
        } else {
            (SyncState::Waiting, seq![next_round])
        },
        (SyncState::Pushing, SyncEvent::Pushed { failure }) => match failure {
            None => (SyncState::Waiting, seq![SyncAction::Report { status: ConnectivityStatusKind::Alive }, next_round]),
            Some(SyncFailure::NotAuthorized) => (
                SyncState::Waiting,
                seq![SyncAction::Report { status: ConnectivityStatusKind::PasswordRequired }, next_round],
            ),
            Some(SyncFailure::TournamentDoesNotExist) => (SyncState::Waiting, seq![SyncAction::ClearCreation, next_round]),
            Some(_) => (SyncState::Waiting, seq![next_round]),
        },
        _ => (state, Seq::empty()),
    }
}

/// Once a key is at hand: create the remote tournament where it was not
/// created, else pull.
pub open spec fn after_key(created: bool) -> (SyncState, Seq<SyncAction>) {
    if created {
        (SyncState::Pulling, seq![SyncAction::Pull])
    } else {
        (SyncState::CreatingTournament, seq![SyncAction::CreateTournament])
    }
}

/// What a failed pull forgets: the remote tournament where it does not exist,
/// the log positions where the logs are out of sync.
pub open spec fn forget(f: SyncFailure) -> Seq<SyncAction> {
    match f {
        SyncFailure::TournamentDoesNotExist => seq![SyncAction::ClearCreation],
        SyncFailure::LogsOutOfSync => seq![SyncAction::ClearLogPositions],
        _ => Seq::empty(),
    }
}

fn report(status: ConnectivityStatusKind) -> (a: SyncAction)
    ensures
        a == (SyncAction::Report { status }),
{
    SyncAction::Report { status }
}

fn key_at_hand(created: bool) -> (r: (SyncState, Vec<SyncAction>))
    ensures
        (r.0, r.1@) == after_key(created),
{
    if created {
        (SyncState::Pulling, vec![SyncAction::Pull])
    } else {
        (SyncState::CreatingTournament, vec![SyncAction::CreateTournament])
    }
}

/// The next state of the synchronisation and the outside work to do, on an
/// event in a state.
pub fn sync_step(state: SyncState, event: SyncEvent) -> (r: (SyncState, Vec<SyncAction>))
    ensures
        (r.0, r.1@) == sync_transition(state, event),
{
    let next_round = SyncAction::WaitForNextRound;
    match (state, event) {
        (SyncState::Waiting, SyncEvent::Ready) => (SyncState::LoadingRemote, vec![SyncAction::LoadRemote]),
        (SyncState::LoadingRemote, SyncEvent::RemoteLoaded { created }) => match created {
            None => (SyncState::Stopped, vec![report(ConnectivityStatusKind::Disconnect), SyncAction::Stop]),
            Some(c) => (SyncState::LookingUpKey { created: c }, vec![SyncAction::LookUpKey]),
        },
        (SyncState::LookingUpKey { created }, SyncEvent::KeyLookedUp { found }) => {
            if found {
                key_at_hand(created)
            } else {
                (
                    SyncState::WaitingForKey { created },
                    vec![report(ConnectivityStatusKind::PasswordRequired), SyncAction::WaitForKey],
                )
            }
        },
        (SyncState::WaitingForKey { created }, SyncEvent::KeyObtained) => key_at_hand(created),
        (SyncState::CreatingTournament, SyncEvent::TournamentCreated { ok }) => {
            if ok {
                (SyncState::Pulling, vec![SyncAction::MarkCreated, SyncAction::Pull])
            } else {
                (SyncState::Waiting, vec![report(ConnectivityStatusKind::Error), next_round])
            }
        },
        (SyncState::Pulling, SyncEvent::Pulled { failure }) => match failure {
            None => (SyncState::ReloadingRemote, vec![SyncAction::ReloadRemote]),
            Some(SyncFailure::NotAuthorized) => (
                SyncState::Waiting,
                vec![report(ConnectivityStatusKind::PasswordRequired), next_round],
            ),
            Some(SyncFailure::TournamentDoesNotExist) => {
                let actions = vec![SyncAction::ClearCreation, report(ConnectivityStatusKind::Error), next_round];
                assert(actions@ =~= forget(SyncFailure::TournamentDoesNotExist) + seq![
                    SyncAction::Report { status: ConnectivityStatusKind::Error },
                    next_round,
                ]);
                (SyncState::Waiting, actions)
            },
            Some(SyncFailure::LogsOutOfSync) => {
                let actions = vec![SyncAction::ClearLogPositions, report(ConnectivityStatusKind::Error), next_round];
                assert(actions@ =~= forget(SyncFailure::LogsOutOfSync) + seq![
                    SyncAction::Report { status: ConnectivityStatusKind::Error },
                    next_round,
                ]);
                (SyncState::Waiting, actions)
            },
            Some(other) => {
                let actions = vec![report(ConnectivityStatusKind::Error), next_round];
                assert(actions@ =~= forget(other) + seq![
                    SyncAction::Report { status: ConnectivityStatusKind::Error },
                    next_round,
                ]);
                (SyncState::Waiting, actions)
            },
        },
        (SyncState::ReloadingRemote, SyncEvent::RemoteReloaded { found }) => {
            if found {
                (SyncState::Pushing, vec![SyncAction::Push])
            } else {
                (SyncState::Waiting, vec![next_round])
            }
        },
        (SyncState::Pushing, SyncEvent::Pushed { failure }) => match failure {
            None => (SyncState::Waiting, vec![report(ConnectivityStatusKind::Alive), next_round]),
            Some(SyncFailure::NotAuthorized) => (
                SyncState::Waiting,
                vec![report(ConnectivityStatusKind::PasswordRequired), next_round],
            ),
            Some(SyncFailure::TournamentDoesNotExist) => (SyncState::Waiting, vec![SyncAction::ClearCreation, next_round]),
            Some(_) => (SyncState::Waiting, vec![next_round]),
        },
        _ => (state, Vec::new()),
    }
}

/// What the remote's answer to a pull of its log shows: a refused key (401 or
/// 403), a tournament it does not know (404), a log position it does not
/// know (500 with that message), another server error (500), or nothing
/// wrong.
pub open spec fn pull_answer(status: u16, message: Seq<char>) -> Option<SyncFailure> {
    if status == 403 || status == 401 {
        Some(SyncFailure::NotAuthorized)
    } else if status == 404 {
        Some(SyncFailure::TournamentDoesNotExist)
    } else if status == 500 {
        if message == "Since is not a valid log entry"@ {
            Some(SyncFailure::LogsOutOfSync)
        } else {
            Some(SyncFailure::Other)
        }
    } else {
        None
    }
}

/// The failure that the remote's answer to a pull shows, if any; the message
/// is that of the error the remote sent, read for status 500 only.
pub fn pull_failure(status: u16, message: &String) -> (f: Option<SyncFailure>)
    ensures
        f == pull_answer(status, message@),
{
    if status == 403 || status == 401 {
        Some(SyncFailure::NotAuthorized)
    } else if status == 404 {
        Some(SyncFailure::TournamentDoesNotExist)
    } else if status == 500 {
        let out_of_sync = "Since is not a valid log entry".to_string();
        if *message == out_of_sync {
            Some(SyncFailure::LogsOutOfSync)
        } else {
            Some(SyncFailure::Other)
        }
    } else {
        None
    }
}

/// What the remote's answer to a push shows: with status 200 a rejection
/// unless it accepted the changes, a refused key (401 or 403), a tournament
/// it does not know (404), or any other status.
pub open spec fn push_answer(status: u16, accepted: bool) -> Option<SyncFailure> {
    if status == 200 {
        if accepted {
            None
        } else {
            Some(SyncFailure::Rejected)
        }
    } else if status == 403 || status == 401 {
        Some(SyncFailure::NotAuthorized)
    } else if status == 404 {
        Some(SyncFailure::TournamentDoesNotExist)
    } else {
        Some(SyncFailure::Other)
    }
}

/// The failure that the remote's answer to a push shows, if any; `accepted`
/// is whether its reconciliation succeeded, read for status 200 only.
pub fn push_failure(status: u16, accepted: bool) -> (f: Option<SyncFailure>)
    ensures
        f == push_answer(status, accepted),
{
    if status == 200 {
        if accepted {
            None
        } else {
            Some(SyncFailure::Rejected)
        }
    } else if status == 403 || status == 401 {
        Some(SyncFailure::NotAuthorized)
    } else if status == 404 {
        Some(SyncFailure::TournamentDoesNotExist)
    } else {
        Some(SyncFailure::Other)
    }
}

} // verus!
