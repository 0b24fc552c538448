//! Content synchronization state machine.
//!
//! One synchronization attempt is a walk through a small protocol: acquire
//! the local repository (open it, or clone the remote), fetch the `main`
//! branch from the remote named `origin`, compare the fetched head with the
//! local one, and fast-forward the local branch when possible. Every git
//! operation is performed by the caller, which feeds the resulting event
//! back into the machine; the machine itself decides, and is the part that
//! is verified. Diverged histories are deliberately left unresolved.

use vstd::prelude::*;

verus! {

/// Outcome of one synchronization attempt.
#[derive(Clone, Copy, Debug, PartialEq, Eq, Structural)]
pub enum UpdateStatus {
    /// No remote is configured: synchronization is disabled.
    NotConfigured,
    /// The local head already matches the remote head.
    UpToDate,
    /// The local branch was fast-forwarded and the working copy updated.
    Updated,
    /// Clone, fetch or checkout failed, or the histories have diverged.
    Failed,
}

/// State of one synchronization attempt.
#[derive(Clone, Copy, Debug, PartialEq, Eq, Structural)]
pub enum SyncState {
    /// The local repository must be opened, or cloned if absent.
    Acquiring,
    /// The `main` branch must be fetched from the remote `origin`.
    Fetching,
    /// The fetched head must be compared with the local head.
    Analyzing,
    /// The local branch must be advanced to the fetched head and the
    /// working copy checked out to match.
    CheckingOut,
    /// The attempt is complete.
    Done(UpdateStatus),
}

/// What the git operation of one step reported.
#[derive(Clone, Copy, Debug, PartialEq, Eq, Structural)]
pub enum SyncEvent {
    /// An existing local repository was opened.
    Opened,
    /// No local repository existed; the remote was cloned.
    Cloned,
    /// Neither opening nor cloning succeeded.
    CloneFailed,
    /// The remote `origin` is not configured on the repository.
    RemoteMissing,
    /// The fetch completed.
    FetchOk,
    /// The fetch failed.
    FetchFailed,
    /// The local head already matches the fetched head.
    AnalysisUpToDate,
    /// The local history is a strict ancestor of the fetched head.
    AnalysisFastForward,
    /// Local and remote histories have diverged.
    AnalysisDiverged,
    /// The fast-forward checkout completed.
    CheckoutOk,
    /// The fast-forward checkout failed.
    CheckoutFailed,
}

/// What the driver must do in a state. Only `FastForward` overwrites the
/// working copy; `AcquireRepo` creates the repository directory when it has
/// to clone.
#[derive(Clone, Copy, Debug, PartialEq, Eq, Structural)]
pub enum SyncAction {
    /// Open the local repository, or clone the remote into the local path.
    AcquireRepo,
    /// Fetch `main` from the remote `origin`.
    FetchRemote,
    /// Compare the fetched head with the local head.
    AnalyzeHeads,
    /// Advance the local `main` reference to the fetched head and force the
    /// working copy to match it.
    FastForward,
    /// Nothing remains: report the outcome.
    Report,
}

/// The complete transition table. An event that does not fit the state
/// leaves the state unchanged; in particular a finished attempt stays
/// finished.
pub open spec fn spec_step(s: SyncState, e: SyncEvent) -> SyncState {
    match s {
        SyncState::Acquiring => match e {
            SyncEvent::Opened => SyncState::Fetching,
            SyncEvent::Cloned => SyncState::Fetching,
            SyncEvent::CloneFailed => SyncState::Done(UpdateStatus::Failed),
            _ => s,
        },
        SyncState::Fetching => match e {
            SyncEvent::FetchOk => SyncState::Analyzing,
            SyncEvent::RemoteMissing => SyncState::Done(UpdateStatus::Failed),
            SyncEvent::FetchFailed => SyncState::Done(UpdateStatus::Failed),
            _ => s,
        },
        SyncState::Analyzing => match e {
            SyncEvent::AnalysisUpToDate => SyncState::Done(UpdateStatus::UpToDate),
            SyncEvent::AnalysisFastForward => SyncState::CheckingOut,
            SyncEvent::AnalysisDiverged => SyncState::Done(UpdateStatus::Failed),
            _ => s,
        },
        SyncState::CheckingOut => match e {
            SyncEvent::CheckoutOk => SyncState::Done(UpdateStatus::Updated),
            SyncEvent::CheckoutFailed => SyncState::Done(UpdateStatus::Failed),
            _ => s,
        },
        SyncState::Done(_) => s,
    }
}

/// Where an attempt starts: with no remote configured (absent or empty URL)
/// it is complete at once with `NotConfigured`, before any action is issued.
pub open spec fn spec_begin(remote_url: &Option<String>) -> SyncState {
    match remote_url {
        Some(url) => if url@.len() == 0 {
            SyncState::Done(UpdateStatus::NotConfigured)
        } else {
            SyncState::Acquiring
        },
        None => SyncState::Done(UpdateStatus::NotConfigured),
    }
}

/// The state a sequence of events drives the machine to.
pub open spec fn run_events(s: SyncState, es: Seq<SyncEvent>) -> SyncState
    decreases es.len(),
{
    if es.len() == 0 {
        s
    } else {
        run_events(spec_step(s, es[0]), es.drop_first())
    }
}

/// Starts one synchronization attempt.
pub fn sync_begin(remote_url: &Option<String>) -> (s: SyncState)
    ensures
        s == spec_begin(remote_url),
{
    match remote_url {
        Some(url) => {
            if url.as_str().is_empty() {
                SyncState::Done(UpdateStatus::NotConfigured)
            } else {
                SyncState::Acquiring
            }
        },
        None => SyncState::Done(UpdateStatus::NotConfigured),
    }
}

/// Feeds one event into the machine.
pub fn sync_step(s: SyncState, e: SyncEvent) -> (r: SyncState)
    ensures
        r == spec_step(s, e),
{
    match s {
        SyncState::Acquiring => match e {
            SyncEvent::Opened => SyncState::Fetching,
            SyncEvent::Cloned => SyncState::Fetching,
            SyncEvent::CloneFailed => SyncState::Done(UpdateStatus::Failed),
            _ => s,
        },
        SyncState::Fetching => match e {
            SyncEvent::FetchOk => SyncState::Analyzing,
            SyncEvent::RemoteMissing => SyncState::Done(UpdateStatus::Failed),
            SyncEvent::FetchFailed => SyncState::Done(UpdateStatus::Failed),
            _ => s,
        },
        SyncState::Analyzing => match e {
            SyncEvent::AnalysisUpToDate => SyncState::Done(UpdateStatus::UpToDate),
            SyncEvent::AnalysisFastForward => SyncState::CheckingOut,
            SyncEvent::AnalysisDiverged => SyncState::Done(UpdateStatus::Failed),
            _ => s,
        },
        SyncState::CheckingOut => match e {
            SyncEvent::CheckoutOk => SyncState::Done(UpdateStatus::Updated),
            SyncEvent::CheckoutFailed => SyncState::Done(UpdateStatus::Failed),
            _ => s,
        },
        SyncState::Done(_) => s,
    }
}

/// The action a state demands of the driver.
pub fn next_action(s: &SyncState) -> (a: SyncAction)
    ensures
        a == spec_action(*s),
{
    match s {
        SyncState::Acquiring => SyncAction::AcquireRepo,
        SyncState::Fetching => SyncAction::FetchRemote,
        SyncState::Analyzing => SyncAction::AnalyzeHeads,
        SyncState::CheckingOut => SyncAction::FastForward,
        SyncState::Done(_) => SyncAction::Report,
    }
}

pub open spec fn spec_action(s: SyncState) -> SyncAction {
    match s {
        SyncState::Acquiring => SyncAction::AcquireRepo,
        SyncState::Fetching => SyncAction::FetchRemote,
        SyncState::Analyzing => SyncAction::AnalyzeHeads,
        SyncState::CheckingOut => SyncAction::FastForward,
        SyncState::Done(_) => SyncAction::Report,
    }
}

/// A finished attempt stays finished, whatever events arrive.
pub proof fn lemma_done_absorbing(o: UpdateStatus, es: Seq<SyncEvent>)
    ensures
        run_events(SyncState::Done(o), es) == SyncState::Done(o),
    decreases es.len(),
{
    if es.len() > 0 {
        lemma_done_absorbing(o, es.drop_first());
    }
}

/// With no remote configured (absent or empty URL), an attempt reports
/// `NotConfigured` whatever events arrive, every state it passes through is
/// the finished one, and the only action ever issued is `Report`: no clone,
/// fetch or checkout is requested, so the local path is never touched.
pub proof fn lemma_not_configured(remote_url: &Option<String>, es: Seq<SyncEvent>)
    requires
        remote_url is None || remote_url->0@.len() == 0,
    ensures
        run_events(spec_begin(remote_url), es) == SyncState::Done(UpdateStatus::NotConfigured),
        forall|k: int|
            0 <= k <= es.len() ==> spec_action(
                #[trigger] run_events(spec_begin(remote_url), es.take(k)),
            ) == SyncAction::Report,
    decreases es.len(),
{
    lemma_done_absorbing(UpdateStatus::NotConfigured, es);
    assert forall|k: int| 0 <= k <= es.len() implies spec_action(
        #[trigger] run_events(spec_begin(remote_url), es.take(k)),
    ) == SyncAction::Report by {
        lemma_done_absorbing(UpdateStatus::NotConfigured, es.take(k));
    }
}

/// Against a repository already at the remote's head, the attempt reports
/// `UpToDate` and never reaches the checkout state: no `FastForward` action
/// is issued, so the working tree is never overwritten (the fetch only
/// updates the repository's remote-tracking state).
pub proof fn lemma_sync_up_to_date()
    ensures
        ({
            let s1 = spec_step(SyncState::Acquiring, SyncEvent::Opened);
            let s2 = spec_step(s1, SyncEvent::FetchOk);
            let s3 = spec_step(s2, SyncEvent::AnalysisUpToDate);
            &&& s1 == SyncState::Fetching
            &&& s2 == SyncState::Analyzing
            &&& s3 == SyncState::Done(UpdateStatus::UpToDate)
            &&& spec_action(SyncState::Acquiring) != SyncAction::FastForward
            &&& spec_action(s1) != SyncAction::FastForward
            &&& spec_action(s2) != SyncAction::FastForward
        }),
{
}

/// Against a repository strictly behind a fast-forwardable remote, the
/// attempt asks for exactly one `FastForward` (which makes the working tree
/// match the remote head) and then reports `Updated`.
pub proof fn lemma_sync_fast_forward()
    ensures
        ({
            let s1 = spec_step(SyncState::Acquiring, SyncEvent::Opened);
            let s2 = spec_step(s1, SyncEvent::FetchOk);
            let s3 = spec_step(s2, SyncEvent::AnalysisFastForward);
            let s4 = spec_step(s3, SyncEvent::CheckoutOk);
            &&& s3 == SyncState::CheckingOut
            &&& spec_action(s3) == SyncAction::FastForward
            &&& s4 == SyncState::Done(UpdateStatus::Updated)
        }),
{
}

/// Against a repository with diverged history, the attempt reports `Failed`
/// and never reaches the checkout state: no `FastForward` action is issued,
/// so the working tree is left as it was, with no partial merge behind.
pub proof fn lemma_sync_diverged()
    ensures
        ({
            let s1 = spec_step(SyncState::Acquiring, SyncEvent::Opened);
            let s2 = spec_step(s1, SyncEvent::FetchOk);
            let s3 = spec_step(s2, SyncEvent::AnalysisDiverged);
            &&& s3 == SyncState::Done(UpdateStatus::Failed)
            &&& spec_action(SyncState::Acquiring) != SyncAction::FastForward
            &&& spec_action(s1) != SyncAction::FastForward
            &&& spec_action(s2) != SyncAction::FastForward
        }),
{
}

} // verus!
