use issue_sync::scheduler::{
    interval_or_default, next_step, parse_repo, Phase, SyncAction, SyncEvent,
};
use issue_sync::updater::{build_update, StateChange};

#[test]
fn repo_argument_must_have_one_separator() {
    let (owner, name) = parse_repo("octocat/hello").unwrap();
    assert_eq!(owner, "octocat");
    assert_eq!(name, "hello");
    assert!(parse_repo("no-separator").is_none());
    assert!(parse_repo("a/b/c").is_none());
}

#[test]
fn interval_defaults_to_300() {
    assert_eq!(interval_or_default(None), 300);
    assert_eq!(interval_or_default(Some("60")), 60);
    assert_eq!(interval_or_default(Some("not-a-number")), 300);
    assert_eq!(interval_or_default(Some("")), 300);
}

#[test]
fn startup_failure_aborts() {
    let (phase, action) = next_step(
        Phase::Startup,
        true,
        SyncEvent::InitialFetchDone { ok: false },
    );
    assert_eq!(phase, Phase::Aborted);
    assert!(matches!(action, SyncAction::ExitError));

    let (phase, action) = next_step(Phase::Startup, true, SyncEvent::DirReady { ok: false });
    assert_eq!(phase, Phase::Aborted);
    assert!(matches!(action, SyncAction::ExitError));
}

#[test]
fn one_shot_run_finishes_after_startup() {
    let (phase, action) = next_step(
        Phase::Startup,
        false,
        SyncEvent::InitialFetchDone { ok: true },
    );
    assert_eq!(phase, Phase::Finished);
    assert!(matches!(action, SyncAction::ExitOk));
}

#[test]
fn watch_mode_enters_steady_state() {
    let (phase, _) = next_step(
        Phase::Startup,
        true,
        SyncEvent::InitialFetchDone { ok: true },
    );
    assert_eq!(phase, Phase::Steady);
}

#[test]
fn poll_tick_starts_fetch_and_errors_do_not_stop_the_run() {
    let (phase, action) = next_step(Phase::Steady, true, SyncEvent::PollTick);
    assert_eq!(phase, Phase::Steady);
    assert!(matches!(action, SyncAction::StartFetch));

    let (phase, action) = next_step(Phase::Steady, true, SyncEvent::PollFetchDone { ok: false });
    assert_eq!(phase, Phase::Steady);
    assert!(matches!(action, SyncAction::LogAndContinue));
}

#[test]
fn file_change_triggers_update_for_markdown_only() {
    let (phase, action) = next_step(
        Phase::Steady,
        true,
        SyncEvent::FileChanged { path: String::from("issues/issue-1.md"), is_file: true },
    );
    assert_eq!(phase, Phase::Steady);
    match action {
        SyncAction::StartUpdate(p) => assert_eq!(p, "issues/issue-1.md"),
        _ => panic!("expected an update to start"),
    }

    let (_, action) = next_step(
        Phase::Steady,
        true,
        SyncEvent::FileChanged { path: String::from("issues/notes.txt"), is_file: true },
    );
    assert!(matches!(action, SyncAction::Ignore));
}

#[test]
fn update_errors_do_not_stop_the_run() {
    let (phase, action) = next_step(Phase::Steady, true, SyncEvent::UpdateDone { ok: false });
    assert_eq!(phase, Phase::Steady);
    assert!(matches!(action, SyncAction::LogAndContinue));
}

#[test]
fn editing_state_to_closed_updates_issue_one() {
    // The file a fetch wrote for issue 1, with its state edited by hand.
    let edited = "---\nnumber: 1\ntitle: A\nstate: closed\nlabels: []\n---\n\nBody A";
    let (_, action) = next_step(
        Phase::Steady,
        true,
        SyncEvent::FileChanged { path: String::from("issues/issue-1.md"), is_file: true },
    );
    assert!(matches!(action, SyncAction::StartUpdate(_)));
    let u = build_update(edited).unwrap();
    assert_eq!(u.number, 1);
    assert_eq!(u.title.unwrap(), "A");
    assert_eq!(u.state, Some(StateChange::Closed));
    assert!(u.labels.is_empty());
    assert_eq!(u.body, "Body A");
}
