use nix_search::action::{outcome, resolve, Action, InvocationRequest, SpawnError};

#[test]
fn actions_have_their_identifiers() {
    assert_eq!(Action::Run.id(), "run");
    assert_eq!(Action::Shell.id(), "shell");
}

#[test]
fn actions_have_their_titles_and_icons() {
    assert_eq!(Action::Run.title(), "Run Nix program");
    assert_eq!(Action::Run.icon(), "system-run-symbolic");
    assert_eq!(Action::Shell.title(), "Spawn a new shell with Nix program");
    assert_eq!(Action::Shell.icon(), "new-command-alarm");
}

#[test]
fn all_actions_are_run_then_shell() {
    assert_eq!(Action::all(), vec![Action::Run, Action::Shell]);
}

#[test]
fn an_action_is_found_by_its_identifier() {
    assert_eq!(Action::from_id("run"), Some(Action::Run));
    assert_eq!(Action::from_id("shell"), Some(Action::Shell));
    for action in Action::all() {
        assert_eq!(Action::from_id(action.id()), Some(action));
    }
}

#[test]
fn no_action_is_found_by_another_text() {
    assert_eq!(Action::from_id(""), None);
    assert_eq!(Action::from_id("Run"), None);
    assert_eq!(Action::from_id("run "), None);
    assert_eq!(Action::from_id("install"), None);
}

#[test]
fn resolving_without_a_choice_runs() {
    assert_eq!(
        resolve("hello", None),
        InvocationRequest { verb: "run", target: "nixpkgs#hello".to_string() }
    );
}

#[test]
fn resolving_run_is_resolving_without_a_choice() {
    for id in ["hello", "", "python3Packages.numpy", "with space", "ñandú"] {
        assert_eq!(resolve(id, None), resolve(id, Some(Action::Run)));
    }
}

#[test]
fn resolving_shell_differs_in_the_verb_only() {
    for id in ["hello", "", "python3Packages.numpy"] {
        let run = resolve(id, None);
        let shell = resolve(id, Some(Action::Shell));
        assert_eq!(shell.verb, "shell");
        assert_ne!(shell.verb, run.verb);
        assert_eq!(shell.target, run.target);
    }
}

#[test]
fn the_target_is_the_flake_and_the_identifier() {
    assert_eq!(resolve("firefox", Some(Action::Shell)).target, "nixpkgs#firefox");
    assert_eq!(resolve("", Some(Action::Run)).target, "nixpkgs#");
}

#[test]
fn a_spawned_request_has_succeeded() {
    assert_eq!(outcome(resolve("hello", None), Ok(())), Ok(()));
}

#[test]
fn a_request_that_was_not_spawned_has_failed_with_its_reason() {
    let request = resolve("hello", Some(Action::Shell));
    assert_eq!(
        outcome(request.clone(), Err("konsole: not found".to_string())),
        Err(SpawnError { request, reason: "konsole: not found".to_string() })
    );
}

#[test]
fn a_failure_says_what_was_asked_and_why_it_failed() {
    let failure = SpawnError {
        request: resolve("hello", None),
        reason: "No such file or directory".to_string(),
    };
    assert_eq!(
        failure.message(),
        "could not spawn a terminal for `nix run nixpkgs#hello`: No such file or directory"
    );
}

#[test]
fn a_failure_leaves_the_next_request_alone() {
    let failed = outcome(resolve("hello", None), Err("busy".to_string()));
    assert!(failed.is_err());
    assert_eq!(outcome(resolve("hello", None), Ok(())), Ok(()));
    assert_eq!(resolve("hello", None).target, "nixpkgs#hello");
}
