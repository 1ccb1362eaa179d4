//! The actions that every match offers, and the request that a chosen action
//! resolves to.

use vstd::prelude::*;
use vstd::string::StringExecFns;
use crate::text::same_text;

verus! {

/// What a user can do with a match. The set is closed: there are these two.
#[derive(Clone, Copy, Debug, PartialEq, Eq, Structural)]
pub enum Action {
    /// Run the program once.
    Run,
    /// Open a shell in which the program is available.
    Shell,
}

/// The flake that match identifiers are looked up in.
pub open spec fn flake() -> Seq<char> {
    "nixpkgs"@
}

impl Action {
    /// The identifier of the action.
    pub open spec fn id_text(self) -> Seq<char> {
        match self {
            Action::Run => "run"@,
            Action::Shell => "shell"@,
        }
    }

    /// The text shown for the action.
    pub open spec fn title_text(self) -> Seq<char> {
        match self {
            Action::Run => "Run Nix program"@,
            Action::Shell => "Spawn a new shell with Nix program"@,
        }
    }

    /// The name of the icon shown for the action.
    pub open spec fn icon_text(self) -> Seq<char> {
        match self {
            Action::Run => "system-run-symbolic"@,
            Action::Shell => "new-command-alarm"@,
        }
    }

    /// The actions in the order in which a match lists them.
    pub open spec fn all_actions() -> Seq<Action> {
        seq![Action::Run, Action::Shell]
    }

    /// The identifier of the action.
    pub fn id(self) -> (id: &'static str)
        ensures
            id@ == self.id_text(),
    {
        match self {
            Action::Run => "run",
            Action::Shell => "shell",
        }
    }

    /// The text shown for the action.
    pub fn title(self) -> (title: &'static str)
        ensures
            title@ == self.title_text(),
    {
        match self {
            Action::Run => "Run Nix program",
            Action::Shell => "Spawn a new shell with Nix program",
        }
    }

    /// The name of the icon shown for the action.
    pub fn icon(self) -> (icon: &'static str)
        ensures
            icon@ == self.icon_text(),
    {
        match self {
            Action::Run => "system-run-symbolic",
            Action::Shell => "new-command-alarm",
        }
    }

    /// The action that `id` identifies, if it identifies one.
    pub fn from_id(id: &str) -> (action: Option<Action>)
        ensures
            match action {
                Some(a) => a.id_text() == id@,
                None => forall|a: Action| a.id_text() != id@,
            },
    {
        if same_text(id, "run") {
            Some(Action::Run)
        } else if same_text(id, "shell") {
            Some(Action::Shell)
        } else {
            None
        }
    }

    /// The actions in the order in which a match lists them.
    pub fn all() -> (actions: Vec<Action>)
        ensures
            actions@ == Action::all_actions(),
    {
        let mut actions: Vec<Action> = Vec::new();
        actions.push(Action::Run);
        actions.push(Action::Shell);
        assert(actions@ =~= Action::all_actions());
        actions
    }
}

/// What the process that spawns a terminal is asked to do.
#[derive(Clone, Debug, PartialEq, Eq)]
pub struct InvocationRequest {
    /// The subcommand of the package manager: `run` or `shell`.
    pub verb: &'static str,
    /// The flake reference of the program: the flake, `#`, and the match's
    /// identifier.
    pub target: String,
}

/// The request as the texts it holds.
pub struct InvocationRequestView {
    pub verb: Seq<char>,
    pub target: Seq<char>,
}

impl View for InvocationRequest {
    type V = InvocationRequestView;

    open spec fn view(&self) -> InvocationRequestView {
        InvocationRequestView { verb: self.verb@, target: self.target@ }
    }
}

/// The action that is taken where the user chose none: `Run`.
pub open spec fn effective_action(chosen: Option<Action>) -> Action {
    match chosen {
        Some(action) => action,
        None => Action::Run,
    }
}

/// The request that the match `match_id` and the choice `chosen` resolve to.
pub open spec fn resolution(match_id: Seq<char>, chosen: Option<Action>) -> InvocationRequestView {
    InvocationRequestView {
        verb: effective_action(chosen).id_text(),
        target: flake() + seq!['#'] + match_id,
    }
}

/// Resolves a selected match and the action chosen for it, if any, into the
/// request to hand on. Nothing is spawned here.
pub fn resolve(match_id: &str, chosen: Option<Action>) -> (request: InvocationRequest)
    ensures
        request@ == resolution(match_id@, chosen),
{
    let verb = match chosen {
        Some(Action::Shell) => Action::Shell.id(),
        Some(Action::Run) | None => Action::Run.id(),
    };
    let mut target = String::from_str("nixpkgs");
    target.append("#");
    target.append(match_id);
    proof {
        reveal_strlit("#");
        assert("#"@ =~= seq!['#']);
    }
    InvocationRequest { verb, target }
}

/// A request that could not be carried out. It concerns that one request:
/// the next can still succeed.
#[derive(Clone, Debug, PartialEq, Eq)]
pub struct SpawnError {
    /// The request that failed.
    pub request: InvocationRequest,
    /// What the system said when the terminal was to be spawned.
    pub reason: String,
}

/// The failure as the texts it holds.
pub struct SpawnErrorView {
    pub request: InvocationRequestView,
    pub reason: Seq<char>,
}

impl View for SpawnError {
    type V = SpawnErrorView;

    open spec fn view(&self) -> SpawnErrorView {
        SpawnErrorView { request: self.request@, reason: self.reason@ }
    }
}

impl SpawnErrorView {
    /// The failure in a sentence.
    pub open spec fn message(self) -> Seq<char> {
        "could not spawn a terminal for `nix "@ + self.request.verb + " "@ + self.request.target
            + "`: "@ + self.reason
    }
}

impl SpawnError {
    /// The failure in a sentence, for whoever asked for the action.
    pub fn message(&self) -> (text: String)
        ensures
            text@ == self@.message(),
    {
        let mut text = String::from_str("could not spawn a terminal for `nix ");
        text.append(self.request.verb);
        text.append(" ");
        text.append(self.request.target.as_str());
        text.append("`: ");
        text.append(self.reason.as_str());
        text
    }
}

/// What became of `request`, where `spawned` is what spawning the terminal
/// for it gave: success, or the failure of this request with the reason.
pub fn outcome(request: InvocationRequest, spawned: Result<(), String>) -> (result: Result<
    (),
    SpawnError,
>)
    ensures
        match result {
            Ok(_) => spawned is Ok,
            Err(failure) => spawned is Err && failure@.request == request@ && failure@.reason
                == spawned->Err_0@,
        },
{
    match spawned {
        Ok(_) => Ok(()),
        Err(reason) => Err(SpawnError { request, reason }),
    }
}

/// Choosing nothing is choosing `Run`; choosing `Shell` changes the verb and
/// nothing else.
pub proof fn lemma_resolution_by_choice(match_id: Seq<char>)
    ensures
        resolution(match_id, None) == resolution(match_id, Some(Action::Run)),
        resolution(match_id, Some(Action::Shell)).target == resolution(match_id, None).target,
        resolution(match_id, Some(Action::Shell)).verb != resolution(match_id, None).verb,
{
    reveal_strlit("run");
    reveal_strlit("shell");
    assert("run"@.len() == 3);
    assert("shell"@.len() == 5);
}

} // verus!
