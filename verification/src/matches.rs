//! Matches: what a result looks like to the user.

use vstd::prelude::*;
use vstd::string::StringExecFns;
use crate::action::Action;
use crate::catalog::{Program, ProgramView};
use crate::text::{eq_ignore_ascii_case, eq_trimmed_ignore_case, trimmed};

verus! {

/// How well a match fits what the user typed.
#[derive(Clone, Copy, Debug, PartialEq, Eq, Structural)]
pub enum MatchType {
    /// The query is the program's identifier.
    ExactMatch,
    /// The query is found somewhere in what is known of the program.
    PossibleMatch,
}

/// A result as it is shown.
#[derive(Clone, Debug, PartialEq, Eq)]
pub struct Match {
    /// The identifier of the program.
    pub id: String,
    /// The line shown first.
    pub title: String,
    /// The line shown below the title.
    pub subtitle: String,
    /// The name of the icon shown beside the match.
    pub icon: String,
    pub match_type: MatchType,
    /// What the user can do with the match, in the order shown.
    pub actions: Vec<Action>,
    /// The score of the result, as the bit pattern of a double.
    pub relevance: u64,
}

/// A match as the texts and values it holds.
pub struct MatchView {
    pub id: Seq<char>,
    pub title: Seq<char>,
    pub subtitle: Seq<char>,
    pub icon: Seq<char>,
    pub match_type: MatchType,
    pub actions: Seq<Action>,
    pub relevance: u64,
}

impl View for Match {
    type V = MatchView;

    open spec fn view(&self) -> MatchView {
        MatchView {
            id: self.id@,
            title: self.title@,
            subtitle: self.subtitle@,
            icon: self.icon@,
            match_type: self.match_type,
            actions: self.actions@,
            relevance: self.relevance,
        }
    }
}

/// The title of the program `id` in the version `version`: `Nix: ` and the
/// identifier, then the version in brackets where there is one.
pub open spec fn title_for(id: Seq<char>, version: Seq<char>) -> Seq<char> {
    if version.len() == 0 {
        "Nix: "@ + id
    } else {
        "Nix: "@ + id + " ("@ + version + ")"@
    }
}

/// How well the program `id` fits `query`: exactly where the query, without
/// the white space at its ends, is the identifier but for the case of ASCII
/// letters.
pub open spec fn match_type_for(query: Seq<char>, id: Seq<char>) -> MatchType {
    if eq_ignore_ascii_case(trimmed(query), id) {
        MatchType::ExactMatch
    } else {
        MatchType::PossibleMatch
    }
}

/// The icon of every match.
pub open spec fn match_icon() -> Seq<char> {
    "nix-snowflake"@
}

/// The match shown for `program` where it was found for `query` with `score`.
pub open spec fn match_for(program: ProgramView, query: Seq<char>, score: u64) -> MatchView {
    MatchView {
        id: program.id,
        title: title_for(program.id, program.version),
        subtitle: program.description,
        icon: match_icon(),
        match_type: match_type_for(query, program.id),
        actions: Action::all_actions(),
        relevance: score,
    }
}

/// Formats `program`, found for `query` with `score`, as a match.
pub fn format_match(query: &str, program: &Program, score: u64) -> (m: Match)
    ensures
        m@ == match_for(program@, query@, score),
{
    let mut title = String::from_str("Nix: ");
    title.append(program.id.as_str());
    if !program.version.as_str().is_empty() {
        title.append(" (");
        title.append(program.version.as_str());
        title.append(")");
    }
    let match_type = if eq_trimmed_ignore_case(query, program.id.as_str()) {
        MatchType::ExactMatch
    } else {
        MatchType::PossibleMatch
    };
    Match {
        id: program.id.clone(),
        title,
        subtitle: program.description.clone(),
        icon: String::from_str("nix-snowflake"),
        match_type,
        actions: Action::all(),
        relevance: score,
    }
}

} // verus!
