//! Search over a catalog of Nix packages: free text in, ranked matches out,
//! each with the actions that can be taken on it.
//!
//! A [`runner::Runner`] is made once from the package manager's listing. It
//! holds the [`catalog::Catalog`] and the [`index::SearchIndex`] built over it,
//! and answers queries with [`matches::Match`]es: the programs that share a
//! token with the query, as [`search`] says. A chosen action is resolved by
//! [`action::resolve`].

pub mod action;
pub mod catalog;
pub mod index;
pub mod matches;
pub mod ranking;
pub mod runner;
pub mod search;
pub mod text;

pub use action::{resolve, Action, InvocationRequest, SpawnError};
pub use catalog::{Catalog, CatalogEntry, LoadError, Program};
pub use index::SearchIndex;
pub use matches::{Match, MatchType};
pub use ranking::QueryResult;
pub use runner::Runner;
pub use text::tokenizer;
