//! A local, Git-aware symbol index: the rules that decide which files are
//! indexed, what definitions a source file declares, where an index lives
//! and when it is stale, and how symbols are matched and ranked against a
//! query.
pub mod config;
pub mod text;
pub mod path;
pub mod git;
pub mod order;
pub mod filter;
pub mod search;
pub mod language;
pub mod declared;
pub mod index;
pub mod report;
pub mod command;

use vstd::prelude::*;

verus! {

/// A definition found in a source file.
#[derive(Debug, Clone, PartialEq, Eq)]
pub struct Symbol {
    pub name: String,
    /// The name qualified by its namespace and every enclosing definition.
    pub qualified_name: String,
    pub kind: String,
    pub namespace: Option<String>,
    pub start_line: usize,
    pub start_column: usize,
    pub end_line: usize,
    pub end_column: usize,
    pub parent: Option<String>,
}

/// What a symbol says, as text.
pub struct SymbolView {
    pub name: Seq<char>,
    pub qualified_name: Seq<char>,
    pub kind: Seq<char>,
    pub namespace: Option<Seq<char>>,
    pub start_line: usize,
    pub start_column: usize,
    pub end_line: usize,
    pub end_column: usize,
    pub parent: Option<Seq<char>>,
}

impl View for Symbol {
    type V = SymbolView;

    open spec fn view(&self) -> SymbolView {
        SymbolView {
            name: self.name@,
            qualified_name: self.qualified_name@,
            kind: self.kind@,
            namespace: string_opt(self.namespace),
            start_line: self.start_line,
            start_column: self.start_column,
            end_line: self.end_line,
            end_column: self.end_column,
            parent: string_opt(self.parent),
        }
    }
}

/// A symbol found by a search, with where it lives and how well it matched.
#[derive(Debug, Clone)]
pub struct SearchResult {
    pub name: String,
    pub qualified_name: String,
    pub kind: String,
    /// How well the symbol matched the query, from 0 to 10000.
    pub match_score: u16,
    pub namespace: Option<String>,
    pub parent: Option<String>,
    /// The file on this machine: the repository root joined with the
    /// relative path.
    pub local_path: String,
    pub relative_path: String,
    pub start_line: usize,
    pub end_line: usize,
    /// The file on the repository's branch at its hosting service.
    pub remote_url: Option<String>,
    /// The symbol's lines at the indexed commit at its hosting service.
    pub commit_url: Option<String>,
    /// A note on the repository's local Git state when it may be stale.
    pub git_state: Option<String>,
}

/// The view of an optional string.
pub open spec fn string_opt(value: Option<String>) -> Option<Seq<char>> {
    match value {
        Some(s) => Some(s@),
        None => None,
    }
}

/// What a search result says, as text.
pub struct SearchResultView {
    pub name: Seq<char>,
    pub qualified_name: Seq<char>,
    pub kind: Seq<char>,
    pub match_score: u16,
    pub namespace: Option<Seq<char>>,
    pub parent: Option<Seq<char>>,
    pub local_path: Seq<char>,
    pub relative_path: Seq<char>,
    pub start_line: usize,
    pub end_line: usize,
    pub remote_url: Option<Seq<char>>,
    pub commit_url: Option<Seq<char>>,
    pub git_state: Option<Seq<char>>,
}

impl View for SearchResult {
    type V = SearchResultView;

    open spec fn view(&self) -> SearchResultView {
        SearchResultView {
            name: self.name@,
            qualified_name: self.qualified_name@,
            kind: self.kind@,
            match_score: self.match_score,
            namespace: string_opt(self.namespace),
            parent: string_opt(self.parent),
            local_path: self.local_path@,
            relative_path: self.relative_path@,
            start_line: self.start_line,
            end_line: self.end_line,
            remote_url: string_opt(self.remote_url),
            commit_url: string_opt(self.commit_url),
            git_state: string_opt(self.git_state),
        }
    }
}

} // verus!
