//! The per-ecosystem eligibility policy: a closed set of named strategies
//! selected once, at engine construction, from a configuration string.  A
//! strategy decides which files take part at all and which symbols a file's
//! table shows.

use vstd::prelude::*;

use crate::lsp_types::SymbolKind;
use crate::text::{spec_ends_with, spec_lower, str_ends_with, str_eq_str, str_to_lower};

verus! {

/// The known ecosystems; anything unrecognised falls back to the generic
/// strategy.
#[derive(Debug, Clone, Copy, PartialEq, Eq, Structural)]
pub enum Lang {
    Generic,
    Go,
    Rust,
    JsTs,
}

/// The strategy chosen for a configuration string, compared case-insensitively.
pub open spec fn spec_language_of(s: Seq<char>) -> Lang {
    if spec_lower(s) == "go"@ {
        Lang::Go
    } else if spec_lower(s) == "rust"@ {
        Lang::Rust
    } else if spec_lower(s) == "javascript"@ || spec_lower(s) == "typescript"@ {
        Lang::JsTs
    } else {
        Lang::Generic
    }
}

/// Picks the strategy for a configuration string.
pub fn language_handler(s: &str) -> (r: Lang)
    ensures
        r == spec_language_of(s@),
{
    let lower = str_to_lower(s);
    if str_eq_str(lower.as_str(), "go") {
        Lang::Go
    } else if str_eq_str(lower.as_str(), "rust") {
        Lang::Rust
    } else if str_eq_str(lower.as_str(), "javascript") || str_eq_str(lower.as_str(), "typescript") {
        Lang::JsTs
    } else {
        Lang::Generic
    }
}

/// Whether a file is excluded from the graph altogether: the Go strategy
/// leaves out test files.
pub open spec fn spec_filter_out_file(lang: Lang, path: Seq<char>) -> bool {
    match lang {
        Lang::Go => spec_ends_with(path, "_test.go"@),
        _ => false,
    }
}

/// Decides whether a file is excluded from the graph.
pub fn filter_out_file(lang: Lang, path: &str) -> (r: bool)
    ensures
        r == spec_filter_out_file(lang, path@),
{
    match lang {
        Lang::Go => str_ends_with(path, "_test.go"),
        _ => false,
    }
}

/// Whether a symbol is shown in its file's table.  Constants, plain variables
/// and enum members are left out everywhere; the JavaScript/TypeScript
/// strategy also hides callback and anonymous functions.
pub open spec fn spec_keep_symbol(lang: Lang, name: Seq<char>, kind: SymbolKind) -> bool {
    match kind {
        SymbolKind::Constant => false,
        SymbolKind::Variable => false,
        SymbolKind::EnumMember => false,
        SymbolKind::Function => match lang {
            Lang::JsTs => !(spec_ends_with(name, " callback"@) || name == "<function>"@),
            _ => true,
        },
        _ => true,
    }
}

/// Decides whether a symbol is shown in its file's table.
pub fn keep_symbol(lang: Lang, name: &str, kind: SymbolKind) -> (r: bool)
    ensures
        r == spec_keep_symbol(lang, name@, kind),
{
    match kind {
        SymbolKind::Constant => false,
        SymbolKind::Variable => false,
        SymbolKind::EnumMember => false,
        SymbolKind::Function => match lang {
            Lang::JsTs => !(str_ends_with(name, " callback") || str_eq_str(name, "<function>")),
            _ => true,
        },
        _ => true,
    }
}

} // verus!
