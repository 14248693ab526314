//! Resolving the store root directory: an optional per-user configuration
//! document may name it; otherwise a fixed default under the home directory
//! stands.
use vstd::prelude::*;

use crate::ConfigError;
use crate::header::opt_str_view;
use crate::paths::{path_join, path_join_spec};

verus! {

/// Whether the configuration text is a valid document.
pub uninterp spec fn toml_parses(doc: Seq<char>) -> bool;

/// The string value under a top-level key of the document, where the
/// document is valid and holds a string there.
pub uninterp spec fn toml_str_key(doc: Seq<char>, key: Seq<char>) -> Option<Seq<char>>;

/// Relies on toml's `from_str::<toml::Value>`, `Value::get` and
/// `Value::as_str`: parses the document and looks up a top-level key.
/// `None` stands for a document that does not parse; `Some(None)` for one
/// that parses but holds no string under the key.
#[verifier::external_body]
fn toml_lookup_str(content: &str, key: &str) -> (r: Option<Option<String>>)
    ensures
        r is Some <==> toml_parses(content@),
        r matches Some(o) ==> opt_str_view(o) == toml_str_key(content@, key@),
{
    match toml::from_str::<toml::Value>(content) {
        Err(_) => None,
        Ok(v) => Some(
            match v.get(key) {
                Some(x) => match x.as_str() {
                    Some(s) => Some(s.to_string()),
                    None => None,
                },
                None => None,
            },
        ),
    }
}

/// The fixed default store root under the home directory.
pub open spec fn default_root_spec(home: Seq<char>) -> Seq<char> {
    path_join_spec(home, "Documents/journals"@)
}

/// What resolving yields: no home directory is a hard failure; a missing
/// configuration file falls back to the fixed default silently; a present
/// but invalid one is a hard failure; a valid one is taken verbatim where
/// it names a root, and falls back to the default where it does not.
pub open spec fn resolve_spec(home: Option<Seq<char>>, config: Option<Seq<char>>) -> Result<
    Seq<char>,
    ConfigError,
> {
    match home {
        None => Err(ConfigError::HomeDirUnavailable),
        Some(h) => match config {
            None => Ok(default_root_spec(h)),
            Some(c) => if !toml_parses(c) {
                Err(ConfigError::ConfigParse)
            } else {
                match toml_str_key(c, "default_path"@) {
                    Some(p) => Ok(p),
                    None => Ok(default_root_spec(h)),
                }
            },
        },
    }
}

pub open spec fn root_view(r: Result<String, ConfigError>) -> Result<Seq<char>, ConfigError> {
    match r {
        Ok(s) => Ok(s@),
        Err(e) => Err(e),
    }
}

/// Resolves the store root from the home directory, as the platform
/// reported it, and the configuration file's text, where one exists.
pub fn resolve_store_root_with(home: Option<String>, config: Option<String>) -> (r: Result<
    String,
    ConfigError,
>)
    ensures
        root_view(r) == resolve_spec(opt_str_view(home), opt_str_view(config)),
{
    match home {
        None => Err(ConfigError::HomeDirUnavailable),
        Some(h) => match config {
            None => Ok(path_join(h.as_str(), "Documents/journals")),
            Some(c) => match toml_lookup_str(c.as_str(), "default_path") {
                None => Err(ConfigError::ConfigParse),
                Some(None) => Ok(path_join(h.as_str(), "Documents/journals")),
                Some(Some(p)) => Ok(p),
            },
        },
    }
}

/// The per-user location of the configuration file, under the home
/// directory.
pub fn config_file_path(home: &str) -> (r: String)
    ensures
        r@ == path_join_spec(home@, ".config/file-journal/config.toml"@),
{
    path_join(home, ".config/file-journal/config.toml")
}

} // verus!
