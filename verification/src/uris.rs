//! File paths and the URIs that the protocol names files by.
//!
//! How a path is written differs between systems, so which URI belongs to which
//! path is known only as what the system answered: [`is_path_of`] and
//! [`is_uri_of`] say that it was asked about this URI or path, and answered so.
use crate::file_path;
use crate::file_path::FilePath;
use crate::file_path::PathView;
use std::path::PathBuf;
use url::Url;
use vstd::prelude::*;

verus! {

/// `url::Url::to_file_path` on what `url::Url::parse` reads: the path of a file,
/// where the URI names one.
#[verifier::external_body]
fn uri_to_path(uri: &str) -> Option<PathBuf> {
    Url::parse(uri).ok()?.to_file_path().ok()
}

/// `url::Url::from_file_path`: the URI of a file, where the path is absolute. It
/// has the `file` scheme.
#[verifier::external_body]
fn path_to_uri(path: &PathBuf) -> (r: Option<String>)
    ensures
        r matches Some(uri) ==> "file://"@.is_prefix_of(uri@),
{
    Url::from_file_path(path).ok().map(String::from)
}

/// The system, asked for the path of a URI, gave this one, or none.
pub closed spec fn is_path_of(uri: Seq<char>, path: Option<FilePath>) -> bool {
    exists|asked: &str, answer: Option<PathBuf>| #[trigger]
        call_ensures(uri_to_path, (asked,), answer) && asked@ == uri && match answer {
            Some(answer) => path matches Some(path) && path.source() == answer
                && file_path::are_components_of(answer, path@),
            None => path is None,
        }
}

/// The system, asked for the URI of a path with these components, gave this one,
/// or none.
pub closed spec fn is_uri_of(path: PathView, uri: Option<String>) -> bool {
    exists|asked: FilePath| asked@ == path && #[trigger] call_ensures(
        path_to_uri,
        (&asked.source(),),
        uri,
    )
}

/// The path of the file that a URI names.
pub fn path_of(uri: &str) -> (path: Option<FilePath>)
    ensures
        is_path_of(uri@, path),
{
    match uri_to_path(uri) {
        Some(answer) => Some(FilePath::from_path(answer)),
        None => None,
    }
}

/// The URI of a file.
pub fn uri_of(path: &FilePath) -> (uri: Option<String>)
    ensures
        is_uri_of(path@, uri),
        uri matches Some(uri) ==> "file://"@.is_prefix_of(uri@),
{
    let uri = path_to_uri(path.as_path());
    assert(call_ensures(path_to_uri, (&path.source(),), uri));
    uri
}

// ── Laws ─────────────────────────────────────────────────────────────────────
/// The path of a URI is the one that the system gave for this URI, with its
/// components; there is none only if it gave none.
proof fn law_path_is_what_the_system_gave(uri: Seq<char>, path: Option<FilePath>)
    requires
        is_path_of(uri, path),
    ensures
        exists|asked: &str, answer: Option<PathBuf>| #[trigger]
            call_ensures(uri_to_path, (asked,), answer) && asked@ == uri && (answer is None
                <==> path is None) && (path is Some ==> path.unwrap().source() == answer.unwrap()
                && file_path::are_components_of(answer.unwrap(), path.unwrap()@)),
{
}

/// The URI of a path is the one that the system gave for a path with these
/// components.
proof fn law_uri_is_what_the_system_gave(path: PathView, uri: Option<String>)
    requires
        is_uri_of(path, uri),
    ensures
        exists|asked: FilePath| #[trigger]
            call_ensures(path_to_uri, (&asked.source(),), uri) && asked@ == path,
        uri matches Some(uri) ==> "file://"@.is_prefix_of(uri@),
{
}

} // verus!
