//! What answers a request: files, listings, uploads, removals, redirects and
//! error pages.
//!
//! A handler decides; the disk is looked at and changed by its caller, who
//! tells the handler what was found and does what the handler says.

use vstd::prelude::*;
use vstd::string::*;

use crate::text;
use crate::utils::path;

pub mod error;
pub mod redirect;
pub mod delete;
pub mod directory;
pub mod listing;
pub mod static_file;
pub mod upload;

verus! {

/// What stands at a place on disk.
#[derive(Debug, Clone, Copy, PartialEq, Eq, Structural)]
pub enum FileKind {
    File,
    Directory,
    /// Nothing, or something that is neither file nor directory.
    Other,
}

/// Why an operation on the disk failed.
#[derive(Debug, Clone, Copy, PartialEq, Eq, Structural)]
pub enum IoFailure {
    NotFound,
    PermissionDenied,
    /// A directory that was to be removed is not empty.
    NotEmpty,
    Other,
}

/// What was found on disk for a request.
#[derive(Debug)]
pub struct Observed {
    /// The root of the route, with links followed, if it is there.
    pub real_root: Option<String>,
    /// The place of the request's path under that root, with links followed, if
    /// anything is there.
    pub real_path: Option<String>,
    /// What stands at the place that the path resolves to.
    pub kind: FileKind,
}

/// [`Observed`] with texts for its strings.
#[verifier::ext_equal]
pub struct ObservedView {
    pub real_root: Option<Seq<char>>,
    pub real_path: Option<Seq<char>>,
    pub kind: FileKind,
}

impl View for Observed {
    type V = ObservedView;

    open spec fn view(&self) -> ObservedView {
        ObservedView {
            real_root: text::opt(self.real_root),
            real_path: text::opt(self.real_path),
            kind: self.kind,
        }
    }
}

/// The place that a request's path leads to, if it may be used.
pub open spec fn place(root: Seq<char>, url: Seq<char>, seen: ObservedView) -> Option<Seq<char>> {
    match path::resolved(root, url, seen.real_root, seen.real_path) {
        Ok(p) => Some(p),
        Err(_) => None,
    }
}

/// A borrowed optional string.
pub(crate) fn borrowed(o: &Option<String>) -> (r: Option<&str>)
    ensures
        text::opt_str(r) == text::opt(*o),
{
    match o {
        Some(s) => Some(s.as_str()),
        None => None,
    }
}

/// The place that a request's path leads to, if it may be used.
pub fn locate(root: &str, url_path: &str, seen: &Observed) -> (r: Option<String>)
    ensures
        text::opt(r) == place(root@, url_path@, seen@),
{
    match path::resolve_safe(root, url_path, borrowed(&seen.real_root), borrowed(&seen.real_path)) {
        Ok(p) => Some(p),
        Err(_) => None,
    }
}

} // verus!
