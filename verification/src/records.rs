//! The records the system passes around: an indexed entry (one row of the
//! persistent store), the query request and the streamed result record.

use vstd::prelude::*;

verus! {

use vstd::string::StringExecFns;
use crate::MAX_DEPTH;

/// One row of the persistent index, uniquely identified by `path`.
#[derive(Debug, PartialEq)]
pub struct Entry {
    /// Display name: the file basename, or the application descriptor's
    /// parsed name when present and non-empty.
    pub name: String,
    /// Absolute path; primary key.
    pub path: String,
    /// Directory-traversal distance from the walk root that found the file.
    pub depth: usize,
    /// Seconds since the Unix epoch at insertion; recency proxy and
    /// re-index guard.
    pub last_accessed: i64,
    /// Whether an execute bit is set (or, for a symlink, set on its target).
    pub executable: bool,
    /// Whether the file is an application descriptor (`desktop` extension).
    pub desktop: bool,
    /// Resolved icon image path for a desktop entry, when one was found.
    pub icon: Option<String>,
}

/// A well-formed row respects the walk depth bound.
pub open spec fn entry_ok(e: Entry) -> bool {
    e.depth <= MAX_DEPTH
}

/// Copies an optional string, preserving its value.
pub fn duplicate_opt_string(s: &Option<String>) -> (r: Option<String>)
    ensures
        r == *s,
{
    match s {
        Some(v) => Some(v.clone()),
        None => None,
    }
}

impl Entry {
    /// Copies the row, preserving every field.
    pub fn duplicate(&self) -> (r: Entry)
        ensures
            r == *self,
    {
        Entry {
            name: self.name.clone(),
            path: self.path.clone(),
            depth: self.depth,
            last_accessed: self.last_accessed,
            executable: self.executable,
            desktop: self.desktop,
            icon: duplicate_opt_string(&self.icon),
        }
    }
}

/// A query request, one per client connection.
#[derive(Debug, PartialEq)]
pub struct Request {
    pub query: String,
}

/// One streamed query result record.
#[derive(Debug, PartialEq)]
pub struct SearchResult {
    pub name: String,
    pub path: String,
    pub is_desktop: bool,
    pub is_executable: bool,
    pub icon: Option<String>,
}

impl SearchResult {
    /// Copies the record, preserving every field.
    pub fn duplicate(&self) -> (r: SearchResult)
        ensures
            r == *self,
    {
        SearchResult {
            name: self.name.clone(),
            path: self.path.clone(),
            is_desktop: self.is_desktop,
            is_executable: self.is_executable,
            icon: duplicate_opt_string(&self.icon),
        }
    }
}

/// The result record a stored row answers a query with.
pub open spec fn spec_to_result(e: Entry) -> SearchResult {
    SearchResult {
        name: e.name,
        path: e.path,
        is_desktop: e.desktop,
        is_executable: e.executable,
        icon: e.icon,
    }
}

/// Converts a stored row into a result record.
pub fn to_search_result(e: &Entry) -> (r: SearchResult)
    ensures
        r == spec_to_result(*e),
{
    SearchResult {
        name: e.name.clone(),
        path: e.path.clone(),
        is_desktop: e.desktop,
        is_executable: e.executable,
        icon: duplicate_opt_string(&e.icon),
    }
}

/// The icon sigil a result record is printed with: `@` for a desktop entry,
/// else `*` for an executable, else nothing.
pub open spec fn spec_sigil(r: SearchResult) -> Seq<char> {
    if r.is_desktop {
        "@"@
    } else if r.is_executable {
        "*"@
    } else {
        Seq::<char>::empty()
    }
}

/// A result record's printed line: `<sigil><name>\t<path>`.
pub open spec fn spec_render_line(r: SearchResult) -> Seq<char> {
    spec_sigil(r) + r.name@ + "\t"@ + r.path@
}

/// Renders a result record as its one-line human-readable form.
pub fn render_line(r: &SearchResult) -> (out: String)
    ensures
        out@ == spec_render_line(*r),
{
    let mut out = if r.is_desktop {
        String::from_str("@")
    } else if r.is_executable {
        String::from_str("*")
    } else {
        String::new()
    };
    out.append(r.name.as_str());
    out.append("\t");
    out.append(r.path.as_str());
    out
}

} // verus!
