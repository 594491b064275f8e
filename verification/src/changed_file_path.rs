//! The path of a changed file, together with the optional namespace
//! prefix of the source it came from.

use vstd::prelude::*;
use vstd::string::StringExecFns;
use crate::file_name::{FileName, opt_view, name_lt, display_of, compare_name};
use crate::text::TextOrder;

verus! {

/// A changed file path with an optional namespace prefix. Equality and
/// ordering are over the full (prefix, path) pair.
#[derive(Debug, Clone, PartialEq, Eq)]
pub struct ChangedFilePath {
    pub prefix: Option<String>,
    pub path: String,
}

impl View for ChangedFilePath {
    type V = FileName;

    open spec fn view(&self) -> FileName {
        FileName { prefix: opt_view(self.prefix), path: self.path@ }
    }
}

impl ChangedFilePath {
    /// A path without a namespace prefix.
    pub fn new(path: &str) -> (r: ChangedFilePath)
        ensures
            r@ == (FileName { prefix: None, path: path@ }),
    {
        ChangedFilePath { prefix: None, path: path.to_owned() }
    }

    /// The same path under the given namespace prefix; any earlier prefix
    /// is overwritten.
    pub fn add_prefix(&self, prefix: &str) -> (r: ChangedFilePath)
        ensures
            r@ == (FileName { prefix: Some(prefix@), path: self@.path }),
    {
        ChangedFilePath { prefix: Some(prefix.to_owned()), path: self.path.clone() }
    }

    /// An equal copy.
    pub fn duplicate(&self) -> (r: ChangedFilePath)
        ensures
            r == *self,
    {
        let prefix: Option<String> = match &self.prefix {
            None => None,
            Some(p) => Some(p.clone()),
        };
        ChangedFilePath { prefix, path: self.path.clone() }
    }

    /// Whether two files are the same (prefix, path) pair.
    pub fn same_as(&self, other: &ChangedFilePath) -> (r: bool)
        ensures
            r == (self@ == other@),
    {
        let paths_match: bool = self.path == other.path;
        match (&self.prefix, &other.prefix) {
            (None, None) => {
                proof {
                    if paths_match {
                        assert(self@ =~= other@);
                    }
                }
                paths_match
            },
            (Some(a), Some(b)) => {
                let prefixes_match: bool = *a == *b;
                proof {
                    if prefixes_match && paths_match {
                        assert(self@ =~= other@);
                    }
                }
                prefixes_match && paths_match
            },
            _ => false,
        }
    }

    /// Three-way comparison under the file-name order.
    pub fn compare(&self, other: &ChangedFilePath) -> (o: TextOrder)
        ensures
            match o {
                TextOrder::Before => name_lt(self@, other@),
                TextOrder::Same => self@ == other@,
                TextOrder::After => name_lt(other@, self@),
            },
    {
        compare_name(&self.prefix, &self.path, &other.prefix, &other.path)
    }

    /// The name as shown to a reader: `path`, or `prefix@path`.
    pub fn display_name(&self) -> (r: String)
        ensures
            r@ == display_of(self@),
    {
        match &self.prefix {
            None => self.path.clone(),
            Some(p) => p.clone().concat("@").concat(self.path.as_str()),
        }
    }
}

} // verus!
