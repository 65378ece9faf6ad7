//! Where the cache keeps its files.

use crate::text::joined;
use vstd::prelude::*;

verus! {

/// The cache directory.
#[derive(Debug)]
pub struct FileCache {
    pub path: String,
}

/// Hands out `std::path::MAIN_SEPARATOR_STR`, the separator of path
/// components on the machine at hand: a slash or a backslash.
#[verifier::external_body]
pub(crate) fn main_separator() -> (separator: String)
    ensures
        separator@ == seq!['/'] || separator@ == seq!['\\'],
{
    std::path::MAIN_SEPARATOR_STR.to_owned()
}

impl FileCache {
    /// The cache in directory `path`.
    pub fn new(path: String) -> (cache: FileCache)
        ensures
            cache.path == path,
    {
        FileCache { path }
    }

    /// The path of the cache file called `file_name`: the directory, the
    /// separator of the machine, the name.
    pub fn get_cache_file_path(&self, file_name: &String) -> (path: String)
        ensures
            path@ == self.path@ + seq!['/'] + file_name@ || path@ == self.path@ + seq!['\\']
                + file_name@,
    {
        let separator = main_separator();
        let directory = joined(&self.path, separator.as_str());
        joined(&directory, file_name.as_str())
    }
}

} // verus!
