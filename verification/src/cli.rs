use vstd::prelude::*;

verus! {

/// The options of one search run, as the command line gave them.
pub struct Args {
    /// Root directory to search in.
    pub dir: String,
    /// File name to search for (wildcards `*` allowed).
    pub name: Option<String>,
    /// Fuzzy matching of the name.
    pub fuzzy: bool,
    /// Regular expression matched against file names.
    pub regex: Option<String>,
    /// Text searched for inside files.
    pub content: Option<String>,
    /// Treat `content` as a regular expression.
    pub content_regex: bool,
    /// Number of lines to preview for each result (0 = none).
    pub preview: usize,
    /// Accepted file extensions (empty = all).
    pub ext: Vec<String>,
    /// Only files.
    pub files_only: bool,
    /// Only directories.
    pub dirs_only: bool,
    /// Minimum size, e.g. `10KB`.
    pub size_min: Option<String>,
    /// Maximum size, e.g. `1GB`.
    pub size_max: Option<String>,
    /// Modified on or after this date (`YYYY-MM-DD`).
    pub after: Option<String>,
    /// Modified on or before this date (`YYYY-MM-DD`).
    pub before: Option<String>,
    /// Print a directory tree.
    pub tree: bool,
    /// Look for duplicate files.
    pub duplicates: bool,
    /// Editor that opens the first result.
    pub open: Option<String>,
    /// Maximum number of results shown (0 = all).
    pub limit: usize,
    /// Sort field: `name`, `size` or `date`.
    pub sort: String,
    /// Upgrade the tool.
    pub upgrade: bool,
}

} // verus!
