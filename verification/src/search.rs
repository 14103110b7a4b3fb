//! The decisions of a search run: which directories are skipped, which
//! entries are kept (filters, name match, content scan), how results are
//! ordered, and how many are shown.

use vstd::prelude::*;
use crate::cli::Args;
use crate::filters::{
    parse_size, parse_size_spec, passes_ext_filter, ext_filter_spec, passes_size_filter,
    passes_date_filter, date_filter_spec, opt_view,
};
use crate::glob::{glob_match, glob_spec, wild};
use crate::outside::{
    CompiledRegex, compile_regex, regex_compiles, regex_is_match, regex_finds, fuzzy_score,
    skim_score,
};
use crate::text::{chars_of, to_lowercase, lowercase_of, contains_seq};
use vstd::utf8::encode_utf8;
use crate::order::{copy_bytes, RankKey, bytes_le, bytes_le_exec, parts_le, parts_le_exec, parts_view,
    lemma_bytes_total, lemma_bytes_trans, lemma_parts_total, lemma_parts_trans, stable_order};

verus! {

/// Whether two texts are equal.
pub fn same_text(a: &str, b: &str) -> (r: bool)
    ensures
        r == (a@ == b@),
{
    let av = chars_of(a);
    let bv = chars_of(b);
    if av.len() != bv.len() {
        return false;
    }
    let mut i: usize = 0;
    while i < av.len()
        invariant
            av@ == a@,
            bv@ == b@,
            av.len() == bv.len(),
            i <= av.len(),
            forall|j: int| 0 <= j < i ==> av@[j] == bv@[j],
        decreases av.len() - i,
    {
        if av[i] != bv[i] {
            return false;
        }
        i = i + 1;
    }
    assert(av@ =~= bv@);
    true
}

/// Directory names that the search never descends into.
pub open spec fn skipped_dir_name(name: Seq<char>) -> bool {
    ||| name == ".git"@
    ||| name == "node_modules"@
    ||| name == "target"@
    ||| name == ".svn"@
    ||| name == ".hg"@
    ||| name == "__pycache__"@
    ||| name == ".next"@
    ||| name == "dist"@
    ||| name == "build"@
    ||| name == ".cache"@
    ||| name == "vendor"@
    ||| name == ".idea"@
    ||| name == ".vscode"@
}

/// Whether the walk should leave out this entry (and everything below it):
/// only directories with one of the skipped names are left out.
pub fn skips_entry(is_dir: bool, name: &str) -> (r: bool)
    ensures
        r == (is_dir && skipped_dir_name(name@)),
{
    is_dir && (same_text(name, ".git") || same_text(name, "node_modules") || same_text(name, "target")
        || same_text(name, ".svn") || same_text(name, ".hg") || same_text(name, "__pycache__")
        || same_text(name, ".next") || same_text(name, "dist") || same_text(name, "build")
        || same_text(name, ".cache") || same_text(name, "vendor") || same_text(name, ".idea")
        || same_text(name, ".vscode"))
}

pub open spec fn opt_string_view(s: Option<String>) -> Option<Seq<char>> {
    match s {
        Some(t) => Some(t@),
        None => None,
    }
}

pub open spec fn regex_view(r: Option<CompiledRegex>) -> Option<Seq<char>> {
    match r {
        Some(c) => Some(c@),
        None => None,
    }
}

/// A copy of an optional text.
pub fn copy_opt(s: &Option<String>) -> (r: Option<String>)
    ensures
        opt_string_view(r) == opt_string_view(*s),
{
    match s {
        Some(t) => Some(t.clone()),
        None => None,
    }
}

/// A copy of a list of texts.
pub fn copy_list(v: &Vec<String>) -> (r: Vec<String>)
    ensures
        r@.len() == v@.len(),
        forall|i: int| 0 <= i < v@.len() ==> #[trigger] r@[i]@ == v@[i]@,
{
    let mut r: Vec<String> = Vec::new();
    let mut i: usize = 0;
    while i < v.len()
        invariant
            i <= v.len(),
            r@.len() == i,
            forall|j: int| 0 <= j < i ==> #[trigger] r@[j]@ == v@[j]@,
        decreases v.len() - i,
    {
        r.push(v[i].clone());
        i = i + 1;
    }
    r
}

/// The settings of one search, derived from the command line.
pub struct SearchConfig {
    pub name: Option<String>,
    pub fuzzy: bool,
    pub name_regex: Option<CompiledRegex>,
    pub content_query_lower: Option<String>,
    pub content_regex: Option<CompiledRegex>,
    pub ext: Vec<String>,
    pub files_only: bool,
    pub dirs_only: bool,
    pub size_min: Option<u64>,
    pub size_max: Option<u64>,
    pub after: Option<String>,
    pub before: Option<String>,
}

pub open spec fn parsed_bound(s: Option<String>) -> Option<u64> {
    match s {
        Some(t) => parse_size_spec(t@),
        None => None,
    }
}

/// What the search settings are for `args`: size bounds that do not parse
/// are dropped; a name regex that does not compile is dropped (and its
/// error reported); the content query is lower-cased; a content regex is
/// used only when asked for and when it compiles.
pub open spec fn config_from(args: Args, c: SearchConfig) -> bool {
    &&& opt_string_view(c.name) == opt_string_view(args.name)
    &&& c.fuzzy == args.fuzzy
    &&& regex_view(c.name_regex) == match args.regex {
        Some(r) => if regex_compiles(r@) { Some(r@) } else { None },
        None => None,
    }
    &&& opt_string_view(c.content_query_lower) == match args.content {
        Some(q) => Some(lowercase_of(q@)),
        None => None,
    }
    &&& regex_view(c.content_regex) == match args.content {
        Some(q) => if args.content_regex && regex_compiles(q@) { Some(q@) } else { None },
        None => None,
    }
    &&& c.ext@.len() == args.ext@.len()
    &&& forall|i: int| 0 <= i < args.ext@.len() ==> #[trigger] c.ext@[i]@ == args.ext@[i]@
    &&& c.files_only == args.files_only
    &&& c.dirs_only == args.dirs_only
    &&& c.size_min == parsed_bound(args.size_min)
    &&& c.size_max == parsed_bound(args.size_max)
    &&& opt_string_view(c.after) == opt_string_view(args.after)
    &&& opt_string_view(c.before) == opt_string_view(args.before)
}

fn parse_bound(s: &Option<String>) -> (r: Option<u64>)
    ensures
        r == parsed_bound(*s),
{
    match s {
        Some(t) => parse_size(t.as_str()),
        None => None,
    }
}

/// Builds the search settings. The second part of the result is the
/// compile error of the name regex, when there is one.
pub fn build_search_config(args: &Args) -> (r: (SearchConfig, Option<regex::Error>))
    ensures
        config_from(*args, r.0),
        r.1 is Some <==> (args.regex is Some && !regex_compiles(args.regex.unwrap()@)),
{
    let size_min = parse_bound(&args.size_min);
    let size_max = parse_bound(&args.size_max);
    let mut regex_error: Option<regex::Error> = None;
    let name_regex = match &args.regex {
        Some(r) => match compile_regex(r.as_str()) {
            Ok(re) => Some(re),
            Err(e) => {
                regex_error = Some(e);
                None
            },
        },
        None => None,
    };
    let content_regex = if args.content_regex {
        match &args.content {
            Some(q) => match compile_regex(q.as_str()) {
                Ok(re) => Some(re),
                Err(_) => None,
            },
            None => None,
        }
    } else {
        None
    };
    let content_query_lower = match &args.content {
        Some(q) => Some(to_lowercase(q.as_str())),
        None => None,
    };
    let config = SearchConfig {
        name: copy_opt(&args.name),
        fuzzy: args.fuzzy,
        name_regex,
        content_query_lower,
        content_regex,
        ext: copy_list(&args.ext),
        files_only: args.files_only,
        dirs_only: args.dirs_only,
        size_min,
        size_max,
        after: copy_opt(&args.after),
        before: copy_opt(&args.before),
    };
    (config, regex_error)
}


/// What the walk found out about one entry.
pub struct EntryInfo {
    /// The entry's path, as text.
    pub path: String,
    /// Its last path component, as text (empty when there is none).
    pub file_name: String,
    pub is_dir: bool,
    /// Size in bytes; `None` when the entry's metadata could not be read.
    pub size: Option<u64>,
    /// Local calendar date of the last modification, when readable.
    pub modified_date: Option<(i32, u32, u32)>,
    /// Last modification as `YYYY-MM-DD HH:MM` local time, when readable.
    pub modified_text: Option<String>,
    /// The path's components, as bytes, in the order `Path` compares them.
    pub path_key: Vec<Vec<u8>>,
}

/// The verdict on one entry before its content is looked at.
pub enum Screening {
    /// Left out.
    Reject,
    /// Kept, with this fuzzy score.
    Keep(i64),
    /// Kept only if its content matches the content query.
    ScanContent(i64),
}

/// Files larger than this are not searched for content.
pub open spec fn content_size_limit() -> u64 {
    52428800
}

/// Whether the name test passes, and the fuzzy score it gives.
pub open spec fn name_outcome(c: SearchConfig, file_name: Seq<char>) -> (bool, i64) {
    match c.name {
        Some(q) => if c.fuzzy {
            match skim_score(file_name, q@) {
                Some(sc) => (true, sc),
                None => (false, 0),
            }
        } else {
            match regex_view(c.name_regex) {
                Some(p) => (regex_finds(p, file_name), 0),
                None => (glob_spec(file_name, q@), 0),
            }
        },
        None => match regex_view(c.name_regex) {
            Some(p) => (regex_finds(p, file_name), 0),
            None => (true, 0),
        },
    }
}

/// The verdict on an entry: the type filter, then readable metadata, the
/// extension, size and date filters, then the name test; a kept file
/// must still have its content searched when there is a content query
/// (files over the size limit are left out instead).
pub open spec fn screening_spec(c: SearchConfig, e: EntryInfo) -> Screening {
    if c.files_only && e.is_dir {
        Screening::Reject
    } else if c.dirs_only && !e.is_dir {
        Screening::Reject
    } else {
        match e.size {
            None => Screening::Reject,
            Some(sz) => {
                if !ext_filter_spec(e.path@, c.ext@) {
                    Screening::Reject
                } else if !((match c.size_min {
                    Some(mn) => sz >= mn,
                    None => true,
                }) && (match c.size_max {
                    Some(mx) => sz <= mx,
                    None => true,
                })) {
                    Screening::Reject
                } else if !date_filter_spec(
                    e.modified_date,
                    opt_string_view(c.after),
                    opt_string_view(c.before),
                ) {
                    Screening::Reject
                } else {
                    let (ok, sc) = name_outcome(c, e.file_name@);
                    if !ok {
                        Screening::Reject
                    } else if c.content_query_lower is Some && !e.is_dir {
                        if sz > content_size_limit() {
                            Screening::Reject
                        } else {
                            Screening::ScanContent(sc)
                        }
                    } else {
                        Screening::Keep(sc)
                    }
                }
            },
        }
    }
}

fn as_opt_str(s: &Option<String>) -> (r: Option<&str>)
    ensures
        opt_view(r) == opt_string_view(*s),
{
    match s {
        Some(t) => Some(t.as_str()),
        None => None,
    }
}

fn name_test(c: &SearchConfig, file_name: &str) -> (r: (bool, i64))
    ensures
        r == name_outcome(*c, file_name@),
{
    match &c.name {
        Some(q) => {
            if c.fuzzy {
                match fuzzy_score(file_name, q.as_str()) {
                    Some(sc) => (true, sc),
                    None => (false, 0),
                }
            } else {
                match &c.name_regex {
                    Some(re) => (regex_is_match(re, file_name), 0),
                    None => (glob_match(file_name, q.as_str()), 0),
                }
            }
        },
        None => match &c.name_regex {
            Some(re) => (regex_is_match(re, file_name), 0),
            None => (true, 0),
        },
    }
}

/// Decides what happens to one entry of the walk.
pub fn screen_entry(c: &SearchConfig, e: &EntryInfo) -> (r: Screening)
    ensures
        r == screening_spec(*c, *e),
{
    if c.files_only && e.is_dir {
        return Screening::Reject;
    }
    if c.dirs_only && !e.is_dir {
        return Screening::Reject;
    }
    let sz = match e.size {
        Some(sz) => sz,
        None => return Screening::Reject,
    };
    if !passes_ext_filter(e.path.as_str(), c.ext.as_slice()) {
        return Screening::Reject;
    }
    if !passes_size_filter(sz, c.size_min, c.size_max) {
        return Screening::Reject;
    }
    if !passes_date_filter(e.modified_date, as_opt_str(&c.after), as_opt_str(&c.before)) {
        return Screening::Reject;
    }
    let (ok, sc) = name_test(c, e.file_name.as_str());
    if !ok {
        return Screening::Reject;
    }
    if c.content_query_lower.is_some() && !e.is_dir {
        if sz > 52428800 {
            Screening::Reject
        } else {
            Screening::ScanContent(sc)
        }
    } else {
        Screening::Keep(sc)
    }
}

/// An entry that the search keeps (or sends on to the content scan)
/// passes the type filter, the extension filter, the size bounds and the
/// date bounds, and its name passes the name test.
pub proof fn lemma_kept_entry_passes_filters(c: SearchConfig, e: EntryInfo)
    requires
        !(screening_spec(c, e) is Reject),
    ensures
        !(c.files_only && e.is_dir),
        !(c.dirs_only && !e.is_dir),
        e.size is Some,
        ext_filter_spec(e.path@, c.ext@),
        (match c.size_min {
            Some(mn) => e.size.unwrap() >= mn,
            None => true,
        }) && (match c.size_max {
            Some(mx) => e.size.unwrap() <= mx,
            None => true,
        }),
        date_filter_spec(e.modified_date, opt_string_view(c.after), opt_string_view(c.before)),
        name_outcome(c, e.file_name@).0,
{
}

/// Under a plain name query (no fuzzy matching, no name regex), an entry
/// that the screening keeps has a name that matches the query: a query
/// without `*` (after lower-casing) occurs in the lower-cased name, and a
/// query with `*` matches the whole lower-cased name, `*` standing for any
/// run of characters. With a fuzzy query the name has a fuzzy score, and
/// with a name regex the regex finds a match in the name.
pub proof fn lemma_kept_entry_matches_name(c: SearchConfig, e: EntryInfo)
    requires
        !(screening_spec(c, e) is Reject),
    ensures
        c.name is Some && !c.fuzzy && c.name_regex is None ==> glob_spec(e.file_name@, c.name.unwrap()@),
        c.name is Some && !c.fuzzy && c.name_regex is None && !lowercase_of(c.name.unwrap()@).contains('*')
            ==> contains_seq(lowercase_of(e.file_name@), lowercase_of(c.name.unwrap()@)),
        c.name is Some && !c.fuzzy && c.name_regex is None && lowercase_of(c.name.unwrap()@).contains('*')
            ==> wild(lowercase_of(e.file_name@), lowercase_of(c.name.unwrap()@)),
        c.name is Some && c.fuzzy ==> skim_score(e.file_name@, c.name.unwrap()@) is Some,
        c.name_regex is Some && !(c.name is Some && c.fuzzy) ==> regex_finds(c.name_regex.unwrap()@, e.file_name@),
{
    lemma_kept_entry_passes_filters(c, e);
}

/// One search result.
pub struct SearchResult {
    pub path: String,
    pub size: u64,
    pub modified: Option<String>,
    pub match_info: Option<String>,
    pub fuzzy_score: i64,
    pub path_key: Vec<Vec<u8>>,
}

/// The result for a kept entry.
pub fn make_result(e: EntryInfo, match_info: Option<String>, fuzzy_score: i64) -> (r: SearchResult)
    requires
        e.size is Some,
    ensures
        r.path@ == e.path@,
        r.size == e.size.unwrap(),
        opt_string_view(r.modified) == opt_string_view(e.modified_text),
        opt_string_view(r.match_info) == opt_string_view(match_info),
        r.fuzzy_score == fuzzy_score,
        r.path_key@ == e.path_key@,
{
    SearchResult {
        path: e.path,
        size: e.size.unwrap(),
        modified: e.modified_text,
        match_info,
        fuzzy_score,
        path_key: e.path_key,
    }
}


/// How results are ordered.
pub enum SortMode {
    /// Largest first.
    Size,
    /// Most recently modified first (by the modification text).
    Date,
    /// Highest fuzzy score first.
    Score,
    /// By path.
    Path,
}

/// `--sort size` and `--sort date` pick those orders; anything else orders
/// by fuzzy score in a fuzzy search and by path otherwise.
pub open spec fn sort_mode_spec(sort: Seq<char>, fuzzy: bool) -> SortMode {
    if sort == "size"@ {
        SortMode::Size
    } else if sort == "date"@ {
        SortMode::Date
    } else if fuzzy {
        SortMode::Score
    } else {
        SortMode::Path
    }
}

pub fn sort_mode(sort: &str, fuzzy: bool) -> (r: SortMode)
    ensures
        r == sort_mode_spec(sort@, fuzzy),
{
    if same_text(sort, "size") {
        SortMode::Size
    } else if same_text(sort, "date") {
        SortMode::Date
    } else if fuzzy {
        SortMode::Score
    } else {
        SortMode::Path
    }
}

/// Order on optional byte strings: nothing first, then byte order.
pub open spec fn opt_bytes_le(a: Option<Seq<u8>>, b: Option<Seq<u8>>) -> bool {
    match (a, b) {
        (None, _) => true,
        (Some(_), None) => false,
        (Some(x), Some(y)) => bytes_le(x, y),
    }
}

/// The UTF-8 bytes of an optional text (texts compare by these bytes).
pub open spec fn opt_text_bytes(m: Option<String>) -> Option<Seq<u8>> {
    match m {
        Some(s) => Some(encode_utf8(s@)),
        None => None,
    }
}

/// `a` may come before `b` in the given order (ties both ways).
pub open spec fn result_rank_le(mode: SortMode, a: SearchResult, b: SearchResult) -> bool {
    match mode {
        SortMode::Size => a.size >= b.size,
        SortMode::Date => opt_bytes_le(opt_text_bytes(b.modified), opt_text_bytes(a.modified)),
        SortMode::Score => a.fuzzy_score >= b.fuzzy_score,
        SortMode::Path => parts_le(parts_view(a.path_key@), parts_view(b.path_key@)),
    }
}

/// Result `i` is listed before result `j`: it ranks strictly lower, or
/// they tie and `i` came first.
pub open spec fn result_before(mode: SortMode, rs: Seq<SearchResult>, i: int, j: int) -> bool {
    result_rank_le(mode, rs[i], rs[j]) && (!result_rank_le(mode, rs[j], rs[i]) || i < j)
}

/// The sort key of one result.
pub enum ResultKey {
    Size(u64),
    Date(Option<Vec<u8>>),
    Score(i64),
    Path(Vec<Vec<u8>>),
}

pub open spec fn opt_bytes_view(o: Option<Vec<u8>>) -> Option<Seq<u8>> {
    match o {
        Some(v) => Some(v@),
        None => None,
    }
}

pub open spec fn key_tag(k: ResultKey) -> int {
    match k {
        ResultKey::Size(_) => 0,
        ResultKey::Date(_) => 1,
        ResultKey::Score(_) => 2,
        ResultKey::Path(_) => 3,
    }
}

impl RankKey for ResultKey {
    open spec fn rank_le(self, other: Self) -> bool {
        match (self, other) {
            (ResultKey::Size(a), ResultKey::Size(b)) => a >= b,
            (ResultKey::Date(a), ResultKey::Date(b)) => opt_bytes_le(opt_bytes_view(b), opt_bytes_view(a)),
            (ResultKey::Score(a), ResultKey::Score(b)) => a >= b,
            (ResultKey::Path(a), ResultKey::Path(b)) => parts_le(parts_view(a@), parts_view(b@)),
            _ => key_tag(self) <= key_tag(other),
        }
    }

    proof fn lemma_rank_total(a: Self, b: Self) {
        match (a, b) {
            (ResultKey::Date(x), ResultKey::Date(y)) => {
                if x is Some && y is Some {
                    lemma_bytes_total(x.unwrap()@, y.unwrap()@);
                }
            },
            (ResultKey::Path(x), ResultKey::Path(y)) => {
                lemma_parts_total(parts_view(x@), parts_view(y@));
            },
            _ => {},
        }
    }

    proof fn lemma_rank_trans(a: Self, b: Self, c: Self) {
        match (a, b, c) {
            (ResultKey::Date(x), ResultKey::Date(y), ResultKey::Date(z)) => {
                if x is Some && y is Some && z is Some {
                    lemma_bytes_trans(z.unwrap()@, y.unwrap()@, x.unwrap()@);
                }
            },
            (ResultKey::Path(x), ResultKey::Path(y), ResultKey::Path(z)) => {
                lemma_parts_trans(parts_view(x@), parts_view(y@), parts_view(z@));
            },
            _ => {},
        }
    }

    fn rank_le_exec(&self, other: &Self) -> (r: bool) {
        match (self, other) {
            (ResultKey::Size(a), ResultKey::Size(b)) => *a >= *b,
            (ResultKey::Date(a), ResultKey::Date(b)) => match (b, a) {
                (None, _) => true,
                (Some(_), None) => false,
                (Some(x), Some(y)) => bytes_le_exec(x, y),
            },
            (ResultKey::Score(a), ResultKey::Score(b)) => *a >= *b,
            (ResultKey::Path(a), ResultKey::Path(b)) => parts_le_exec(a, b),
            (ResultKey::Size(_), _) => true,
            (ResultKey::Date(_), ResultKey::Size(_)) => false,
            (ResultKey::Date(_), _) => true,
            (ResultKey::Score(_), ResultKey::Path(_)) => true,
            (ResultKey::Score(_), _) => false,
            (ResultKey::Path(_), _) => false,
        }
    }
}

/// `k` is the key of result `r` in the given order.
pub open spec fn key_of(k: ResultKey, mode: SortMode, r: SearchResult) -> bool {
    match (mode, k) {
        (SortMode::Size, ResultKey::Size(x)) => x == r.size,
        (SortMode::Date, ResultKey::Date(x)) => opt_bytes_view(x) == opt_text_bytes(r.modified),
        (SortMode::Score, ResultKey::Score(x)) => x == r.fuzzy_score,
        (SortMode::Path, ResultKey::Path(x)) => parts_view(x@) == parts_view(r.path_key@),
        _ => false,
    }
}


fn copy_parts(v: &Vec<Vec<u8>>) -> (r: Vec<Vec<u8>>)
    ensures
        parts_view(r@) == parts_view(v@),
{
    let mut r: Vec<Vec<u8>> = Vec::new();
    let mut i: usize = 0;
    while i < v.len()
        invariant
            i <= v.len(),
            r@.len() == i,
            forall|j: int| 0 <= j < i ==> #[trigger] r@[j]@ == v@[j]@,
        decreases v.len() - i,
    {
        r.push(copy_bytes(v[i].as_slice()));
        i = i + 1;
    }
    assert(parts_view(r@) =~= parts_view(v@));
    r
}

fn key_for(mode: &SortMode, r: &SearchResult) -> (k: ResultKey)
    ensures
        key_of(k, *mode, *r),
{
    match mode {
        SortMode::Size => ResultKey::Size(r.size),
        SortMode::Date => match &r.modified {
            Some(m) => ResultKey::Date(Some(copy_bytes(m.as_str().as_bytes()))),
            None => ResultKey::Date(None),
        },
        SortMode::Score => ResultKey::Score(r.fuzzy_score),
        SortMode::Path => ResultKey::Path(copy_parts(&r.path_key)),
    }
}

/// The order in which results are listed: every result once, by the
/// chosen order, ties in the order they were found.
pub fn result_order(results: &Vec<SearchResult>, sort: &str, fuzzy: bool) -> (order: Vec<usize>)
    ensures
        order@.len() == results@.len(),
        forall|i: usize| i < results@.len() ==> #[trigger] order@.contains(i),
        forall|a: int| 0 <= a < order@.len() ==> #[trigger] order@[a] < results@.len(),
        forall|a: int, b: int|
            0 <= a < b < order@.len() ==> result_before(
                sort_mode_spec(sort@, fuzzy),
                results@,
                #[trigger] order@[a] as int,
                #[trigger] order@[b] as int,
            ),
        sort@ == "size"@ ==> forall|a: int, b: int|
            0 <= a < b < order@.len() ==> #[trigger] results@[order@[a] as int].size >= #[trigger] results@[order@[b] as int].size,
        sort@ == "date"@ ==> forall|a: int, b: int|
            0 <= a < b < order@.len() ==> opt_bytes_le(
                opt_text_bytes(#[trigger] results@[order@[b] as int].modified),
                opt_text_bytes(#[trigger] results@[order@[a] as int].modified),
            ),
        sort@ != "size"@ && sort@ != "date"@ && fuzzy ==> forall|a: int, b: int|
            0 <= a < b < order@.len() ==> #[trigger] results@[order@[a] as int].fuzzy_score
                >= #[trigger] results@[order@[b] as int].fuzzy_score,
{
    let mode = sort_mode(sort, fuzzy);
    let mut keys: Vec<ResultKey> = Vec::new();
    let mut i: usize = 0;
    while i < results.len()
        invariant
            i <= results.len(),
            keys@.len() == i,
            forall|j: int| 0 <= j < i ==> key_of(#[trigger] keys@[j], mode, results@[j]),
        decreases results.len() - i,
    {
        keys.push(key_for(&mode, &results[i]));
        i = i + 1;
    }
    let order = stable_order(&keys);
    proof {
        assert forall|a: int, b: int| 0 <= a < b < order@.len() implies result_before(
            sort_mode_spec(sort@, fuzzy),
            results@,
            #[trigger] order@[a] as int,
            #[trigger] order@[b] as int,
        ) by {
            let x = order@[a] as int;
            let y = order@[b] as int;
            assert(key_of(keys@[x], mode, results@[x]));
            assert(key_of(keys@[y], mode, results@[y]));
        }
        reveal_strlit("size");
        reveal_strlit("date");
        assert("size"@[0] != "date"@[0]);
        assert forall|a: int, b: int| 0 <= a < b < order@.len() implies result_rank_le(
            sort_mode_spec(sort@, fuzzy),
            results@[order@[a] as int],
            results@[order@[b] as int],
        ) by {
            assert(result_before(sort_mode_spec(sort@, fuzzy), results@, order@[a] as int, order@[b] as int));
        }
    }
    order
}

/// How many results are shown: all of them, or at most `limit` when it
/// is positive.
pub fn shown_count(total: usize, limit: usize) -> (r: usize)
    ensures
        r == if limit > 0 && limit < total { limit } else { total },
{
    if limit > 0 && limit < total {
        limit
    } else {
        total
    }
}


/// Number of worker threads: what the machine offers (4 when unknown),
/// at most 8.
pub fn thread_count(available: Option<usize>) -> (r: usize)
    ensures
        r == match available {
            Some(n) => if n < 8 { n } else { 8 },
            None => 4,
        },
{
    let n = match available {
        Some(n) => n,
        None => 4,
    };
    if n < 8 {
        n
    } else {
        8
    }
}

/// Entries per worker: an equal share, at least one.
pub open spec fn chunk_size(total: nat, workers: nat) -> nat {
    if total / workers >= 1 {
        total / workers
    } else {
        1
    }
}

/// The entries `[start, end)` that worker `idx` of `workers` examines, or
/// `None` when it gets none; the last worker takes what is left.
pub open spec fn chunk_spec(idx: nat, workers: nat, total: nat) -> Option<(nat, nat)> {
    let size = chunk_size(total, workers);
    let start = idx * size;
    if start >= total {
        None
    } else if idx == workers - 1 {
        Some((start, total))
    } else {
        Some((start, if start + size < total { start + size } else { total }))
    }
}

/// The part of the entries that worker `idx` examines.
pub fn chunk_bounds(idx: usize, workers: usize, total: usize) -> (r: Option<(usize, usize)>)
    requires
        0 < workers,
        idx < workers,
    ensures
        match r {
            Some((a, b)) => chunk_spec(idx as nat, workers as nat, total as nat) == Some((a as nat, b as nat)),
            None => chunk_spec(idx as nat, workers as nat, total as nat) is None,
        },
{
    let share = total / workers;
    let size = if share >= 1 { share } else { 1 };
    proof {
        if share >= 1 {
            assert(idx * share <= total) by (nonlinear_arith)
                requires idx < workers, share == total / workers, workers > 0, share >= 1;
        }
    }
    if share < 1 && idx >= total {
        return None;
    }
    let start = idx * size;
    if start >= total {
        return None;
    }
    if idx == workers - 1 {
        Some((start, total))
    } else if size < total - start {
        Some((start, start + size))
    } else {
        Some((start, total))
    }
}


/// `x` lies in the part `c`.
pub open spec fn in_part(c: Option<(nat, nat)>, x: nat) -> bool {
    match c {
        Some(r) => r.0 <= x < r.1,
        None => false,
    }
}

/// Some worker's part holds entry `x`.
pub open spec fn covered(workers: nat, total: nat, x: nat) -> bool {
    exists|idx: nat| idx < workers && in_part(#[trigger] chunk_spec(idx, workers, total), x)
}

proof fn lemma_mul_le(a: nat, b: nat, c: nat)
    requires
        a <= b,
    ensures
        a * c <= b * c,
{
    assert(a * c <= b * c) by (nonlinear_arith)
        requires a <= b;
}

/// The workers split the entries: every entry falls in the part of some
/// worker, parts come in worker order without overlap, and once a worker
/// gets nothing so do all later ones (so stopping there loses nothing).
pub proof fn lemma_chunks_partition(workers: nat, total: nat)
    requires
        workers > 0,
    ensures
        forall|x: nat| x < total ==> #[trigger] covered(workers, total, x),
        forall|i: nat, j: nat|
            i < j < workers && (#[trigger] chunk_spec(i, workers, total)) is Some && (#[trigger] chunk_spec(j, workers, total)) is Some
                ==> chunk_spec(i, workers, total).unwrap().1 <= chunk_spec(j, workers, total).unwrap().0,
        forall|i: nat, j: nat|
            i < j < workers && (#[trigger] chunk_spec(i, workers, total)) is None ==> (#[trigger] chunk_spec(j, workers, total)) is None,
{
    let q = total / workers;
    let size = chunk_size(total, workers);
    assert(size >= 1);
    assert(workers * q <= total) by (nonlinear_arith)
        requires q == total / workers, workers > 0;
    assert forall|x: nat| x < total implies #[trigger] covered(workers, total, x) by {
        let last = (workers - 1) as nat;
        if x >= last * size {
            // the last worker
            assert(last * size <= x);
            assert(in_part(chunk_spec(last, workers, total), x));
        } else {
            let idx = x / size;
            assert(idx * size <= x) by (nonlinear_arith)
                requires idx == x / size, size >= 1;
            assert(x < idx * size + size) by (nonlinear_arith)
                requires idx == x / size, size >= 1;
            assert(idx < last) by {
                if idx >= last {
                    lemma_mul_le(last, idx, size);
                }
            }
            assert(in_part(chunk_spec(idx, workers, total), x));
        }
    }
    assert forall|i: nat, j: nat|
        i < j < workers && (#[trigger] chunk_spec(i, workers, total)) is Some && (#[trigger] chunk_spec(j, workers, total)) is Some
            implies chunk_spec(i, workers, total).unwrap().1 <= chunk_spec(j, workers, total).unwrap().0 by {
        lemma_mul_le(i + 1, j, size);
        assert((i + 1) * size == i * size + size) by (nonlinear_arith);
    }
    assert forall|i: nat, j: nat|
        i < j < workers && (#[trigger] chunk_spec(i, workers, total)) is None implies (#[trigger] chunk_spec(j, workers, total)) is None by {
        lemma_mul_le(i, j, size);
    }
}

/// The entries that worker `idx` examines.
pub open spec fn chunk_part<A>(entries: Seq<A>, workers: nat, idx: nat) -> Seq<A> {
    match chunk_spec(idx, workers, entries.len()) {
        Some(r) => entries.subrange(r.0 as int, r.1 as int),
        None => Seq::empty(),
    }
}

/// The parts of the first `n` workers, one after the other.
pub open spec fn chunks_upto<A>(entries: Seq<A>, workers: nat, n: nat) -> Seq<A>
    decreases n,
{
    if n == 0 {
        Seq::empty()
    } else {
        chunks_upto(entries, workers, (n - 1) as nat) + chunk_part(entries, workers, (n - 1) as nat)
    }
}

/// What the first `n` workers keep, one after the other, each keeping the
/// entries of its part that satisfy `keep`.
pub open spec fn kept_upto<A>(entries: Seq<A>, workers: nat, n: nat, keep: spec_fn(A) -> bool) -> Seq<A>
    decreases n,
{
    if n == 0 {
        Seq::empty()
    } else {
        kept_upto(entries, workers, (n - 1) as nat, keep) + chunk_part(entries, workers, (n - 1) as nat).filter(keep)
    }
}

#[verifier::spinoff_prover]
proof fn lemma_chunks_prefix<A>(entries: Seq<A>, workers: nat, n: nat)
    requires
        workers > 0,
        n <= workers,
    ensures
        chunks_upto(entries, workers, n) == entries.take(
            if n == workers {
                entries.len() as int
            } else if n * chunk_size(entries.len(), workers) < entries.len() {
                (n * chunk_size(entries.len(), workers)) as int
            } else {
                entries.len() as int
            },
        ),
    decreases n,
{
    let total = entries.len();
    let size = chunk_size(total, workers);
    if n == 0 {
        assert(entries.take(0) =~= Seq::<A>::empty());
    } else {
        let m = (n - 1) as nat;
        lemma_chunks_prefix(entries, workers, m);
        let start = m * size;
        assert(n * size == start + size) by (nonlinear_arith)
            requires n == m + 1, start == m * size;
        if start >= total {
            assert(chunk_part(entries, workers, m) =~= Seq::<A>::empty());
            assert(n * size >= total);
            assert(chunks_upto(entries, workers, n) =~= chunks_upto(entries, workers, m));
        } else {
            let end: int = if m == workers - 1 {
                total as int
            } else if start + size < total {
                (start + size) as int
            } else {
                total as int
            };
            assert(chunk_part(entries, workers, m) == entries.subrange(start as int, end));
            assert(entries.take(start as int) + entries.subrange(start as int, end) =~= entries.take(end));
        }
    }
}

/// Splitting the entries among the workers loses and repeats nothing:
/// the workers' parts, one after the other, are all the entries; and
/// when each worker keeps the entries of its part that satisfy `keep`,
/// what they keep, one after the other, is what keeping over all the
/// entries at once gives.
pub proof fn lemma_chunks_rebuild<A>(entries: Seq<A>, workers: nat, keep: spec_fn(A) -> bool)
    requires
        workers > 0,
    ensures
        chunks_upto(entries, workers, workers) == entries,
        kept_upto(entries, workers, workers, keep) == entries.filter(keep),
{
    lemma_chunks_prefix(entries, workers, workers);
    assert(entries.take(entries.len() as int) =~= entries);
    lemma_kept_is_filter(entries, workers, workers, keep);
}

proof fn lemma_kept_is_filter<A>(entries: Seq<A>, workers: nat, n: nat, keep: spec_fn(A) -> bool)
    ensures
        kept_upto(entries, workers, n, keep) == chunks_upto(entries, workers, n).filter(keep),
    decreases n,
{
    if n == 0 {
        reveal(Seq::filter);
        assert(Seq::<A>::empty().filter(keep) =~= Seq::<A>::empty());
    } else {
        let m = (n - 1) as nat;
        lemma_kept_is_filter(entries, workers, m, keep);
        Seq::filter_distributes_over_add(chunks_upto(entries, workers, m), chunk_part(entries, workers, m), keep);
    }
}

/// An entry is kept by the screening (possibly pending its content).
pub open spec fn passes_screening(c: SearchConfig) -> spec_fn(EntryInfo) -> bool {
    |e: EntryInfo| !(screening_spec(c, e) is Reject)
}

/// Screening each worker's part and putting the survivors one after the
/// other gives the survivors of screening all entries at once.
pub proof fn lemma_chunked_screening(c: SearchConfig, entries: Seq<EntryInfo>, workers: nat)
    requires
        workers > 0,
    ensures
        kept_upto(entries, workers, workers, passes_screening(c)) == entries.filter(passes_screening(c)),
{
    lemma_chunks_rebuild(entries, workers, passes_screening(c));
}

} // verus!
