//! Layout of the directory tree: the order of a directory's entries, which
//! are listed, the connectors and indentation, labels and sizes.

use vstd::prelude::*;
use crate::order::{copy_bytes, 
    RankKey, bytes_le, bytes_le_exec, lemma_bytes_total, lemma_bytes_trans, stable_order,
    comes_before,
};
use crate::outside::{path_extension, path_extension_of};
use crate::filters::{ext_in_list, ext_listed};
use crate::display::{format_size_tree, tree_size_text};
use crate::search::same_text;
use crate::text::chars_of;

verus! {


/// One entry of a directory, as read from the file system.
pub struct TreeEntry {
    /// Path of the entry.
    pub path: String,
    /// Its name, when it is valid text.
    pub name: Option<String>,
    /// Its name as bytes (directory listings are ordered by these).
    pub name_bytes: Vec<u8>,
    pub is_dir: bool,
    /// Size in bytes, when the metadata could be read.
    pub size: Option<u64>,
}

/// Directories first, then by name.
pub struct TreeKey {
    pub dir: bool,
    pub name: Vec<u8>,
}

impl RankKey for TreeKey {
    open spec fn rank_le(self, other: Self) -> bool {
        (self.dir && !other.dir) || (self.dir == other.dir && bytes_le(self.name@, other.name@))
    }

    proof fn lemma_rank_total(a: Self, b: Self) {
        lemma_bytes_total(a.name@, b.name@);
    }

    proof fn lemma_rank_trans(a: Self, b: Self, c: Self) {
        if a.dir == b.dir && b.dir == c.dir {
            lemma_bytes_trans(a.name@, b.name@, c.name@);
        }
    }

    fn rank_le_exec(&self, other: &Self) -> (r: bool) {
        (self.dir && !other.dir) || (self.dir == other.dir && bytes_le_exec(&self.name, &other.name))
    }
}

/// The tree goes at most this deep below its root.
pub fn tree_depth_ok(depth: usize) -> (r: bool)
    ensures
        r == (depth <= 10),
{
    depth <= 10
}

/// Hidden entries (name starting with `.`) are not listed.
pub open spec fn hidden(e: TreeEntry) -> bool {
    match e.name {
        Some(n) => n@.len() > 0 && n@[0] == '.',
        None => false,
    }
}

/// The listed entries, in listing order.
pub open spec fn visible_of(entries: Seq<TreeEntry>, order: Seq<usize>) -> Seq<usize>
    decreases order.len(),
{
    if order.len() == 0 {
        Seq::empty()
    } else {
        let rest = visible_of(entries, order.drop_last());
        if hidden(entries[order.last() as int]) {
            rest
        } else {
            rest.push(order.last())
        }
    }
}

/// What one line of the tree shows.
pub struct LineView {
    /// Position of the entry in the directory listing given.
    pub entry: usize,
    pub is_dir: bool,
    pub connector: Seq<char>,
    pub label: Seq<char>,
    pub size_text: Seq<char>,
    pub child_prefix: Seq<char>,
}

/// The name shown for an entry (`?` when it is not valid text).
pub open spec fn shown_name(e: TreeEntry) -> Seq<char> {
    match e.name {
        Some(n) => n@,
        None => "?"@,
    }
}

/// Icon of a file in the tree, by extension (exact, case-sensitive).
pub open spec fn tree_icon_spec(ext: Option<Seq<char>>) -> Seq<char> {
    match ext {
        Some(e) => {
            if e == "rs"@ {
                "🦀"@
            } else if e == "py"@ {
                "🐍"@
            } else if e == "js"@ || e == "ts"@ {
                "⚡"@
            } else if e == "md"@ {
                "📝"@
            } else if e == "toml"@ || e == "yaml"@ || e == "yml"@ || e == "json"@ {
                "⚙️ "@
            } else if e == "html"@ {
                "🌐"@
            } else if e == "css"@ {
                "🎨"@
            } else if e == "lock"@ {
                "🔒"@
            } else if e == "sh"@ {
                "🖥️ "@
            } else {
                "📄"@
            }
        },
        None => "📄"@,
    }
}

/// A file is listed when no extension is asked for, or when its extension
/// (empty when it has none) is one of those asked for, ignoring ASCII case.
pub open spec fn file_listed(e: TreeEntry, exts: Seq<String>) -> bool {
    exts.len() == 0 || ext_listed(
        exts,
        match path_extension_of(e.path@) {
            Some(x) => x,
            None => Seq::empty(),
        },
    )
}

/// The line for the `k`-th listed entry, if it is shown.
pub open spec fn line_for(
    entries: Seq<TreeEntry>,
    vis: Seq<usize>,
    k: int,
    prefix: Seq<char>,
    exts: Seq<String>,
) -> Option<LineView> {
    let e = entries[vis[k] as int];
    let last = k == vis.len() - 1;
    let connector = if last { "└── "@ } else { "├── "@ };
    let child_prefix = prefix + if last { "    "@ } else { "│   "@ };
    if e.is_dir {
        Some(LineView {
            entry: vis[k],
            is_dir: true,
            connector,
            label: "📁 "@ + shown_name(e) + "/"@,
            size_text: Seq::empty(),
            child_prefix,
        })
    } else if file_listed(e, exts) {
        Some(LineView {
            entry: vis[k],
            is_dir: false,
            connector,
            label: tree_icon_spec(path_extension_of(e.path@)) + " "@ + shown_name(e),
            size_text: match e.size {
                Some(s) => tree_size_text(s as nat),
                None => Seq::empty(),
            },
            child_prefix,
        })
    } else {
        None
    }
}

/// The lines for the first `n` listed entries.
pub open spec fn lines_upto(
    entries: Seq<TreeEntry>,
    vis: Seq<usize>,
    n: nat,
    prefix: Seq<char>,
    exts: Seq<String>,
) -> Seq<LineView>
    decreases n,
{
    if n == 0 {
        Seq::empty()
    } else {
        let prev = lines_upto(entries, vis, (n - 1) as nat, prefix, exts);
        match line_for(entries, vis, n - 1, prefix, exts) {
            Some(l) => prev.push(l),
            None => prev,
        }
    }
}


/// Entry `i` is listed before entry `j`: directories first, then by name
/// bytes, ties by position.
pub open spec fn entry_rank_le(a: TreeEntry, b: TreeEntry) -> bool {
    (a.is_dir && !b.is_dir) || (a.is_dir == b.is_dir && bytes_le(a.name_bytes@, b.name_bytes@))
}

pub open spec fn entry_before(entries: Seq<TreeEntry>, i: int, j: int) -> bool {
    entry_rank_le(entries[i], entries[j]) && (!entry_rank_le(entries[j], entries[i]) || i < j)
}

/// `order` lists every entry once, directories first, then by name.
pub open spec fn listing_order(entries: Seq<TreeEntry>, order: Seq<usize>) -> bool {
    &&& order.len() == entries.len()
    &&& forall|i: usize| i < entries.len() ==> #[trigger] order.contains(i)
    &&& forall|a: int| 0 <= a < order.len() ==> #[trigger] order[a] < entries.len()
    &&& forall|a: int, b: int|
        0 <= a < b < order.len() ==> entry_before(entries, #[trigger] order[a] as int, #[trigger] order[b] as int)
}

/// One line of the tree, ready to print.
pub struct TreeLine {
    /// Position of the entry in the directory listing given.
    pub entry: usize,
    pub is_dir: bool,
    pub connector: &'static str,
    pub label: String,
    pub size_text: String,
    /// Indentation for the lines of this directory's own entries.
    pub child_prefix: String,
}

pub open spec fn line_view(l: TreeLine) -> LineView {
    LineView {
        entry: l.entry,
        is_dir: l.is_dir,
        connector: l.connector@,
        label: l.label@,
        size_text: l.size_text@,
        child_prefix: l.child_prefix@,
    }
}

fn tree_icon_of(ext: &str) -> (r: &'static str)
    ensures
        r@ == tree_icon_spec(Some(ext@)),
{
    if same_text(ext, "rs") {
        "🦀"
    } else if same_text(ext, "py") {
        "🐍"
    } else if same_text(ext, "js") || same_text(ext, "ts") {
        "⚡"
    } else if same_text(ext, "md") {
        "📝"
    } else if same_text(ext, "toml") || same_text(ext, "yaml") || same_text(ext, "yml") || same_text(ext, "json") {
        "⚙️ "
    } else if same_text(ext, "html") {
        "🌐"
    } else if same_text(ext, "css") {
        "🎨"
    } else if same_text(ext, "lock") {
        "🔒"
    } else if same_text(ext, "sh") {
        "🖥️ "
    } else {
        "📄"
    }
}

/// The icon of a file in the tree.
pub fn get_icon(path: &str) -> (r: &'static str)
    ensures
        r@ == tree_icon_spec(path_extension_of(path@)),
{
    match path_extension(path) {
        Some(e) => tree_icon_of(e.as_str()),
        None => "📄",
    }
}

fn is_hidden(e: &TreeEntry) -> (r: bool)
    ensures
        r == hidden(*e),
{
    match &e.name {
        Some(n) => {
            let v = chars_of(n.as_str());
            v.len() > 0 && v[0] == '.'
        },
        None => false,
    }
}

fn name_text(e: &TreeEntry) -> (r: &str)
    ensures
        r@ == shown_name(*e),
{
    match &e.name {
        Some(n) => n.as_str(),
        None => "?",
    }
}


/// The line for the `k`-th listed entry, if it is shown.
fn make_line(entries: &Vec<TreeEntry>, vis: &Vec<usize>, k: usize, prefix: &str, exts: &[String]) -> (r: Option<TreeLine>)
    requires
        k < vis.len(),
        forall|a: int| 0 <= a < vis@.len() ==> #[trigger] vis@[a] < entries@.len(),
    ensures
        match r {
            Some(l) => line_for(entries@, vis@, k as int, prefix@, exts@) == Some(line_view(l)),
            None => line_for(entries@, vis@, k as int, prefix@, exts@) is None,
        },
{
    let e = &entries[vis[k]];
    let last = k == vis.len() - 1;
    let connector: &'static str = if last { "└── " } else { "├── " };
    let mut child_prefix = String::new();
    child_prefix.append(prefix);
    child_prefix.append(if last { "    " } else { "│   " });
    if e.is_dir {
        let mut label = String::new();
        label.append("📁 ");
        label.append(name_text(e));
        label.append("/");
        let l = TreeLine { entry: vis[k], is_dir: true, connector, label, size_text: String::new(), child_prefix };
        proof {
            assert(l.label@ =~= "📁 "@ + shown_name(*e) + "/"@);
            assert(l.child_prefix@ =~= prefix@ + if last { "    "@ } else { "│   "@ });
        }
        return Some(l);
    }
    let listed = if exts.len() == 0 {
        true
    } else {
        match path_extension(e.path.as_str()) {
            Some(x) => ext_in_list(exts, x.as_str()),
            None => {
                proof {
                    reveal_strlit("");
                }
                ext_in_list(exts, "")
            },
        }
    };
    if !listed {
        return None;
    }
    let mut label = String::new();
    label.append(get_icon(e.path.as_str()));
    label.append(" ");
    label.append(name_text(e));
    let size_text = match e.size {
        Some(s) => format_size_tree(s),
        None => String::new(),
    };
    let l = TreeLine { entry: vis[k], is_dir: false, connector, label, size_text, child_prefix };
    proof {
        assert(l.label@ =~= tree_icon_spec(path_extension_of(e.path@)) + " "@ + shown_name(*e));
        assert(l.child_prefix@ =~= prefix@ + if last { "    "@ } else { "│   "@ });
    }
    Some(l)
}

/// Lays out the lines for one directory of the tree. `entries` is the
/// directory's listing; `prefix` the indentation of its lines; `exts` the
/// extensions asked for. The lines follow the listing order and leave out
/// hidden entries and files of other extensions; the last listed entry
/// (hidden ones aside) gets the closing connector.
pub fn plan_listing(entries: &Vec<TreeEntry>, prefix: &str, exts: &[String]) -> (lines: Vec<TreeLine>)
    ensures
        exists|order: Seq<usize>|
            listing_order(entries@, order) && lines@.map_values(|l: TreeLine| line_view(l)) == lines_upto(
                entries@,
                visible_of(entries@, order),
                visible_of(entries@, order).len(),
                prefix@,
                exts@,
            ),
{
    let mut keys: Vec<TreeKey> = Vec::new();
    let mut i: usize = 0;
    while i < entries.len()
        invariant
            i <= entries@.len(),
            keys@.len() == i,
            forall|j: int| 0 <= j < i ==> #[trigger] keys@[j].dir == entries@[j].is_dir && keys@[j].name@ == entries@[j].name_bytes@,
        decreases entries.len() - i,
    {
        keys.push(TreeKey { dir: entries[i].is_dir, name: copy_bytes(entries[i].name_bytes.as_slice()) });
        i = i + 1;
    }
    let order = stable_order(&keys);
    proof {
        assert forall|a: int, b: int| 0 <= a < b < order@.len() implies entry_before(entries@, #[trigger] order@[a] as int, #[trigger] order@[b] as int) by {
            assert(comes_before(keys@, order@[a] as int, order@[b] as int));
        }
        assert(listing_order(entries@, order@));
    }
    let mut vis: Vec<usize> = Vec::new();
    let mut p: usize = 0;
    while p < order.len()
        invariant
            p <= order@.len(),
            listing_order(entries@, order@),
            order@.len() == entries@.len(),
            forall|a: int| 0 <= a < order@.len() ==> #[trigger] order@[a] < entries@.len(),
            vis@ == visible_of(entries@, order@.take(p as int)),
            forall|a: int| 0 <= a < vis@.len() ==> #[trigger] vis@[a] < entries@.len(),
        decreases order.len() - p,
    {
        proof {
            assert(order@.take(p + 1).drop_last() =~= order@.take(p as int));
            assert(order@.take(p + 1).last() == order@[p as int]);
        }
        if !is_hidden(&entries[order[p]]) {
            vis.push(order[p]);
        }
        p = p + 1;
    }
    assert(order@.take(order@.len() as int) =~= order@);
    let mut lines: Vec<TreeLine> = Vec::new();
    let mut k: usize = 0;
    while k < vis.len()
        invariant
            k <= vis@.len(),
            listing_order(entries@, order@),
            vis@ == visible_of(entries@, order@),
            forall|a: int| 0 <= a < vis@.len() ==> #[trigger] vis@[a] < entries@.len(),
            lines@.map_values(|l: TreeLine| line_view(l)) == lines_upto(entries@, vis@, k as nat, prefix@, exts@),
        decreases vis.len() - k,
    {
        let ghost before = lines@;
        match make_line(entries, &vis, k, prefix, exts) {
            Some(l) => {
                lines.push(l);
                proof {
                    assert(lines@.map_values(|l: TreeLine| line_view(l)) =~= before.map_values(|l: TreeLine| line_view(l)).push(line_view(l)));
                }
            },
            None => {},
        }
        k = k + 1;
    }
    assert(listing_order(entries@, order@));
    lines
}


proof fn lemma_visible_not_hidden(entries: Seq<TreeEntry>, order: Seq<usize>, k: int)
    requires
        0 <= k < visible_of(entries, order).len(),
    ensures
        !hidden(entries[visible_of(entries, order)[k] as int]),
    decreases order.len(),
{
    let rest = visible_of(entries, order.drop_last());
    if k < rest.len() {
        lemma_visible_not_hidden(entries, order.drop_last(), k);
    }
}

proof fn lemma_lines_from_listed(
    entries: Seq<TreeEntry>,
    vis: Seq<usize>,
    n: nat,
    prefix: Seq<char>,
    exts: Seq<String>,
    m: int,
)
    requires
        n <= vis.len(),
        0 <= m < lines_upto(entries, vis, n, prefix, exts).len(),
    ensures
        exists|k: int| 0 <= k < n && vis[k] == lines_upto(entries, vis, n, prefix, exts)[m].entry,
    decreases n,
{
    let prev = lines_upto(entries, vis, (n - 1) as nat, prefix, exts);
    if m < prev.len() {
        lemma_lines_from_listed(entries, vis, (n - 1) as nat, prefix, exts, m);
    } else {
        assert(vis[n - 1] == lines_upto(entries, vis, n, prefix, exts)[m].entry);
    }
}

/// Hidden entries never appear in the tree.
pub proof fn lemma_tree_skips_hidden(
    entries: Seq<TreeEntry>,
    order: Seq<usize>,
    prefix: Seq<char>,
    exts: Seq<String>,
    m: int,
)
    requires
        0 <= m < lines_upto(entries, visible_of(entries, order), visible_of(entries, order).len(), prefix, exts).len(),
    ensures
        !hidden(entries[lines_upto(entries, visible_of(entries, order), visible_of(entries, order).len(), prefix, exts)[m].entry as int]),
{
    let vis = visible_of(entries, order);
    lemma_lines_from_listed(entries, vis, vis.len(), prefix, exts, m);
    let k = choose|k: int| 0 <= k < vis.len() && vis[k] == lines_upto(entries, vis, vis.len(), prefix, exts)[m].entry;
    lemma_visible_not_hidden(entries, order, k);
}

/// The line drawn for a listed entry starts its own children one level
/// deeper: its child prefix is the listing's prefix followed by four
/// characters, `"    "` after the closing connector `└── ` and `"│   "`
/// after `├── `.
proof fn lemma_line_shape(
    entries: Seq<TreeEntry>,
    vis: Seq<usize>,
    n: nat,
    prefix: Seq<char>,
    exts: Seq<String>,
    m: int,
)
    requires
        n <= vis.len(),
        0 <= m < lines_upto(entries, vis, n, prefix, exts).len(),
    ensures
        ({
            let l = lines_upto(entries, vis, n, prefix, exts)[m];
            &&& l.child_prefix.len() == prefix.len() + 4
            &&& l.child_prefix.take(prefix.len() as int) == prefix
            &&& (l.connector == "└── "@ ==> l.child_prefix.skip(prefix.len() as int) == "    "@)
            &&& (l.connector == "├── "@ ==> l.child_prefix.skip(prefix.len() as int) == "│   "@)
            &&& (l.connector == "└── "@ || l.connector == "├── "@)
        }),
    decreases n,
{
    reveal_strlit("    ");
    reveal_strlit("│   ");
    reveal_strlit("└── ");
    reveal_strlit("├── ");
    let prev = lines_upto(entries, vis, (n - 1) as nat, prefix, exts);
    if m < prev.len() {
        lemma_line_shape(entries, vis, (n - 1) as nat, prefix, exts, m);
    } else {
        let l = lines_upto(entries, vis, n, prefix, exts)[m];
        let last = n - 1 == vis.len() - 1;
        let tail = if last { "    "@ } else { "│   "@ };
        assert(l.child_prefix == prefix + tail);
        assert((prefix + tail).take(prefix.len() as int) =~= prefix);
        assert((prefix + tail).skip(prefix.len() as int) =~= tail);
        assert("└── "@ != "├── "@) by {
            assert("└── "@[0] != "├── "@[0]);
        }
    }
}

/// Every line of a directory's listing indents its own entries exactly
/// one level deeper than the listing: its child prefix is the listing's
/// prefix followed by `"    "` (last entry, `└── `) or `"│   "` (`├── `).
pub proof fn lemma_tree_child_prefix(
    entries: Seq<TreeEntry>,
    vis: Seq<usize>,
    prefix: Seq<char>,
    exts: Seq<String>,
    m: int,
)
    requires
        0 <= m < lines_upto(entries, vis, vis.len(), prefix, exts).len(),
    ensures
        ({
            let l = lines_upto(entries, vis, vis.len(), prefix, exts)[m];
            &&& l.child_prefix.len() == prefix.len() + 4
            &&& l.child_prefix.take(prefix.len() as int) == prefix
            &&& (l.connector == "└── "@ ==> l.child_prefix.skip(prefix.len() as int) == "    "@)
            &&& (l.connector == "├── "@ ==> l.child_prefix.skip(prefix.len() as int) == "│   "@)
            &&& (l.connector == "└── "@ || l.connector == "├── "@)
        }),
{
    lemma_line_shape(entries, vis, vis.len(), prefix, exts, m);
}

} // verus!
