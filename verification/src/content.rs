//! Searching inside a file: which lines match the content query, and the
//! text that reports them (`L<n>: <line>`, at most three, joined by ` | `).

use vstd::prelude::*;
use vstd::utf8::{encode_utf8, encode_scalar};
use crate::outside::{CompiledRegex, regex_is_match, regex_finds};
use crate::text::{
    chars_of, string_of, trim_end_chars, trim_end_spec, to_lowercase, lowercase_of, contains_chars,
    contains_seq, decimal, decimal_string, push_char,
};

verus! {


/// Bytes that `c` takes in UTF-8.
pub open spec fn utf8_width(c: char) -> nat {
    let u = c as u32;
    if u < 0x80 {
        1
    } else if u < 0x800 {
        2
    } else if u < 0x10000 {
        3
    } else {
        4
    }
}

/// Length in UTF-8 bytes (`str::len`).
pub open spec fn byte_len(s: Seq<char>) -> nat
    decreases s.len(),
{
    if s.len() == 0 {
        0
    } else {
        utf8_width(s[0]) + byte_len(s.drop_first())
    }
}

/// `byte_len` is the length of the UTF-8 encoding.
pub proof fn lemma_byte_len_is_utf8_len(s: Seq<char>)
    ensures
        byte_len(s) == encode_utf8(s).len(),
    decreases s.len(),
{
    if s.len() > 0 {
        lemma_byte_len_is_utf8_len(s.drop_first());
        let u = s[0] as u32;
        assert(encode_scalar(u).len() == utf8_width(s[0])) by {
            vstd::utf8::char_is_scalar(s[0]);
        }
    }
}

/// Number of leading characters that fit in `n` bytes.
pub open spec fn chars_within(s: Seq<char>, n: nat) -> nat
    decreases s.len(),
{
    if s.len() == 0 || utf8_width(s[0]) > n {
        0
    } else {
        1 + chars_within(s.drop_first(), (n - utf8_width(s[0])) as nat)
    }
}

/// Cutting `s` after `n` bytes falls between two characters.
pub open spec fn cut_ok(s: Seq<char>, n: nat) -> bool {
    byte_len(s) <= n || byte_len(s.take(chars_within(s, n) as int)) == n
}

/// How a matching line is shown: without trailing whitespace, and cut
/// after 80 bytes with `…` appended when longer.
pub open spec fn snippet_spec(line: Seq<char>) -> Seq<char> {
    let t = trim_end_spec(line);
    if byte_len(t) > 80 {
        t.take(chars_within(t, 80) as int).push('…')
    } else {
        t
    }
}

/// A line is shown without panicking: its cut, if any, falls between
/// characters.
pub open spec fn snippet_ok(line: Seq<char>) -> bool {
    cut_ok(trim_end_spec(line), 80)
}

/// Whether a line matches: the content regex when there is one, else the
/// lower-cased line contains the (lower-cased) query.
pub open spec fn line_matches(line: Seq<char>, query_lower: Seq<char>, re: Option<Seq<char>>) -> bool {
    match re {
        Some(p) => regex_finds(p, line),
        None => contains_seq(lowercase_of(line), query_lower),
    }
}

/// The report of a matching line with 1-based number `n`.
pub open spec fn entry_spec(n: nat, line: Seq<char>) -> Seq<char> {
    "L"@ + decimal(n) + ": "@ + snippet_spec(line)
}

/// The reports of the first three matching lines among `lines`.
pub open spec fn scan_entries(lines: Seq<Seq<char>>, query_lower: Seq<char>, re: Option<Seq<char>>) -> Seq<Seq<char>>
    decreases lines.len(),
{
    if lines.len() == 0 {
        Seq::empty()
    } else {
        let prev = scan_entries(lines.drop_last(), query_lower, re);
        if prev.len() >= 3 {
            prev
        } else if line_matches(lines.last(), query_lower, re) {
            prev.push(entry_spec(lines.len(), lines.last()))
        } else {
            prev
        }
    }
}

/// Texts joined with a separator.
pub open spec fn join_spec(parts: Seq<Seq<char>>, sep: Seq<char>) -> Seq<char>
    decreases parts.len(),
{
    if parts.len() == 0 {
        Seq::empty()
    } else if parts.len() == 1 {
        parts[0]
    } else {
        join_spec(parts.drop_last(), sep) + sep + parts.last()
    }
}

/// Whether the first block read from a file marks it as binary: a zero
/// byte among its first 512 bytes.
pub open spec fn binary_head(head: Seq<u8>) -> bool {
    exists|i: int| 0 <= i < head.len() && i < 512 && head[i] == 0
}

pub fn looks_binary(head: &[u8]) -> (r: bool)
    ensures
        r == binary_head(head@),
{
    let mut i: usize = 0;
    while i < head.len() && i < 512
        invariant
            i <= head@.len(),
            i <= 512,
            forall|j: int| 0 <= j < i ==> head@[j] != 0,
        decreases head.len() - i,
    {
        if head[i] == 0 {
            return true;
        }
        i = i + 1;
    }
    false
}

fn char_width(c: char) -> (r: usize)
    ensures
        r == utf8_width(c),
{
    let u = c as u32;
    if u < 0x80 {
        1
    } else if u < 0x800 {
        2
    } else if u < 0x10000 {
        3
    } else {
        4
    }
}

/// `chars_within(v[i..], n)` and `byte_len` of that prefix.
pub(crate) fn prefix_within(v: &Vec<char>, n: usize) -> (r: (usize, usize))
    ensures
        r.0 == chars_within(v@, n as nat),
        r.0 <= v.len(),
        r.1 == byte_len(v@.take(r.0 as int)),
        r.1 <= n,
        r.0 < v.len() ==> utf8_width(v@[r.0 as int]) > n - r.1,
{
    let mut k: usize = 0;
    let mut used: usize = 0;
    proof {
        assert(v@.skip(0) == v@);
        assert(v@.take(0).len() == 0);
    }
    while k < v.len() && char_width(v[k]) <= n - used
        invariant
            k <= v.len(),
            used <= n,
            used == byte_len(v@.take(k as int)),
            chars_within(v@, n as nat) == k + chars_within(v@.skip(k as int), (n - used) as nat),
        decreases v.len() - k,
    {
        let w = char_width(v[k]);
        proof {
            assert(v@.skip(k as int)[0] == v@[k as int]);
            assert(v@.skip(k as int).drop_first() =~= v@.skip(k + 1));
            lemma_byte_len_append(v@.take(k as int), v@[k as int]);
            assert(v@.take(k + 1) =~= v@.take(k as int).push(v@[k as int]));
        }
        used = used + w;
        k = k + 1;
    }
    (k, used)
}

/// Appending a character adds its width.
proof fn lemma_byte_len_append(s: Seq<char>, c: char)
    ensures
        byte_len(s.push(c)) == byte_len(s) + utf8_width(c),
    decreases s.len(),
{
    if s.len() == 0 {
        assert(s.push(c).drop_first() =~= Seq::<char>::empty());
        assert(s.push(c)[0] == c);
        assert(byte_len(Seq::<char>::empty()) == 0);
        assert(byte_len(s) == 0);
        assert(byte_len(s.push(c)) == utf8_width(c) + byte_len(s.push(c).drop_first()));
    } else {
        lemma_byte_len_append(s.drop_first(), c);
        assert(s.push(c).drop_first() =~= s.drop_first().push(c));
        assert(s.push(c)[0] == s[0]);
        assert(byte_len(s.push(c)) == utf8_width(s[0]) + byte_len(s.push(c).drop_first()));
    }
}

/// The characters of `v` before position `k`.
pub(crate) fn take_chars(v: &Vec<char>, k: usize) -> (r: Vec<char>)
    requires
        k <= v.len(),
    ensures
        r@ == v@.take(k as int),
{
    let mut r: Vec<char> = Vec::new();
    let mut i: usize = 0;
    while i < k
        invariant
            i <= k <= v.len(),
            r@ == v@.take(i as int),
        decreases k - i,
    {
        r.push(v[i]);
        assert(v@.take(i + 1) == v@.take(i as int).push(v@[i as int]));
        i = i + 1;
    }
    r
}

/// Whether the line's shown form is well defined (see `snippet_ok`).
pub fn snippet_cut_ok(line: &str) -> (r: bool)
    ensures
        r == snippet_ok(line@),
{
    let t = trim_end_chars(&chars_of(line));
    let (k, used) = prefix_within(&t, 80);
    if k == t.len() {
        proof {
            assert(t@.take(k as int) == t@);
        }
        return true;
    }
    proof {
        lemma_byte_len_split(t@, k as int);
        assert(t@.skip(k as int)[0] == t@[k as int]);
        assert(byte_len(t@.skip(k as int)) >= utf8_width(t@[k as int]));
        assert(byte_len(t@) > 80);
    }
    used == 80
}

/// Bytes of a text are those of a prefix plus those of the rest.
pub(crate) proof fn lemma_byte_len_split(s: Seq<char>, k: int)
    requires
        0 <= k <= s.len(),
    ensures
        byte_len(s) == byte_len(s.take(k)) + byte_len(s.skip(k)),
    decreases k,
{
    if k == 0 {
        assert(s.skip(0) == s);
        assert(s.take(0).len() == 0);
    } else {
        lemma_byte_len_split(s.drop_first(), k - 1);
        assert(s.drop_first().skip(k - 1) =~= s.skip(k));
        assert(s.take(k).drop_first() =~= s.drop_first().take(k - 1));
        assert(s.take(k)[0] == s[0]);
    }
}

/// The shown form of a matching line.
pub fn snippet(line: &str) -> (r: String)
    requires
        snippet_ok(line@),
    ensures
        r@ == snippet_spec(line@),
{
    let t = trim_end_chars(&chars_of(line));
    let (k, used) = prefix_within(&t, 80);
    if k == t.len() {
        proof {
            assert(t@.take(k as int) == t@);
        }
        return string_of(&t);
    }
    proof {
        lemma_byte_len_split(t@, k as int);
        assert(t@.skip(k as int)[0] == t@[k as int]);
        assert(byte_len(t@.skip(k as int)) >= utf8_width(t@[k as int]));
        assert(byte_len(t@) > 80);
    }
    let mut s = string_of(&take_chars(&t, k));
    push_char(&mut s, '…');
    s
}


pub open spec fn opt_regex_view(re: Option<&CompiledRegex>) -> Option<Seq<char>> {
    match re {
        Some(r) => Some(r@),
        None => None,
    }
}

pub open spec fn strings_view(v: Seq<String>) -> Seq<Seq<char>> {
    v.map_values(|s: String| s@)
}

/// Whether `line` matches the content query.
pub fn line_matches_exec(line: &str, query_lower: &str, re: Option<&CompiledRegex>) -> (r: bool)
    ensures
        r == line_matches(line@, query_lower@, opt_regex_view(re)),
{
    match re {
        Some(r) => regex_is_match(r, line),
        None => {
            let lower = to_lowercase(line);
            contains_chars(&chars_of(lower.as_str()), &chars_of(query_lower))
        },
    }
}

/// The state of a scan through the lines of one file.
pub struct ContentScan {
    /// Reports of the matching lines so far (at most three).
    pub matches: Vec<String>,
    /// Number of lines fed so far.
    pub lines_read: usize,
    /// The lines fed so far.
    pub lines: Ghost<Seq<Seq<char>>>,
}

impl ContentScan {
    /// The scan has seen `lines` and reports what they give.
    pub open spec fn consistent(self, query_lower: Seq<char>, re: Option<Seq<char>>) -> bool {
        &&& self.lines_read == self.lines@.len()
        &&& strings_view(self.matches@) == scan_entries(self.lines@, query_lower, re)
    }

    /// A scan that has seen no line.
    pub fn new() -> (r: ContentScan)
        ensures
            r.lines@ == Seq::<Seq<char>>::empty(),
            forall|q: Seq<char>, re: Option<Seq<char>>| #[trigger] r.consistent(q, re),
    {
        let r = ContentScan { matches: Vec::new(), lines_read: 0, lines: Ghost(Seq::empty()) };
        assert(strings_view(r.matches@) =~= Seq::<Seq<char>>::empty());
        r
    }

    /// The scan would panic on this line: it matches, is reported, and its
    /// cut after 80 bytes falls inside a character.
    pub open spec fn line_breaks(self, line: Seq<char>, query_lower: Seq<char>, re: Option<Seq<char>>) -> bool {
        self.matches@.len() < 3 && line_matches(line, query_lower, re) && !snippet_ok(line)
    }

    pub fn would_break(&self, line: &str, query_lower: &str, re: Option<&CompiledRegex>) -> (r: bool)
        ensures
            r == self.line_breaks(line@, query_lower@, opt_regex_view(re)),
    {
        self.matches.len() < 3 && line_matches_exec(line, query_lower, re) && !snippet_cut_ok(line)
    }

    /// Feeds the next line of the file. The answer tells whether more lines
    /// are wanted (fewer than three matches so far).
    pub fn feed_line(&mut self, line: &str, query_lower: &str, re: Option<&CompiledRegex>) -> (more: bool)
        requires
            old(self).consistent(query_lower@, opt_regex_view(re)),
            old(self).lines_read < usize::MAX,
            !old(self).line_breaks(line@, query_lower@, opt_regex_view(re)),
        ensures
            final(self).lines@ == old(self).lines@.push(line@),
            final(self).consistent(query_lower@, opt_regex_view(re)),
            more == (final(self).matches@.len() < 3),
    {
        let ghost lines = self.lines@.push(line@);
        self.lines_read = self.lines_read + 1;
        self.lines = Ghost(lines);
        proof {
            assert(lines.drop_last() =~= old(self).lines@);
            assert(lines.last() == line@);
        }
        if self.matches.len() < 3 && line_matches_exec(line, query_lower, re) {
            let mut e = String::new();
            e.append("L");
            let num = decimal_string(self.lines_read as u64);
            e.append(num.as_str());
            e.append(": ");
            let sn = snippet(line);
            e.append(sn.as_str());
            let ghost old_matches = self.matches@;
            self.matches.push(e);
            proof {
                assert(e@ =~= entry_spec(lines.len(), line@));
                assert(strings_view(self.matches@) =~= strings_view(old_matches).push(e@));
            }
        }
        self.matches.len() < 3
    }

    /// Feeds the next line unless showing it would cut a character in two;
    /// `None` (and the scan unchanged) in that case, else whether more
    /// lines are wanted.
    pub fn feed_checked(&mut self, line: &str, query_lower: &str, re: Option<&CompiledRegex>) -> (r: Option<bool>)
        requires
            old(self).consistent(query_lower@, opt_regex_view(re)),
            old(self).lines_read < usize::MAX,
        ensures
            match r {
                None => old(self).line_breaks(line@, query_lower@, opt_regex_view(re))
                    && *final(self) == *old(self),
                Some(more) => !old(self).line_breaks(line@, query_lower@, opt_regex_view(re))
                    && final(self).lines@ == old(self).lines@.push(line@)
                    && final(self).consistent(query_lower@, opt_regex_view(re))
                    && more == (final(self).matches@.len() < 3),
            },
    {
        if self.would_break(line, query_lower, re) {
            None
        } else {
            Some(self.feed_line(line, query_lower, re))
        }
    }

    /// The report of the scan: `None` when no line matched, else the line
    /// reports joined with ` | `.
    pub fn finish(&self) -> (r: Option<String>)
        ensures
            match r {
                None => self.matches@.len() == 0,
                Some(s) => self.matches@.len() > 0 && s@ == join_spec(strings_view(self.matches@), " | "@),
            },
    {
        if self.matches.len() == 0 {
            return None;
        }
        let mut out = String::new();
        let mut i: usize = 0;
        while i < self.matches.len()
            invariant
                i <= self.matches@.len(),
                i == 0 ==> out@.len() == 0,
                i > 0 ==> out@ == join_spec(strings_view(self.matches@).take(i as int), " | "@),
            decreases self.matches.len() - i,
        {
            let ghost parts = strings_view(self.matches@).take(i + 1);
            proof {
                assert(parts.drop_last() =~= strings_view(self.matches@).take(i as int));
                assert(parts.last() == self.matches@[i as int]@);
            }
            if i > 0 {
                out.append(" | ");
            }
            out.append(self.matches[i].as_str());
            proof {
                if i == 0 {
                    assert(parts.len() == 1);
                    assert(out@ =~= parts[0]);
                }
            }
            i = i + 1;
        }
        assert(strings_view(self.matches@).take(self.matches@.len() as int) =~= strings_view(self.matches@));
        Some(out)
    }
}

/// However many lines a file has, a content search reports at most three
/// of them.
pub proof fn lemma_entries_at_most_three(lines: Seq<Seq<char>>, q: Seq<char>, re: Option<Seq<char>>)
    ensures
        scan_entries(lines, q, re).len() <= 3,
    decreases lines.len(),
{
    if lines.len() > 0 {
        lemma_entries_at_most_three(lines.drop_last(), q, re);
    }
}

/// Once three lines are reported, the lines that follow change nothing:
/// the report of the whole file is that of the lines read so far.
pub proof fn lemma_entries_settled(lines: Seq<Seq<char>>, k: int, q: Seq<char>, re: Option<Seq<char>>)
    requires
        0 <= k <= lines.len(),
        scan_entries(lines.take(k), q, re).len() >= 3,
    ensures
        scan_entries(lines, q, re) == scan_entries(lines.take(k), q, re),
    decreases lines.len() - k,
{
    if k < lines.len() {
        let t = lines.take(k + 1);
        assert(t.drop_last() =~= lines.take(k));
        lemma_entries_settled(lines, k + 1, q, re);
    } else {
        assert(lines.take(k) =~= lines);
    }
}

/// What a content search reports for a file: nothing for a binary file;
/// otherwise the reports of its first three matching lines, joined.
pub open spec fn content_report(head: Seq<u8>, lines: Seq<Seq<char>>, q: Seq<char>, re: Option<Seq<char>>) -> Option<Seq<char>> {
    if binary_head(head) {
        None
    } else {
        let e = scan_entries(lines, q, re);
        if e.len() == 0 {
            None
        } else {
            Some(join_spec(e, " | "@))
        }
    }
}

/// The file's lines are shown without panicking: every line that the scan
/// reports has a clean cut.
pub open spec fn lines_ok(lines: Seq<Seq<char>>, q: Seq<char>, re: Option<Seq<char>>) -> bool {
    forall|i: int|
        0 <= i < lines.len() && scan_entries(lines.take(i), q, re).len() < 3 && line_matches(
            #[trigger] lines[i],
            q,
            re,
        ) ==> snippet_ok(lines[i])
}

/// Searches a file's content, given the first block read from it and its
/// lines (each with its line ending, as `read_line` gives them).
pub fn search_file_content_buffered(
    head: &[u8],
    lines: &Vec<String>,
    query_lower: &str,
    re: Option<&CompiledRegex>,
) -> (r: Option<String>)
    requires
        lines.len() < usize::MAX,
        !binary_head(head@) ==> lines_ok(strings_view(lines@), query_lower@, opt_regex_view(re)),
    ensures
        match r {
            Some(s) => content_report(head@, strings_view(lines@), query_lower@, opt_regex_view(re)) == Some(s@),
            None => content_report(head@, strings_view(lines@), query_lower@, opt_regex_view(re)) is None,
        },
{
    if looks_binary(head) {
        return None;
    }
    let ghost all = strings_view(lines@);
    let mut scan = ContentScan::new();
    assert(scan.consistent(query_lower@, opt_regex_view(re)));
    assert(all.take(0) =~= Seq::<Seq<char>>::empty());
    let mut i: usize = 0;
    while i < lines.len()
        invariant
            i <= lines.len() < usize::MAX,
            all == strings_view(lines@),
            lines_ok(all, query_lower@, opt_regex_view(re)),
            scan.consistent(query_lower@, opt_regex_view(re)),
            scan.lines@ == all.take(i as int),
            scan.matches@.len() <= 3,
            scan.matches@.len() >= 3 ==> scan_entries(all, query_lower@, opt_regex_view(re))
                == scan_entries(all.take(i as int), query_lower@, opt_regex_view(re)),
        ensures
            i == lines.len() || scan.matches@.len() >= 3,
        decreases lines.len() - i,
    {
        proof {
            assert(all[i as int] == lines@[i as int]@);
            assert(strings_view(scan.matches@).len() == scan.matches@.len());
        }
        let more = scan.feed_line(lines[i].as_str(), query_lower, re);
        proof {
            lemma_entries_at_most_three(scan.lines@, query_lower@, opt_regex_view(re));
            assert(all.take(i + 1) =~= all.take(i as int).push(all[i as int]));
        }
        i = i + 1;
        if !more {
            proof {
                assert(strings_view(scan.matches@).len() == scan.matches@.len());
                lemma_entries_settled(all, i as int, query_lower@, opt_regex_view(re));
            }
            break;
        }
    }
    proof {
        if i == lines.len() {
            assert(all.take(i as int) =~= all);
        }
        assert(strings_view(scan.matches@).len() == scan.matches@.len());
        assert(strings_view(scan.matches@) == scan_entries(all, query_lower@, opt_regex_view(re)));
    }
    scan.finish()
}

/// The `j`-th line is shown without panicking, if it is reported at all.
#[verifier::opaque]
spec fn fits_at(all: Seq<Seq<char>>, j: int, q: Seq<char>, rv: Option<Seq<char>>) -> bool {
    scan_entries(all.take(j), q, rv).len() < 3 && line_matches(all[j], q, rv) ==> snippet_ok(all[j])
}

/// Lines after the third reported one are never shown, so only the lines
/// before it need to fit.
proof fn lemma_lines_ok_once_settled(all: Seq<Seq<char>>, i: int, q: Seq<char>, rv: Option<Seq<char>>)
    requires
        0 <= i <= all.len(),
        scan_entries(all.take(i), q, rv).len() >= 3,
        forall|j: int| 0 <= j < i ==> #[trigger] fits_at(all, j, q, rv),
    ensures
        lines_ok(all, q, rv),
{
    reveal(fits_at);
    assert forall|j: int|
        0 <= j < all.len() && scan_entries(all.take(j), q, rv).len() < 3 && line_matches(
            #[trigger] all[j],
            q,
            rv,
        ) implies snippet_ok(all[j]) by {
        if j >= i {
            let t = all.take(j);
            assert(t.take(i) =~= all.take(i));
            lemma_entries_settled(t, i, q, rv);
        } else {
            assert(fits_at(all, j, q, rv));
        }
    }
}

/// All lines fit: the scan reads them all.
proof fn lemma_lines_ok_all_fit(all: Seq<Seq<char>>, q: Seq<char>, rv: Option<Seq<char>>)
    requires
        forall|j: int| 0 <= j < all.len() ==> #[trigger] fits_at(all, j, q, rv),
    ensures
        lines_ok(all, q, rv),
{
    reveal(fits_at);
    assert forall|j: int|
        0 <= j < all.len() && scan_entries(all.take(j), q, rv).len() < 3 && line_matches(
            #[trigger] all[j],
            q,
            rv,
        ) implies snippet_ok(all[j]) by {
        assert(fits_at(all, j, q, rv));
    }
}

/// Whether every line that a content search would report can be shown:
/// the exact test of `lines_ok`.
#[verifier::spinoff_prover]
pub fn lines_fit(lines: &Vec<String>, query_lower: &str, re: Option<&CompiledRegex>) -> (r: bool)
    requires
        lines.len() < usize::MAX,
    ensures
        r == lines_ok(strings_view(lines@), query_lower@, opt_regex_view(re)),
{
    let ghost all = strings_view(lines@);
    let ghost q = query_lower@;
    let ghost rv = opt_regex_view(re);
    let mut scan = ContentScan::new();
    assert(scan.consistent(q, rv));
    assert(all.take(0) =~= Seq::<Seq<char>>::empty());
    let mut i: usize = 0;
    while i < lines.len()
        invariant
            i <= lines.len() < usize::MAX,
            all == strings_view(lines@),
            q == query_lower@,
            rv == opt_regex_view(re),
            scan.consistent(q, rv),
            scan.lines@ == all.take(i as int),
            scan.matches@.len() < 3,
            forall|j: int| 0 <= j < i ==> #[trigger] fits_at(all, j, q, rv),
        decreases lines.len() - i,
    {
        proof {
            assert(all[i as int] == lines@[i as int]@);
            assert(strings_view(scan.matches@).len() == scan.matches@.len());
        }
        if scan.would_break(lines[i].as_str(), query_lower, re) {
            proof {
                assert(scan_entries(all.take(i as int), q, rv).len() < 3);
                assert(!snippet_ok(all[i as int]));
                assert(!lines_ok(all, q, rv));
            }
            return false;
        }
        proof {
            reveal(fits_at);
            assert(fits_at(all, i as int, q, rv));
        }
        let more = scan.feed_line(lines[i].as_str(), query_lower, re);
        proof {
            assert(all.take(i + 1) =~= all.take(i as int).push(all[i as int]));
            assert(strings_view(scan.matches@).len() == scan.matches@.len());
        }
        i = i + 1;
        if !more {
            proof {
                lemma_lines_ok_once_settled(all, i as int, q, rv);
            }
            return true;
        }
    }
    proof {
        lemma_lines_ok_all_fit(all, q, rv);
    }
    true
}

/// Searches a file's content like `search_file_content_buffered`, but
/// first checks that every reported line can be shown: `None` when one
/// would be cut inside a character, else the search's answer.
pub fn search_file_content_checked(
    head: &[u8],
    lines: &Vec<String>,
    query_lower: &str,
    re: Option<&CompiledRegex>,
) -> (r: Option<Option<String>>)
    requires
        lines.len() < usize::MAX,
    ensures
        match r {
            None => !binary_head(head@) && !lines_ok(strings_view(lines@), query_lower@, opt_regex_view(re)),
            Some(Some(s)) => content_report(head@, strings_view(lines@), query_lower@, opt_regex_view(re)) == Some(s@),
            Some(None) => content_report(head@, strings_view(lines@), query_lower@, opt_regex_view(re)) is None,
        },
{
    if looks_binary(head) {
        return Some(search_file_content_buffered(head, lines, query_lower, re));
    }
    if !lines_fit(lines, query_lower, re) {
        return None;
    }
    Some(search_file_content_buffered(head, lines, query_lower, re))
}

} // verus!
