//! The preview box under a result: its first lines, each cut after 52
//! bytes.

use vstd::prelude::*;
use crate::content::{byte_len, chars_within, cut_ok, prefix_within, take_chars, lemma_byte_len_split, utf8_width};
use crate::text::{chars_of, string_of, push_char};

verus! {

/// How a preview line is shown: cut after 52 bytes with `…` appended when
/// longer.
pub open spec fn preview_line_spec(t: Seq<char>) -> Seq<char> {
    if byte_len(t) > 52 {
        t.take(chars_within(t, 52) as int).push('…')
    } else {
        t
    }
}

/// Whether the line can be shown (its cut falls between characters).
pub fn preview_cut_ok(text: &str) -> (r: bool)
    ensures
        r == cut_ok(text@, 52),
{
    let t = chars_of(text);
    let (k, used) = prefix_within(&t, 52);
    if k == t.len() {
        proof {
            assert(t@.take(k as int) == t@);
        }
        return true;
    }
    proof {
        lemma_byte_len_split(t@, k as int);
        assert(t@.skip(k as int)[0] == t@[k as int]);
        assert(byte_len(t@.skip(k as int)) >= utf8_width(t@[k as int]));
    }
    used == 52
}

/// One line of the preview.
pub fn preview_line(text: &str) -> (r: String)
    requires
        cut_ok(text@, 52),
    ensures
        r@ == preview_line_spec(text@),
{
    let t = chars_of(text);
    let (k, used) = prefix_within(&t, 52);
    if k == t.len() {
        proof {
            assert(t@.take(k as int) == t@);
        }
        return string_of(&t);
    }
    proof {
        lemma_byte_len_split(t@, k as int);
        assert(t@.skip(k as int)[0] == t@[k as int]);
        assert(byte_len(t@.skip(k as int)) >= utf8_width(t@[k as int]));
    }
    let mut s = string_of(&take_chars(&t, k));
    push_char(&mut s, '…');
    s
}

/// The preview of a file: its first `limit` lines (or all, when fewer),
/// each shown as `preview_line` shows it. An empty preview is shown as
/// an empty-file notice.
pub fn preview_lines(lines: &Vec<String>, limit: usize) -> (r: Vec<String>)
    requires
        forall|i: int| 0 <= i < lines@.len() && i < limit ==> cut_ok(#[trigger] lines@[i]@, 52),
    ensures
        r@.len() == if lines@.len() < limit { lines@.len() } else { limit as nat },
        forall|i: int| 0 <= i < r@.len() ==> #[trigger] r@[i]@ == preview_line_spec(lines@[i]@),
{
    let mut r: Vec<String> = Vec::new();
    let mut i: usize = 0;
    while i < lines.len() && i < limit
        invariant
            i <= lines@.len(),
            i <= limit,
            forall|j: int| 0 <= j < lines@.len() && j < limit ==> cut_ok(#[trigger] lines@[j]@, 52),
            r@.len() == i,
            forall|j: int| 0 <= j < i ==> #[trigger] r@[j]@ == preview_line_spec(lines@[j]@),
        decreases lines.len() - i,
    {
        r.push(preview_line(lines[i].as_str()));
        i = i + 1;
    }
    r
}

} // verus!
