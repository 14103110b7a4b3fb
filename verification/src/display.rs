//! What the result lines show: the icon of a file, human-readable sizes,
//! the fuzzy score bar and plural endings.

use vstd::prelude::*;
use crate::outside::{path_extension, path_extension_of};
use crate::search::same_text;
use crate::text::{decimal, decimal_string, digit_char, digit_of, push_char};
use vstd::arithmetic::div_mod::{lemma_div_denominator, lemma_div_is_ordered};

verus! {


/// Icon of a search result, chosen by the path's extension (exact,
/// case-sensitive); a directory without extension gets a folder.
pub open spec fn result_icon_spec(ext: Option<Seq<char>>, is_dir: bool) -> Seq<char> {
    match ext {
        Some(e) => {
            if e == "rs"@ {
                "🦀"@
            } else if e == "py"@ {
                "🐍"@
            } else if e == "js"@ || e == "ts"@ {
                "⚡"@
            } else if e == "html"@ || e == "htm"@ {
                "🌐"@
            } else if e == "css"@ || e == "scss"@ {
                "🎨"@
            } else if e == "json"@ || e == "toml"@ || e == "yaml"@ || e == "yml"@ {
                "⚙️ "@
            } else if e == "md"@ || e == "txt"@ {
                "📝"@
            } else if e == "pdf"@ {
                "📄"@
            } else if e == "png"@ || e == "jpg"@ || e == "jpeg"@ || e == "gif"@ || e == "svg"@ {
                "🖼️ "@
            } else if e == "mp3"@ || e == "wav"@ || e == "flac"@ {
                "🎵"@
            } else if e == "mp4"@ || e == "mkv"@ || e == "avi"@ {
                "🎬"@
            } else if e == "zip"@ || e == "tar"@ || e == "gz"@ || e == "rar"@ {
                "📦"@
            } else if e == "sh"@ || e == "bash"@ {
                "🖥️ "@
            } else if e == "sql"@ {
                "🗄️ "@
            } else if e == "lock"@ {
                "🔒"@
            } else if e == "log"@ {
                "📋"@
            } else if e == "exe"@ || e == "bin"@ {
                "⚙️ "@
            } else {
                "📄"@
            }
        },
        None => if is_dir {
            "📁"@
        } else {
            "📄"@
        },
    }
}

fn result_icon_of(ext: &str) -> (r: &'static str)
    ensures
        r@ == result_icon_spec(Some(ext@), false),
{
    if same_text(ext, "rs") {
        "🦀"
    } else if same_text(ext, "py") {
        "🐍"
    } else if same_text(ext, "js") || same_text(ext, "ts") {
        "⚡"
    } else if same_text(ext, "html") || same_text(ext, "htm") {
        "🌐"
    } else if same_text(ext, "css") || same_text(ext, "scss") {
        "🎨"
    } else if same_text(ext, "json") || same_text(ext, "toml") || same_text(ext, "yaml") || same_text(ext, "yml") {
        "⚙️ "
    } else if same_text(ext, "md") || same_text(ext, "txt") {
        "📝"
    } else if same_text(ext, "pdf") {
        "📄"
    } else if same_text(ext, "png") || same_text(ext, "jpg") || same_text(ext, "jpeg") || same_text(ext, "gif")
        || same_text(ext, "svg") {
        "🖼️ "
    } else if same_text(ext, "mp3") || same_text(ext, "wav") || same_text(ext, "flac") {
        "🎵"
    } else if same_text(ext, "mp4") || same_text(ext, "mkv") || same_text(ext, "avi") {
        "🎬"
    } else if same_text(ext, "zip") || same_text(ext, "tar") || same_text(ext, "gz") || same_text(ext, "rar") {
        "📦"
    } else if same_text(ext, "sh") || same_text(ext, "bash") {
        "🖥️ "
    } else if same_text(ext, "sql") {
        "🗄️ "
    } else if same_text(ext, "lock") {
        "🔒"
    } else if same_text(ext, "log") {
        "📋"
    } else if same_text(ext, "exe") || same_text(ext, "bin") {
        "⚙️ "
    } else {
        "📄"
    }
}

/// The icon shown before a search result.
pub fn get_file_icon(path: &str, is_dir: bool) -> (r: &'static str)
    ensures
        r@ == result_icon_spec(path_extension_of(path@), is_dir),
{
    match path_extension(path) {
        Some(e) => result_icon_of(e.as_str()),
        None => if is_dir {
            "📁"
        } else {
            "📄"
        },
    }
}

/// `""` for one, `"s"` otherwise.
pub fn plural_suffix(n: usize) -> (r: &'static str)
    ensures
        r@ == if n == 1 { ""@ } else { "s"@ },
{
    if n == 1 {
        ""
    } else {
        "s"
    }
}

/// Number of filled cells (out of ten) in the bar that shows a fuzzy score:
/// the score clamped to 0..=100, in tens, rounded down.
pub fn fuzzy_bar_len(score: i64) -> (r: usize)
    ensures
        r <= 10,
        r as int == (if score < 0 { 0 } else if score > 100 { 100 } else { score as int }) / 10,
{
    let clamped: i64 = if score < 0 {
        0
    } else if score > 100 {
        100
    } else {
        score
    };
    (clamped / 10) as usize
}


/// `n / d` rounded to the nearest integer, ties to even.
pub open spec fn round_half_even(n: nat, d: nat) -> nat {
    let q = n / d;
    let r = n % d;
    if 2 * r > d || (2 * r == d && q % 2 == 1) {
        q + 1
    } else {
        q
    }
}

pub open spec fn pow2(k: nat) -> nat
    decreases k,
{
    if k == 0 {
        1
    } else {
        2 * pow2((k - 1) as nat)
    }
}

/// How many times `b` is halved to fall below 2^53.
pub open spec fn f64_shift(b: nat) -> nat
    decreases b,
{
    if b < 0x20_0000_0000_0000 {
        0
    } else {
        1 + f64_shift(b / 2)
    }
}

/// The value of `b as f64`: `b` rounded to 53 significant bits, ties to
/// even.
pub open spec fn as_f64(b: nat) -> nat {
    let s = f64_shift(b);
    round_half_even(b, pow2(s)) * pow2(s)
}

/// `num / d` written with one decimal, as `{:.1}` writes the exact value.
pub open spec fn fixed1(num: nat, d: nat) -> Seq<char> {
    let t = round_half_even(10 * num, d);
    decimal(t / 10) + "."@ + seq![digit_char(t % 10)]
}

/// `num / d` written with two decimals, as `{:.2}` writes the exact value.
pub open spec fn fixed2(num: nat, d: nat) -> Seq<char> {
    let t = round_half_even(100 * num, d);
    decimal(t / 100) + "."@ + seq![digit_char((t / 10) % 10), digit_char(t % 10)]
}

/// A size as shown in search results: bytes below 1 KiB, then KB and MB
/// with one decimal, then GB with two.
pub open spec fn size_text(b: nat) -> Seq<char> {
    if b < 1024 {
        decimal(b) + "B"@
    } else if b < 1048576 {
        fixed1(b, 1024) + "KB"@
    } else if b < 1073741824 {
        fixed1(b, 1048576) + "MB"@
    } else {
        fixed2(as_f64(b), 1073741824) + "GB"@
    }
}

fn round_half_even_exec(n: u128, d: u128) -> (r: u128)
    requires
        0 < d <= 0x1_0000_0000_0000_0000,
    ensures
        r == round_half_even(n as nat, d as nat),
        r <= n / d + 1,
{
    let q = n / d;
    let r = n % d;
    if r * 2 > d || (r * 2 == d && q % 2 == 1) {
        assert(d >= 2 ==> q <= n / 2) by {
            if d >= 2 {
                lemma_div_is_ordered_by_denominator(n as int, d as int);
            }
        }
        q + 1
    } else {
        q
    }
}

proof fn lemma_div_is_ordered_by_denominator(n: int, d: int)
    requires
        0 <= n,
        2 <= d,
    ensures
        n / d <= n / 2,
{
    vstd::arithmetic::div_mod::lemma_div_is_ordered_by_denominator(n, 2, d);
}

proof fn lemma_pow2_positive(k: nat)
    ensures
        pow2(k) >= 1,
    decreases k,
{
    if k > 0 {
        lemma_pow2_positive((k - 1) as nat);
    }
}

/// `b as f64`, as an integer.
fn f64_value(b: u64) -> (r: u128)
    ensures
        r == as_f64(b as nat),
        r <= 0x2_0000_0000_0000_0000,
{
    let mut x: u64 = b;
    let mut p: u128 = 1;
    let ghost mut s: nat = 0;
    proof {
        assert(b as nat / 1 == b);
    }
    while x >= 0x20_0000_0000_0000
        invariant
            p == pow2(s),
            x as nat == (b as nat) / pow2(s),
            f64_shift(b as nat) == s + f64_shift(x as nat),
            p * x <= b,
            p == 1 || p <= b,
            p >= 1,
        decreases x,
    {
        proof {
            lemma_pow2_positive(s);
            lemma_div_denominator(b as int, pow2(s) as int, 2);
            assert(pow2(s + 1) == 2 * pow2(s));
            assert(pow2(s) * 2 == 2 * pow2(s));
            assert((p * 2) * (x / 2) <= b) by (nonlinear_arith)
                requires p * x <= b, x >= 0;
            assert(p * 2 <= b) by (nonlinear_arith)
                requires (p * 2) * (x / 2) <= b, x / 2 >= 1, p >= 1;
        }
        x = x / 2;
        p = p * 2;
        proof {
            s = s + 1;
        }
    }
    let t = round_half_even_exec(b as u128, p);
    proof {
        assert(f64_shift(x as nat) == 0);
        assert((b as u128) / p == x);
        assert(t * p <= b + p) by (nonlinear_arith)
            requires t <= x + 1, p * x <= b, p >= 1;
    }
    t * p
}


proof fn lemma_quotient_bound(n: int, nmax: int, d: int, dmin: int)
    requires
        0 <= n <= nmax,
        0 < dmin <= d,
    ensures
        n / d <= nmax / dmin,
{
    lemma_div_is_ordered(n, nmax, d);
    vstd::arithmetic::div_mod::lemma_div_is_ordered_by_denominator(nmax, dmin, d);
}

fn fixed1_text(num: u128, d: u128) -> (r: String)
    requires
        num <= 0x4_0000_0000_0000_0000,
        1024 <= d <= 0x1_0000_0000_0000_0000,
    ensures
        r@ == fixed1(num as nat, d as nat),
{
    let t = round_half_even_exec(10 * num, d);
    proof {
        lemma_quotient_bound((10 * num) as int, 10 * 0x4_0000_0000_0000_0000int, d as int, 1024);
    }
    let mut s = decimal_string((t / 10) as u64);
    s.append(".");
    push_char(&mut s, digit_of((t % 10) as u64));
    s
}

fn fixed2_text(num: u128, d: u128) -> (r: String)
    requires
        num <= 0x4_0000_0000_0000_0000,
        1024 <= d <= 0x1_0000_0000_0000_0000,
    ensures
        r@ == fixed2(num as nat, d as nat),
{
    let t = round_half_even_exec(100 * num, d);
    proof {
        lemma_quotient_bound((100 * num) as int, 100 * 0x4_0000_0000_0000_0000int, d as int, 1024);
    }
    let mut s = decimal_string((t / 100) as u64);
    s.append(".");
    push_char(&mut s, digit_of(((t / 10) % 10) as u64));
    push_char(&mut s, digit_of((t % 10) as u64));
    s
}

/// Formats a byte count for the result list and the duplicate report.
pub fn format_size(bytes: u64) -> (r: String)
    ensures
        r@ == size_text(bytes as nat),
{
    if bytes < 1024 {
        let mut s = decimal_string(bytes);
        s.append("B");
        s
    } else if bytes < 1048576 {
        let mut s = fixed1_text(bytes as u128, 1024);
        s.append("KB");
        s
    } else if bytes < 1073741824 {
        let mut s = fixed1_text(bytes as u128, 1048576);
        s.append("MB");
        s
    } else {
        let mut s = fixed2_text(f64_value(bytes), 1073741824);
        s.append("GB");
        s
    }
}

/// A size as shown in the directory tree: bytes below 1 KiB, KB below
/// 1 MiB, MB above, with one decimal.
pub open spec fn tree_size_text(b: nat) -> Seq<char> {
    if b < 1024 {
        decimal(b) + "B"@
    } else if b < 1048576 {
        fixed1(b, 1024) + "KB"@
    } else {
        fixed1(as_f64(b), 1048576) + "MB"@
    }
}

/// Formats a byte count for the directory tree.
pub fn format_size_tree(bytes: u64) -> (r: String)
    ensures
        r@ == tree_size_text(bytes as nat),
{
    if bytes < 1024 {
        let mut s = decimal_string(bytes);
        s.append("B");
        s
    } else if bytes < 1048576 {
        let mut s = fixed1_text(bytes as u128, 1024);
        s.append("KB");
        s
    } else {
        let mut s = fixed1_text(f64_value(bytes), 1048576);
        s.append("MB");
        s
    }
}

} // verus!
