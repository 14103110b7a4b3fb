//! Finding duplicate files: which files are hashed, the MD5 fingerprint of
//! their content, grouping by fingerprint, and the space the copies take.

use vstd::prelude::*;
use vstd::utf8::{encode_utf8, encode_utf8_decode_utf8};
use crate::order::{copy_bytes, 
    RankKey, bytes_le, bytes_le_exec, lemma_bytes_total, lemma_bytes_trans, lemma_bytes_antisym,
    stable_order, is_stable_order, comes_before,
};
use crate::outside::{md5_digest, md5_of};
use crate::text::push_char;

verus! {


/// A sort key made of bytes, in byte order.
pub struct BytesKey(pub Vec<u8>);

impl RankKey for BytesKey {
    open spec fn rank_le(self, other: Self) -> bool {
        bytes_le(self.0@, other.0@)
    }

    proof fn lemma_rank_total(a: Self, b: Self) {
        lemma_bytes_total(a.0@, b.0@);
    }

    proof fn lemma_rank_trans(a: Self, b: Self, c: Self) {
        lemma_bytes_trans(a.0@, b.0@, c.0@);
    }

    fn rank_le_exec(&self, other: &Self) -> (r: bool) {
        bytes_le_exec(&self.0, &other.0)
    }
}

/// Files that are fingerprinted: regular files, except those known to be
/// larger than 50 MiB (a file whose size cannot be read is fingerprinted).
pub open spec fn hash_candidate(is_file: bool, size: Option<u64>) -> bool {
    is_file && match size {
        Some(s) => s <= 52428800,
        None => true,
    }
}

pub fn should_hash(is_file: bool, size: Option<u64>) -> (r: bool)
    ensures
        r == hash_candidate(is_file, size),
{
    if !is_file {
        return false;
    }
    match size {
        Some(s) => s <= 52428800,
        None => true,
    }
}

/// Lower-case hexadecimal digit of `d < 16`.
pub open spec fn hex_digit(d: nat) -> char {
    if d < 10 {
        ((d + 48) as u32) as char
    } else {
        ((d + 87) as u32) as char
    }
}

/// Lower-case hexadecimal text of bytes, two digits per byte.
pub open spec fn hex_lower(bytes: Seq<u8>) -> Seq<char>
    decreases bytes.len(),
{
    if bytes.len() == 0 {
        Seq::empty()
    } else {
        hex_lower(bytes.drop_last()).push(hex_digit((bytes.last() / 16) as nat)).push(
            hex_digit((bytes.last() % 16) as nat),
        )
    }
}

/// A lower-case hexadecimal digit.
pub open spec fn is_lower_hex(c: char) -> bool {
    ('0' <= c && c <= '9') || ('a' <= c && c <= 'f')
}

/// Hex text has two digits per byte, all lower-case hex.
pub proof fn lemma_hex_lower_shape(bytes: Seq<u8>)
    ensures
        hex_lower(bytes).len() == 2 * bytes.len(),
        forall|i: int| 0 <= i < hex_lower(bytes).len() ==> is_lower_hex(#[trigger] hex_lower(bytes)[i]),
    decreases bytes.len(),
{
    if bytes.len() > 0 {
        lemma_hex_lower_shape(bytes.drop_last());
        let hi = (bytes.last() / 16) as nat;
        let lo = (bytes.last() % 16) as nat;
        assert(is_lower_hex(hex_digit(hi)));
        assert(is_lower_hex(hex_digit(lo)));
    }
}

fn hex_char(d: u8) -> (c: char)
    requires
        d < 16,
    ensures
        c == hex_digit(d as nat),
{
    if d < 10 {
        let b: u8 = d + 48;
        b as char
    } else {
        let b: u8 = d + 87;
        b as char
    }
}

/// The MD5 fingerprint of a file's content, as 32 lower-case hex digits.
pub fn compute_md5(data: &[u8]) -> (r: String)
    ensures
        r@ == hex_lower(md5_of(data@)),
        r@.len() == 32,
        forall|i: int| 0 <= i < r@.len() ==> is_lower_hex(#[trigger] r@[i]),
{
    let digest = md5_digest(data);
    let mut s = String::new();
    let mut i: usize = 0;
    while i < digest.len()
        invariant
            i <= digest@.len(),
            s@ == hex_lower(digest@.take(i as int)),
        decreases digest.len() - i,
    {
        let b = digest[i];
        proof {
            assert(digest@.take(i + 1).drop_last() =~= digest@.take(i as int));
            assert(digest@.take(i + 1).last() == b);
        }
        push_char(&mut s, hex_char(b / 16));
        push_char(&mut s, hex_char(b % 16));
        i = i + 1;
    }
    assert(digest@.take(digest@.len() as int) =~= digest@);
    proof {
        lemma_hex_lower_shape(digest@);
    }
    s
}

/// Files sharing one fingerprint: their positions in the input list.
pub struct DuplicateGroup {
    pub hash: String,
    pub members: Vec<usize>,
}

/// `g` is the group of all files with its fingerprint, in input order,
/// and there are at least two of them.
pub open spec fn group_ok(hashes: Seq<String>, g: DuplicateGroup) -> bool {
    &&& g.members@.len() >= 2
    &&& forall|a: int, b: int| 0 <= a < b < g.members@.len() ==> #[trigger] g.members@[a] < #[trigger] g.members@[b]
    &&& forall|a: int| 0 <= a < g.members@.len() ==> #[trigger] g.members@[a] < hashes.len()
        && hashes[g.members@[a] as int]@ == g.hash@
    &&& forall|i: usize| i < hashes.len() && #[trigger] hashes[i as int]@ == g.hash@ ==> g.members@.contains(i)
}

/// File `i` has the same fingerprint as some other file.
pub open spec fn has_twin(hashes: Seq<String>, i: int) -> bool {
    exists|j: int| 0 <= j < hashes.len() && j != i && #[trigger] hashes[j]@ == hashes[i]@
}

pub open spec fn key_view(keys: Seq<BytesKey>, hashes: Seq<String>) -> bool {
    keys.len() == hashes.len() && forall|i: int| 0 <= i < keys.len() ==> #[trigger] keys[i].0@ == encode_utf8(hashes[i]@)
}

/// Equal texts are exactly those with equal UTF-8 bytes.
proof fn lemma_bytes_eq(a: Seq<char>, b: Seq<char>)
    ensures
        (encode_utf8(a) == encode_utf8(b)) == (a == b),
{
    encode_utf8_decode_utf8(a);
    encode_utf8_decode_utf8(b);
}

/// In a stable order, the items with one key form one block: an item with
/// key `h` cannot sit before the block's first position when the item just
/// before that position has another key (and the same after the block).
proof fn lemma_block_closed(keys: Seq<BytesKey>, order: Seq<usize>, c: int, s: int)
    requires
        is_stable_order(keys, order),
        0 <= c < s < order.len(),
        keys[order[c] as int].0@ == keys[order[s] as int].0@,
    ensures
        keys[order[s - 1] as int].0@ == keys[order[s] as int].0@,
{
    let x = keys[order[c] as int].0@;
    let y = keys[order[s - 1] as int].0@;
    if c < s - 1 {
        assert(comes_before(keys, order[c] as int, order[s - 1] as int));
    } else {
        lemma_bytes_total(x, x);
    }
    assert(comes_before(keys, order[s - 1] as int, order[s] as int));
    lemma_bytes_antisym(x, y);
}

/// Same after the block.
proof fn lemma_block_closed_after(keys: Seq<BytesKey>, order: Seq<usize>, e: int, c: int)
    requires
        is_stable_order(keys, order),
        0 < e <= c < order.len(),
        keys[order[c] as int].0@ == keys[order[e - 1] as int].0@,
    ensures
        keys[order[e] as int].0@ == keys[order[e - 1] as int].0@,
{
    let x = keys[order[c] as int].0@;
    let y = keys[order[e] as int].0@;
    if e < c {
        assert(comes_before(keys, order[e] as int, order[c] as int));
    } else {
        lemma_bytes_total(x, x);
    }
    assert(comes_before(keys, order[e - 1] as int, order[e] as int));
    lemma_bytes_antisym(x, y);
}



/// Every file whose fingerprint is that of a block `[start, end)` of the
/// order (a block bounded by other fingerprints) sits inside the block.
proof fn lemma_run_complete(
    hashes: Seq<String>,
    keys: Seq<BytesKey>,
    order: Seq<usize>,
    start: int,
    end: int,
    i: usize,
)
    requires
        key_view(keys, hashes),
        is_stable_order(keys, order),
        0 <= start < end <= order.len(),
        forall|c: int| start <= c < end ==> #[trigger] hashes[order[c] as int]@ == hashes[order[start] as int]@,
        start == 0 || hashes[order[start - 1] as int]@ != hashes[order[start] as int]@,
        end == order.len() || hashes[order[end] as int]@ != hashes[order[start] as int]@,
        i < hashes.len(),
        hashes[i as int]@ == hashes[order[start] as int]@,
    ensures
        exists|c: int| start <= c < end && order[c] == i,
{
    assert(order.contains(i));
    let c = choose|c: int| 0 <= c < order.len() && order[c] == i;
    let h = hashes[order[start] as int]@;
    if c < start {
        lemma_block_closed(keys, order, c, start);
        lemma_bytes_eq(hashes[order[start - 1] as int]@, h);
    } else if c >= end {
        assert(hashes[order[end - 1] as int]@ == h);
        lemma_block_closed_after(keys, order, end, c);
        lemma_bytes_eq(hashes[order[end] as int]@, hashes[order[end - 1] as int]@);
    }
}

/// The group of the block `[start, end)` of the order.
fn run_group(hashes: &Vec<String>, keys: &Vec<BytesKey>, order: &Vec<usize>, start: usize, end: usize) -> (g: DuplicateGroup)
    requires
        key_view(keys@, hashes@),
        is_stable_order(keys@, order@),
        start + 2 <= end <= order@.len(),
        forall|c: int| start <= c < end ==> #[trigger] hashes@[order@[c] as int]@ == hashes@[order@[start as int] as int]@,
        start == 0 || hashes@[order@[start - 1] as int]@ != hashes@[order@[start as int] as int]@,
        end == order@.len() || hashes@[order@[end as int] as int]@ != hashes@[order@[start as int] as int]@,
    ensures
        group_ok(hashes@, g),
        g.hash@ == hashes@[order@[start as int] as int]@,
        forall|c: int| start <= c < end ==> g.members@.contains(#[trigger] order@[c]),
{
    let ghost h = hashes@[order@[start as int] as int]@;
    let mut members: Vec<usize> = Vec::new();
    let mut c: usize = start;
    while c < end
        invariant
            start <= c <= end <= order@.len(),
            members@ == order@.subrange(start as int, c as int),
        decreases end - c,
    {
        members.push(order[c]);
        assert(order@.subrange(start as int, c + 1) == order@.subrange(start as int, c as int).push(order@[c as int]));
        c = c + 1;
    }
    let g = DuplicateGroup { hash: hashes[order[start]].clone(), members };
    proof {
        assert forall|a: int, b: int| 0 <= a < b < g.members@.len() implies #[trigger] g.members@[a] < #[trigger] g.members@[b] by {
            let x = order@[start + a] as int;
            let y = order@[start + b] as int;
            assert(comes_before(keys@, x, y));
            assert(hashes@[x]@ == h && hashes@[y]@ == h);
            assert(keys@[x].0@ == keys@[y].0@);
        }
        assert forall|i: usize| i < hashes@.len() && #[trigger] hashes@[i as int]@ == g.hash@ implies g.members@.contains(i) by {
            lemma_run_complete(hashes@, keys@, order@, start as int, end as int, i);
            let c = choose|c: int| start <= c < end && order@[c] == i;
            assert(g.members@[c - start] == i);
        }
        assert forall|c: int| start <= c < end implies g.members@.contains(#[trigger] order@[c]) by {
            assert(g.members@[c - start] == order@[c]);
        }
        assert forall|a: int| 0 <= a < g.members@.len() implies #[trigger] g.members@[a] < hashes@.len()
            && hashes@[g.members@[a] as int]@ == g.hash@ by {
            assert(g.members@[a] == order@[start + a]);
        }
    }
    g
}

/// Groups files by fingerprint: one group per fingerprint shared by two
/// or more files, listing those files in input order; groups come in byte
/// order of their fingerprints.
pub fn group_duplicates(hashes: &Vec<String>) -> (groups: Vec<DuplicateGroup>)
    ensures
        forall|k: int| 0 <= k < groups@.len() ==> group_ok(hashes@, #[trigger] groups@[k]),
        forall|k: int, l: int|
            0 <= k < l < groups@.len() ==> bytes_le(encode_utf8(#[trigger] groups@[k].hash@), encode_utf8(#[trigger] groups@[l].hash@))
                && groups@[k].hash@ != groups@[l].hash@,
        forall|i: usize|
            i < hashes@.len() && has_twin(hashes@, i as int) ==> exists|k: int|
                0 <= k < groups@.len() && #[trigger] groups@[k].members@.contains(i),
{
    let n = hashes.len();
    let mut keys: Vec<BytesKey> = Vec::new();
    let mut i: usize = 0;
    while i < n
        invariant
            n == hashes@.len(),
            i <= n,
            keys@.len() == i,
            forall|j: int| 0 <= j < i ==> #[trigger] keys@[j].0@ == encode_utf8(hashes@[j]@),
        decreases n - i,
    {
        keys.push(BytesKey(copy_bytes(hashes[i].as_str().as_bytes())));
        i = i + 1;
    }
    let order = stable_order(&keys);
    let mut groups: Vec<DuplicateGroup> = Vec::new();
    if n == 0 {
        return groups;
    }
    let ghost hs = hashes@;
    let mut start: usize = 0;
    let mut p: usize = 1;
    while p < n
        invariant
            n == hs.len(),
            hs == hashes@,
            key_view(keys@, hs),
            is_stable_order(keys@, order@),
            order@.len() == n,
            start < p <= n,
            forall|c: int| start <= c < p ==> #[trigger] hs[order@[c] as int]@ == hs[order@[start as int] as int]@,
            start == 0 || hs[order@[start - 1] as int]@ != hs[order@[start as int] as int]@,
            forall|k: int| 0 <= k < groups@.len() ==> group_ok(hs, #[trigger] groups@[k]),
            forall|k: int, l: int|
                0 <= k < l < groups@.len() ==> bytes_le(encode_utf8(#[trigger] groups@[k].hash@), encode_utf8(#[trigger] groups@[l].hash@))
                    && groups@[k].hash@ != groups@[l].hash@,
            forall|k: int| 0 <= k < groups@.len() ==> bytes_le(encode_utf8(#[trigger] groups@[k].hash@), encode_utf8(hs[order@[start as int] as int]@))
                && groups@[k].hash@ != hs[order@[start as int] as int]@,
            forall|c: int|
                0 <= c < start && has_twin(hs, order@[c] as int) ==> exists|k: int|
                    0 <= k < groups@.len() && #[trigger] groups@[k].members@.contains(#[trigger] order@[c]),
        decreases n - p,
    {
        if hashes[order[p]] != hashes[order[start]] {
            close_run(hashes, &keys, &order, start, p, &mut groups);
            start = p;
        }
        p = p + 1;
    }
    close_run(hashes, &keys, &order, start, n, &mut groups);
    proof {
        assert forall|i: usize| i < hs.len() && has_twin(hs, i as int) implies exists|k: int|
            0 <= k < groups@.len() && #[trigger] groups@[k].members@.contains(i) by {
            assert(order@.contains(i));
            let c = choose|c: int| 0 <= c < order@.len() && order@[c] == i;
            assert(has_twin(hs, order@[c] as int));
        }
    }
    groups
}

/// Closes the block `[start, end)`: adds its group when it has two or more
/// files.
fn close_run(
    hashes: &Vec<String>,
    keys: &Vec<BytesKey>,
    order: &Vec<usize>,
    start: usize,
    end: usize,
    groups: &mut Vec<DuplicateGroup>,
)
    requires
        key_view(keys@, hashes@),
        is_stable_order(keys@, order@),
        start < end <= order@.len(),
        forall|c: int| start <= c < end ==> #[trigger] hashes@[order@[c] as int]@ == hashes@[order@[start as int] as int]@,
        start == 0 || hashes@[order@[start - 1] as int]@ != hashes@[order@[start as int] as int]@,
        end == order@.len() || hashes@[order@[end as int] as int]@ != hashes@[order@[start as int] as int]@,
        forall|k: int| 0 <= k < old(groups)@.len() ==> group_ok(hashes@, #[trigger] old(groups)@[k]),
        forall|k: int, l: int|
            0 <= k < l < old(groups)@.len() ==> bytes_le(encode_utf8(#[trigger] old(groups)@[k].hash@), encode_utf8(#[trigger] old(groups)@[l].hash@))
                && old(groups)@[k].hash@ != old(groups)@[l].hash@,
        forall|k: int| 0 <= k < old(groups)@.len() ==> bytes_le(encode_utf8(#[trigger] old(groups)@[k].hash@), encode_utf8(hashes@[order@[start as int] as int]@))
            && old(groups)@[k].hash@ != hashes@[order@[start as int] as int]@,
        forall|c: int|
            0 <= c < start && has_twin(hashes@, order@[c] as int) ==> exists|k: int|
                0 <= k < old(groups)@.len() && #[trigger] old(groups)@[k].members@.contains(#[trigger] order@[c]),
    ensures
        forall|k: int| 0 <= k < final(groups)@.len() ==> group_ok(hashes@, #[trigger] final(groups)@[k]),
        forall|k: int, l: int|
            0 <= k < l < final(groups)@.len() ==> bytes_le(encode_utf8(#[trigger] final(groups)@[k].hash@), encode_utf8(#[trigger] final(groups)@[l].hash@))
                && final(groups)@[k].hash@ != final(groups)@[l].hash@,
        end < order@.len() ==> forall|k: int| 0 <= k < final(groups)@.len() ==> bytes_le(encode_utf8(#[trigger] final(groups)@[k].hash@), encode_utf8(hashes@[order@[end as int] as int]@))
            && final(groups)@[k].hash@ != hashes@[order@[end as int] as int]@,
        forall|c: int|
            0 <= c < end && has_twin(hashes@, order@[c] as int) ==> exists|k: int|
                0 <= k < final(groups)@.len() && #[trigger] final(groups)@[k].members@.contains(#[trigger] order@[c]),
{
    let ghost h = hashes@[order@[start as int] as int]@;
    let ghost old_groups = groups@;
    let n = hashes.len();
    if end - start >= 2 {
        let g = run_group(hashes, keys, order, start, end);
        groups.push(g);
        assert(forall|c: int| start <= c < end ==> groups@[old_groups.len() as int].members@.contains(#[trigger] order@[c]));
    }
    proof {
        assert forall|k: int| 0 <= k < groups@.len() implies bytes_le(encode_utf8(#[trigger] groups@[k].hash@), encode_utf8(h)) by {
            if k == old_groups.len() {
                lemma_bytes_total(encode_utf8(h), encode_utf8(h));
            }
        }
        if end < order@.len() {
            let h2 = hashes@[order@[end as int] as int]@;
            assert(comes_before(keys@, order@[start as int] as int, order@[end as int] as int));
            assert(bytes_le(encode_utf8(h), encode_utf8(h2)));
            assert forall|k: int| 0 <= k < groups@.len() implies bytes_le(encode_utf8(#[trigger] groups@[k].hash@), encode_utf8(h2))
                && groups@[k].hash@ != h2 by {
                let gk = groups@[k].hash@;
                lemma_bytes_trans(encode_utf8(gk), encode_utf8(h), encode_utf8(h2));
                if gk == h2 {
                    lemma_bytes_antisym(encode_utf8(h), encode_utf8(h2));
                    lemma_bytes_eq(h, h2);
                }
            }
        }
        assert forall|c: int| 0 <= c < end && has_twin(hashes@, order@[c] as int) implies exists|k: int|
            0 <= k < groups@.len() && #[trigger] groups@[k].members@.contains(#[trigger] order@[c]) by {
            if c < start {
                let k = choose|k: int| 0 <= k < old_groups.len() && #[trigger] old_groups[k].members@.contains(order@[c]);
                assert(groups@[k] == old_groups[k]);
            } else {
                let i = order@[c] as int;
                let j = choose|j: int| 0 <= j < hashes@.len() && j != i && #[trigger] hashes@[j]@ == hashes@[i]@;
                let ju = j as usize;
                assert(ju as int == j);
                assert(hashes@[i]@ == h);
                lemma_run_complete(hashes@, keys@, order@, start as int, end as int, ju);
                let cj = choose|cj: int| start <= cj < end && order@[cj] == ju;
                if end - start < 2 {
                    assert(cj == start && c == start);
                }
                assert(groups@[old_groups.len() as int].members@.contains(order@[c]));
            }
        }
    }
}


/// Bytes taken by the extra copies of each group: for every group, the
/// size of its first file times the number of other files in it.
pub open spec fn wasted_sum(groups: Seq<(u64, usize)>) -> int
    decreases groups.len(),
{
    if groups.len() == 0 {
        0
    } else {
        wasted_sum(groups.drop_last()) + groups.last().0 * (groups.last().1 - 1)
    }
}

proof fn lemma_wasted_nonneg(groups: Seq<(u64, usize)>)
    requires
        forall|k: int| 0 <= k < groups.len() ==> #[trigger] groups[k].1 >= 1,
    ensures
        wasted_sum(groups) >= 0,
    decreases groups.len(),
{
    if groups.len() > 0 {
        lemma_wasted_nonneg(groups.drop_last());
        let g = groups.last();
        assert(g.0 * (g.1 - 1) >= 0) by (nonlinear_arith)
            requires g.1 >= 1;
    }
}

/// The space that the duplicates take, for groups given as (size of the
/// first file, number of files); `None` when it does not fit in `u64`.
pub fn total_wasted(groups: &Vec<(u64, usize)>) -> (r: Option<u64>)
    requires
        forall|k: int| 0 <= k < groups@.len() ==> #[trigger] groups@[k].1 >= 1,
    ensures
        match r {
            Some(t) => t == wasted_sum(groups@),
            None => wasted_sum(groups@) > u64::MAX,
        },
{
    let mut total: u64 = 0;
    let mut k: usize = 0;
    while k < groups.len()
        invariant
            k <= groups@.len(),
            forall|j: int| 0 <= j < groups@.len() ==> #[trigger] groups@[j].1 >= 1,
            total == wasted_sum(groups@.take(k as int)),
        decreases groups.len() - k,
    {
        let (size, count) = groups[k];
        let ghost pre = groups@.take(k as int);
        let ghost nxt = groups@.take(k + 1);
        proof {
            assert(nxt.drop_last() =~= pre);
            assert(nxt.last() == groups@[k as int]);
            assert(groups@[k as int].1 >= 1);
        }
        let a: u128 = size as u128;
        let b: u128 = (count - 1) as u128;
        proof {
            let ai = a as int;
            let bi = b as int;
            assert(ai * bi <= 0xFFFF_FFFF_FFFF_FFFF * 0xFFFF_FFFF_FFFF_FFFF) by (nonlinear_arith)
                requires 0 <= ai <= 0xFFFF_FFFF_FFFF_FFFF, 0 <= bi <= 0xFFFF_FFFF_FFFF_FFFF;
        }
        let w: u128 = a * b;
        let t: u128 = (total as u128) + w;
        if t > 0xFFFF_FFFF_FFFF_FFFFu128 {
            proof {
                assert forall|j: int| 0 <= j < groups@.skip(k + 1).len() implies #[trigger] groups@.skip(k + 1)[j].1 >= 1 by {
                    assert(groups@.skip(k + 1)[j] == groups@[k + 1 + j]);
                }
                lemma_wasted_split(groups@, k + 1);
                lemma_wasted_nonneg(groups@.skip(k + 1));
            }
            return None;
        }
        total = t as u64;
        k = k + 1;
    }
    assert(groups@.take(groups@.len() as int) =~= groups@);
    Some(total)
}

/// The sum over a list is the sum over a prefix plus the sum over the rest.
proof fn lemma_wasted_split(groups: Seq<(u64, usize)>, k: int)
    requires
        0 <= k <= groups.len(),
    ensures
        wasted_sum(groups) == wasted_sum(groups.take(k)) + wasted_sum(groups.skip(k)),
    decreases groups.len() - k,
{
    if k == groups.len() {
        assert(groups.take(k) =~= groups);
        assert(groups.skip(k).len() == 0);
    } else {
        lemma_wasted_split(groups.drop_last(), k);
        assert(groups.drop_last().take(k) =~= groups.take(k));
        assert(groups.skip(k).drop_last() =~= groups.drop_last().skip(k));
        assert(groups.skip(k).last() == groups.last());
    }
}

} // verus!
