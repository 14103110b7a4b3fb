//! Stable sorting, stated as the order in which the items of a list are
//! visited: by key first, and by position in the input among equal keys.

use vstd::prelude::*;

verus! {

/// A sort key with a total preorder (`rank_le`): any two keys are related
/// one way or the other, and the relation is transitive. Keys related both
/// ways are tied.
pub trait RankKey: Sized {
    spec fn rank_le(self, other: Self) -> bool;

    proof fn lemma_rank_total(a: Self, b: Self)
        ensures
            a.rank_le(b) || b.rank_le(a),
    ;

    proof fn lemma_rank_trans(a: Self, b: Self, c: Self)
        requires
            a.rank_le(b),
            b.rank_le(c),
        ensures
            a.rank_le(c),
    ;

    fn rank_le_exec(&self, other: &Self) -> (r: bool)
        ensures
            r == self.rank_le(*other),
    ;
}

/// Item `i` comes before item `j`: its key ranks strictly lower, or the
/// keys tie and `i` was earlier.
pub open spec fn comes_before<K: RankKey>(keys: Seq<K>, i: int, j: int) -> bool {
    keys[i].rank_le(keys[j]) && (!keys[j].rank_le(keys[i]) || i < j)
}

/// `order` lists item positions in strictly increasing `comes_before` order.
pub open spec fn sorted_by<K: RankKey>(keys: Seq<K>, order: Seq<usize>) -> bool {
    &&& forall|a: int| 0 <= a < order.len() ==> #[trigger] order[a] < keys.len()
    &&& forall|a: int, b: int|
        0 <= a < b < order.len() ==> comes_before(keys, #[trigger] order[a] as int, #[trigger] order[b] as int)
}

/// `order` is the stable sorted order of all `keys.len()` items: each
/// position appears, and positions follow `comes_before`.
pub open spec fn is_stable_order<K: RankKey>(keys: Seq<K>, order: Seq<usize>) -> bool {
    &&& order.len() == keys.len()
    &&& sorted_by(keys, order)
    &&& forall|i: usize| i < keys.len() ==> #[trigger] order.contains(i)
}

proof fn lemma_before_trans<K: RankKey>(keys: Seq<K>, i: int, j: int, k: int)
    requires
        0 <= i < keys.len(),
        0 <= j < keys.len(),
        0 <= k < keys.len(),
        comes_before(keys, i, j),
        comes_before(keys, j, k),
    ensures
        comes_before(keys, i, k),
{
    K::lemma_rank_trans(keys[i], keys[j], keys[k]);
    if keys[k].rank_le(keys[i]) {
        K::lemma_rank_trans(keys[j], keys[k], keys[i]);
        K::lemma_rank_trans(keys[k], keys[i], keys[j]);
    }
}

proof fn lemma_before_total<K: RankKey>(keys: Seq<K>, i: int, j: int)
    requires
        0 <= i < keys.len(),
        0 <= j < keys.len(),
        i != j,
    ensures
        comes_before(keys, i, j) || comes_before(keys, j, i),
{
    K::lemma_rank_total(keys[i], keys[j]);
}

/// Merges two sorted lists with no common position.
fn merge_orders<K: RankKey>(keys: &Vec<K>, a: &Vec<usize>, b: &Vec<usize>) -> (out: Vec<usize>)
    requires
        sorted_by(keys@, a@),
        sorted_by(keys@, b@),
        forall|x: usize| a@.contains(x) ==> !b@.contains(x),
    ensures
        out.len() == a.len() + b.len(),
        sorted_by(keys@, out@),
        forall|x: usize| out@.contains(x) <==> (a@.contains(x) || b@.contains(x)),
{
    let mut out: Vec<usize> = Vec::new();
    let mut i: usize = 0;
    let mut j: usize = 0;
    while i < a.len() || j < b.len()
        invariant
            i <= a.len(),
            j <= b.len(),
            sorted_by(keys@, a@),
            sorted_by(keys@, b@),
            forall|x: usize| a@.contains(x) ==> !b@.contains(x),
            out.len() == i + j,
            sorted_by(keys@, out@),
            forall|x: usize| out@.contains(x) <==> (a@.take(i as int).contains(x) || b@.take(j as int).contains(x)),
            forall|p: int, q: int|
                0 <= p < out.len() && i <= q < a.len() ==> comes_before(keys@, #[trigger] out@[p] as int, #[trigger] a@[q] as int),
            forall|p: int, q: int|
                0 <= p < out.len() && j <= q < b.len() ==> comes_before(keys@, #[trigger] out@[p] as int, #[trigger] b@[q] as int),
        decreases a.len() + b.len() - i - j,
    {
        let take_a = if i >= a.len() {
            false
        } else if j >= b.len() {
            true
        } else {
            let x = a[i];
            let y = b[j];
            let kx = &keys[x];
            let ky = &keys[y];
            let le_xy = kx.rank_le_exec(ky);
            let le_yx = ky.rank_le_exec(kx);
            le_xy && (!le_yx || x < y)
        };
        let ghost old_out = out@;
        if take_a {
            let x = a[i];
            proof {
                assert(a@.contains(x));
                if j < b.len() {
                    assert(b@.contains(b@[j as int]));
                    assert(x != b@[j as int]);
                    assert(comes_before(keys@, x as int, b@[j as int] as int));
                }
                assert forall|q: int| i + 1 <= q < a.len() implies comes_before(keys@, x as int, #[trigger] a@[q] as int) by {
                    assert(comes_before(keys@, a@[i as int] as int, a@[q] as int));
                }
                assert forall|q: int| j <= q < b.len() implies comes_before(keys@, x as int, #[trigger] b@[q] as int) by {
                    if q > j {
                        assert(comes_before(keys@, b@[j as int] as int, b@[q] as int));
                        lemma_before_trans(keys@, x as int, b@[j as int] as int, b@[q] as int);
                    }
                }
                assert(a@.take(i + 1) == a@.take(i as int).push(x));
            }
            out.push(x);
            i = i + 1;
            proof {
                assert(out@ == old_out.push(x));
                assert forall|z: usize| out@.contains(z) <==> (a@.take(i as int).contains(z) || b@.take(j as int).contains(z)) by {
                    if out@.contains(z) {
                        let k = choose|k: int| 0 <= k < out@.len() && out@[k] == z;
                        if k < old_out.len() {
                            assert(old_out[k] == z);
                            assert(old_out.contains(z));
                        } else {
                            assert(a@.take(i as int)[i - 1] == z);
                        }
                    }
                    if a@.take(i as int).contains(z) {
                        let k = choose|k: int| 0 <= k < i && a@.take(i as int)[k] == z;
                        if k < i - 1 {
                            assert(a@.take(i - 1)[k] == z);
                            assert(old_out.contains(z));
                            let m = choose|m: int| 0 <= m < old_out.len() && old_out[m] == z;
                            assert(out@[m] == z);
                        } else {
                            assert(out@[out.len() - 1] == z);
                        }
                    }
                    if b@.take(j as int).contains(z) {
                        assert(old_out.contains(z));
                        let m = choose|m: int| 0 <= m < old_out.len() && old_out[m] == z;
                        assert(out@[m] == z);
                    }
                }
            }
        } else {
            let y = b[j];
            proof {
                assert(b@.contains(y));
                if i < a.len() {
                    let x = a@[i as int];
                    assert(a@.contains(x));
                    assert(x != y);
                    lemma_before_total(keys@, x as int, y as int);
                    assert(comes_before(keys@, y as int, x as int));
                }
                assert forall|q: int| j + 1 <= q < b.len() implies comes_before(keys@, y as int, #[trigger] b@[q] as int) by {
                    assert(comes_before(keys@, b@[j as int] as int, b@[q] as int));
                }
                assert forall|q: int| i <= q < a.len() implies comes_before(keys@, y as int, #[trigger] a@[q] as int) by {
                    if q > i {
                        assert(comes_before(keys@, a@[i as int] as int, a@[q] as int));
                        lemma_before_trans(keys@, y as int, a@[i as int] as int, a@[q] as int);
                    }
                }
                assert(b@.take(j + 1) == b@.take(j as int).push(y));
            }
            out.push(y);
            j = j + 1;
            proof {
                assert(out@ == old_out.push(y));
                assert forall|z: usize| out@.contains(z) <==> (a@.take(i as int).contains(z) || b@.take(j as int).contains(z)) by {
                    if out@.contains(z) {
                        let k = choose|k: int| 0 <= k < out@.len() && out@[k] == z;
                        if k < old_out.len() {
                            assert(old_out[k] == z);
                            assert(old_out.contains(z));
                        } else {
                            assert(b@.take(j as int)[j - 1] == z);
                        }
                    }
                    if b@.take(j as int).contains(z) {
                        let k = choose|k: int| 0 <= k < j && b@.take(j as int)[k] == z;
                        if k < j - 1 {
                            assert(b@.take(j - 1)[k] == z);
                            assert(old_out.contains(z));
                            let m = choose|m: int| 0 <= m < old_out.len() && old_out[m] == z;
                            assert(out@[m] == z);
                        } else {
                            assert(out@[out.len() - 1] == z);
                        }
                    }
                    if a@.take(i as int).contains(z) {
                        assert(old_out.contains(z));
                        let m = choose|m: int| 0 <= m < old_out.len() && old_out[m] == z;
                        assert(out@[m] == z);
                    }
                }
            }
        }
        proof {
            let last = out@[out.len() - 1];
            assert forall|p: int, q: int| 0 <= p < q < out.len() implies comes_before(keys@, #[trigger] out@[p] as int, #[trigger] out@[q] as int) by {
                if q < out.len() - 1 {
                    assert(out@[p] == old_out[p] && out@[q] == old_out[q]);
                } else {
                    assert(out@[p] == old_out[p]);
                }
            }
        }
    }
    assert(a@.take(a.len() as int) == a@);
    assert(b@.take(b.len() as int) == b@);
    out
}


/// The positions `lo..hi`, sorted.
fn sort_range<K: RankKey>(keys: &Vec<K>, lo: usize, hi: usize) -> (out: Vec<usize>)
    requires
        lo <= hi <= keys.len(),
    ensures
        out.len() == hi - lo,
        sorted_by(keys@, out@),
        forall|x: usize| out@.contains(x) <==> lo <= x < hi,
    decreases hi - lo,
{
    if hi - lo == 0 {
        let out: Vec<usize> = Vec::new();
        return out;
    }
    if hi - lo == 1 {
        let mut out: Vec<usize> = Vec::new();
        out.push(lo);
        proof {
            assert forall|x: usize| out@.contains(x) <==> lo <= x < hi by {
                if out@.contains(x) {
                    let k = choose|k: int| 0 <= k < out@.len() && out@[k] == x;
                    assert(k == 0);
                }
                if lo <= x < hi {
                    assert(out@[0] == x);
                }
            }
        }
        return out;
    }
    let mid = lo + (hi - lo) / 2;
    let a = sort_range(keys, lo, mid);
    let b = sort_range(keys, mid, hi);
    merge_orders(keys, &a, &b)
}

/// The stable sorted order of the items whose keys are `keys`: the list
/// of all positions, by key, ties kept in input order.
pub fn stable_order<K: RankKey>(keys: &Vec<K>) -> (order: Vec<usize>)
    ensures
        is_stable_order(keys@, order@),
{
    sort_range(keys, 0, keys.len())
}


/// The stable order is determined by the keys: two lists that both are
/// the stable sorted order of the same keys are equal.
pub proof fn lemma_stable_order_unique<K: RankKey>(keys: Seq<K>, o1: Seq<usize>, o2: Seq<usize>)
    requires
        is_stable_order(keys, o1),
        is_stable_order(keys, o2),
    ensures
        o1 == o2,
{
    assert forall|a: int| 0 <= a < o1.len() implies o1[a] == o2[a] by {
        lemma_stable_order_agree(keys, o1, o2, a);
    }
    assert(o1 =~= o2);
}

proof fn lemma_stable_order_agree<K: RankKey>(keys: Seq<K>, o1: Seq<usize>, o2: Seq<usize>, a: int)
    requires
        is_stable_order(keys, o1),
        is_stable_order(keys, o2),
        0 <= a < o1.len(),
    ensures
        o1[a] == o2[a],
    decreases a,
{
    if a > 0 {
        lemma_stable_order_agree(keys, o1, o2, a - 1);
    }
    assert forall|c: int| 0 <= c < a implies o1[c] == o2[c] by {
        lemma_stable_order_agree(keys, o1, o2, c);
    }
    let x = o1[a];
    let y = o2[a];
    if x != y {
        assert(o2.contains(x));
        let b = choose|b: int| 0 <= b < o2.len() && o2[b] == x;
        assert(o1.contains(y));
        let c = choose|c: int| 0 <= c < o1.len() && o1[c] == y;
        if b < a {
            assert(o1[b] == x);
            assert(comes_before(keys, x as int, x as int));
        }
        if c < a {
            assert(o2[c] == y);
            assert(comes_before(keys, y as int, y as int));
        }
        assert(comes_before(keys, y as int, x as int));
        assert(comes_before(keys, x as int, y as int));
    }
}

/// Lexicographic order on byte strings (a proper prefix comes first), the
/// order of `[u8]`, `str` and `String`.
pub open spec fn bytes_le(a: Seq<u8>, b: Seq<u8>) -> bool
    decreases a.len(),
{
    if a.len() == 0 {
        true
    } else if b.len() == 0 {
        false
    } else if a[0] != b[0] {
        a[0] < b[0]
    } else {
        bytes_le(a.drop_first(), b.drop_first())
    }
}

pub proof fn lemma_bytes_total(a: Seq<u8>, b: Seq<u8>)
    ensures
        bytes_le(a, b) || bytes_le(b, a),
    decreases a.len(),
{
    if a.len() > 0 && b.len() > 0 && a[0] == b[0] {
        lemma_bytes_total(a.drop_first(), b.drop_first());
    }
}

pub proof fn lemma_bytes_trans(a: Seq<u8>, b: Seq<u8>, c: Seq<u8>)
    requires
        bytes_le(a, b),
        bytes_le(b, c),
    ensures
        bytes_le(a, c),
    decreases a.len(),
{
    if a.len() > 0 && b.len() > 0 && c.len() > 0 && a[0] == b[0] && b[0] == c[0] {
        lemma_bytes_trans(a.drop_first(), b.drop_first(), c.drop_first());
    }
}

pub proof fn lemma_bytes_antisym(a: Seq<u8>, b: Seq<u8>)
    requires
        bytes_le(a, b),
        bytes_le(b, a),
    ensures
        a == b,
    decreases a.len(),
{
    if a.len() > 0 && b.len() > 0 {
        lemma_bytes_antisym(a.drop_first(), b.drop_first());
        assert(a =~= seq![a[0]] + a.drop_first());
        assert(b =~= seq![b[0]] + b.drop_first());
    } else {
        assert(a.len() == 0 && b.len() == 0);
        assert(a =~= b);
    }
}

/// A copy of a byte string.
pub fn copy_bytes(b: &[u8]) -> (r: Vec<u8>)
    ensures
        r@ == b@,
{
    let mut r: Vec<u8> = Vec::new();
    let mut i: usize = 0;
    while i < b.len()
        invariant
            i <= b@.len(),
            r@ == b@.take(i as int),
        decreases b.len() - i,
    {
        r.push(b[i]);
        assert(b@.take(i + 1) == b@.take(i as int).push(b@[i as int]));
        i = i + 1;
    }
    assert(b@.take(b@.len() as int) == b@);
    r
}

/// Whether `a` is not after `b` in byte order.
pub fn bytes_le_exec(a: &Vec<u8>, b: &Vec<u8>) -> (r: bool)
    ensures
        r == bytes_le(a@, b@),
{
    let mut i: usize = 0;
    assert(a@.skip(0) == a@);
    assert(b@.skip(0) == b@);
    while i < a.len() && i < b.len() && a[i] == b[i]
        invariant
            i <= a.len(),
            i <= b.len(),
            bytes_le(a@, b@) == bytes_le(a@.skip(i as int), b@.skip(i as int)),
        decreases a.len() - i,
    {
        proof {
            assert(a@.skip(i as int).drop_first() =~= a@.skip(i + 1));
            assert(b@.skip(i as int).drop_first() =~= b@.skip(i + 1));
        }
        i = i + 1;
    }
    proof {
        assert(a@.skip(0) == a@);
        assert(b@.skip(0) == b@);
    }
    if i == a.len() {
        true
    } else if i == b.len() {
        false
    } else {
        a[i] < b[i]
    }
}

/// Lexicographic order on lists of byte strings, element by element.
pub open spec fn parts_le(a: Seq<Seq<u8>>, b: Seq<Seq<u8>>) -> bool
    decreases a.len(),
{
    if a.len() == 0 {
        true
    } else if b.len() == 0 {
        false
    } else if a[0] != b[0] {
        bytes_le(a[0], b[0])
    } else {
        parts_le(a.drop_first(), b.drop_first())
    }
}

pub proof fn lemma_parts_total(a: Seq<Seq<u8>>, b: Seq<Seq<u8>>)
    ensures
        parts_le(a, b) || parts_le(b, a),
    decreases a.len(),
{
    if a.len() > 0 && b.len() > 0 {
        if a[0] == b[0] {
            lemma_parts_total(a.drop_first(), b.drop_first());
        } else {
            lemma_bytes_total(a[0], b[0]);
        }
    }
}

pub proof fn lemma_parts_trans(a: Seq<Seq<u8>>, b: Seq<Seq<u8>>, c: Seq<Seq<u8>>)
    requires
        parts_le(a, b),
        parts_le(b, c),
    ensures
        parts_le(a, c),
    decreases a.len(),
{
    if a.len() > 0 && b.len() > 0 && c.len() > 0 {
        if a[0] == b[0] && b[0] == c[0] {
            lemma_parts_trans(a.drop_first(), b.drop_first(), c.drop_first());
        } else if a[0] == b[0] {
        } else if b[0] == c[0] {
        } else {
            lemma_bytes_trans(a[0], b[0], c[0]);
            if a[0] == c[0] {
                lemma_bytes_antisym(a[0], b[0]);
            }
        }
    }
}

/// The byte strings of a list of strings.
pub open spec fn parts_view(v: Seq<Vec<u8>>) -> Seq<Seq<u8>> {
    v.map_values(|x: Vec<u8>| x@)
}

/// Whether `a` is not after `b` in `parts_le` order.
pub fn parts_le_exec(a: &Vec<Vec<u8>>, b: &Vec<Vec<u8>>) -> (r: bool)
    ensures
        r == parts_le(parts_view(a@), parts_view(b@)),
{
    let ghost av = parts_view(a@);
    let ghost bv = parts_view(b@);
    let mut i: usize = 0;
    assert(av.skip(0) == av);
    assert(bv.skip(0) == bv);
    loop
        invariant
            i <= a.len(),
            i <= b.len(),
            av == parts_view(a@),
            bv == parts_view(b@),
            parts_le(av, bv) == parts_le(av.skip(i as int), bv.skip(i as int)),
        decreases a.len() - i,
    {
        if i == a.len() {
            return true;
        }
        if i == b.len() {
            return false;
        }
        let x = &a[i];
        let y = &b[i];
        let le_xy = bytes_le_exec(x, y);
        let le_yx = bytes_le_exec(y, x);
        proof {
            assert(av.skip(i as int)[0] == x@);
            assert(bv.skip(i as int)[0] == y@);
        }
        if !(le_xy && le_yx) {
            proof {
                if x@ == y@ {
                    lemma_bytes_total(x@, y@);
                }
            }
            return le_xy;
        }
        proof {
            lemma_bytes_antisym(x@, y@);
            assert(av.skip(i as int).drop_first() =~= av.skip(i + 1));
            assert(bv.skip(i as int).drop_first() =~= bv.skip(i + 1));
        }
        i = i + 1;
    }
}

} // verus!
