//! File-name matching with `*` wildcards, case-insensitive.

use vstd::prelude::*;
use crate::text::{lowercase_of, contains_seq, occurs_at, to_lowercase, chars_of, matches_at, find_from, contains_chars};

verus! {

/// `t` matches the wildcard pattern `p`, where `*` stands for any run of
/// characters (possibly empty) and every other character for itself.
pub open spec fn wild(t: Seq<char>, p: Seq<char>) -> bool
    decreases t.len() + p.len(),
{
    if p.len() == 0 {
        t.len() == 0
    } else if p[0] == '*' {
        wild(t, p.drop_first()) || (t.len() > 0 && wild(t.drop_first(), p))
    } else {
        t.len() > 0 && t[0] == p[0] && wild(t.drop_first(), p.drop_first())
    }
}

pub open spec fn star_free(s: Seq<char>) -> bool {
    forall|i: int| 0 <= i < s.len() ==> #[trigger] s[i] != '*'
}

/// What the name search accepts: the lower-cased pattern, when it holds a
/// `*`, must match the whole lower-cased name as a wildcard pattern;
/// otherwise it must occur somewhere in the lower-cased name.
pub open spec fn glob_spec(name: Seq<char>, pattern: Seq<char>) -> bool {
    let f = lowercase_of(name);
    let p = lowercase_of(pattern);
    if p.contains('*') {
        wild(f, p)
    } else {
        contains_seq(f, p)
    }
}

/// A star-free prefix must be matched literally.
proof fn lemma_literal_prefix(t: Seq<char>, a: Seq<char>, b: Seq<char>)
    requires
        star_free(a),
    ensures
        wild(t, a + b) == (a.len() <= t.len() && t.take(a.len() as int) == a && wild(
            t.skip(a.len() as int),
            b,
        )),
    decreases a.len(),
{
    if a.len() == 0 {
        assert(a + b == b);
        assert(t.skip(0) == t);
        assert(t.take(0) == a);
    } else {
        let ab = a + b;
        assert(ab[0] == a[0]);
        assert(ab.drop_first() == a.drop_first() + b);
        assert(star_free(a.drop_first()));
        if t.len() > 0 {
            lemma_literal_prefix(t.drop_first(), a.drop_first(), b);
            if a.len() <= t.len() {
                assert(t.drop_first().skip(a.len() - 1) =~= t.skip(a.len() as int));
                if t.take(a.len() as int) == a {
                    assert(t.drop_first().take(a.len() - 1) =~= a.drop_first());
                }
                if t[0] == a[0] && t.drop_first().take(a.len() - 1) == a.drop_first() {
                    assert forall|k: int| 0 <= k < a.len() implies #[trigger] t.take(a.len() as int)[k] == a[k] by {
                        if k > 0 {
                            assert(t.drop_first().take(a.len() - 1)[k - 1] == a.drop_first()[k - 1]);
                        }
                    }
                    assert(t.take(a.len() as int) =~= a);
                }
            }
        }
    }
}

/// A leading star skips any number of characters.
proof fn lemma_star(t: Seq<char>, b: Seq<char>)
    ensures
        wild(t, seq!['*'] + b) == exists|i: int| 0 <= i <= t.len() && #[trigger] wild(t.skip(i), b),
    decreases t.len(),
{
    let sb = seq!['*'] + b;
    assert(sb[0] == '*');
    assert(sb.drop_first() == b);
    assert(t.skip(0) == t);
    if t.len() == 0 {
        if wild(t, sb) {
            assert(wild(t.skip(0), b));
        }
        if exists|i: int| 0 <= i <= t.len() && #[trigger] wild(t.skip(i), b) {
            let i = choose|i: int| 0 <= i <= t.len() && #[trigger] wild(t.skip(i), b);
            assert(i == 0);
        }
    } else {
        lemma_star(t.drop_first(), b);
        if wild(t, sb) {
            if wild(t, b) {
                assert(wild(t.skip(0), b));
            } else {
                let i = choose|i: int|
                    0 <= i <= t.drop_first().len() && #[trigger] wild(t.drop_first().skip(i), b);
                assert(t.drop_first().skip(i) == t.skip(i + 1));
                assert(wild(t.skip(i + 1), b));
            }
        }
        if exists|i: int| 0 <= i <= t.len() && #[trigger] wild(t.skip(i), b) {
            let i = choose|i: int| 0 <= i <= t.len() && #[trigger] wild(t.skip(i), b);
            if i == 0 {
            } else {
                assert(t.drop_first().skip(i - 1) == t.skip(i));
                assert(wild(t.drop_first().skip(i - 1), b));
            }
        }
    }
}

/// Skipping fewer characters before a leading star never hurts.
proof fn lemma_star_monotone(t: Seq<char>, b: Seq<char>, i: int, j: int)
    requires
        0 <= i <= j <= t.len(),
        wild(t.skip(j), seq!['*'] + b),
    ensures
        wild(t.skip(i), seq!['*'] + b),
{
    lemma_star(t.skip(j), b);
    lemma_star(t.skip(i), b);
    let k = choose|k: int| 0 <= k <= t.skip(j).len() && #[trigger] wild(t.skip(j).skip(k), b);
    assert(t.skip(j).skip(k) == t.skip(i).skip(j - i + k));
    assert(wild(t.skip(i).skip(j - i + k), b));
}

/// A star-free pattern matches exactly itself.
proof fn lemma_literal_whole(t: Seq<char>, a: Seq<char>)
    requires
        star_free(a),
    ensures
        wild(t, a) == (t == a),
{
    lemma_literal_prefix(t, a, Seq::empty());
    assert(a + Seq::<char>::empty() == a);
    if t == a {
        assert(t.take(a.len() as int) == a);
        assert(t.skip(a.len() as int).len() == 0);
    }
    if a.len() <= t.len() && t.take(a.len() as int) == a && wild(t.skip(a.len() as int), Seq::empty()) {
        assert(t =~= a);
    }
}

/// `*A*X` (A star-free): some occurrence of A is followed by a match of `*X`.
proof fn lemma_star_part(t: Seq<char>, a: Seq<char>, x: Seq<char>)
    requires
        star_free(a),
    ensures
        wild(t, seq!['*'] + a + seq!['*'] + x) == exists|j: int|
            #[trigger] occurs_at(t, a, j) && wild(t.skip(j + a.len()), seq!['*'] + x),
{
    let rest = a + (seq!['*'] + x);
    assert(seq!['*'] + a + seq!['*'] + x == seq!['*'] + rest);
    lemma_star(t, rest);
    if wild(t, seq!['*'] + rest) {
        let i = choose|i: int| 0 <= i <= t.len() && #[trigger] wild(t.skip(i), rest);
        lemma_literal_prefix(t.skip(i), a, seq!['*'] + x);
        assert(t.skip(i).take(a.len() as int) == t.subrange(i, i + a.len()));
        assert(t.skip(i).skip(a.len() as int) == t.skip(i + a.len()));
        assert(occurs_at(t, a, i));
    }
    if exists|j: int| #[trigger] occurs_at(t, a, j) && wild(t.skip(j + a.len()), seq!['*'] + x) {
        let j = choose|j: int| #[trigger] occurs_at(t, a, j) && wild(t.skip(j + a.len()), seq!['*'] + x);
        lemma_literal_prefix(t.skip(j), a, seq!['*'] + x);
        assert(t.skip(j).take(a.len() as int) == t.subrange(j, j + a.len()));
        assert(t.skip(j).skip(a.len() as int) == t.skip(j + a.len()));
        assert(wild(t.skip(j), rest));
    }
}

/// `*A` (A star-free): A is a suffix.
proof fn lemma_star_suffix(t: Seq<char>, a: Seq<char>)
    requires
        star_free(a),
    ensures
        wild(t, seq!['*'] + a) == (a.len() <= t.len() && t.skip(t.len() - a.len()) == a),
{
    lemma_star(t, a);
    if wild(t, seq!['*'] + a) {
        let i = choose|i: int| 0 <= i <= t.len() && #[trigger] wild(t.skip(i), a);
        lemma_literal_whole(t.skip(i), a);
    }
    if a.len() <= t.len() && t.skip(t.len() - a.len()) == a {
        lemma_literal_whole(t.skip(t.len() - a.len()), a);
        assert(wild(t.skip(t.len() - a.len()), a));
    }
}


/// Every text matches itself taken as a pattern (a `*` in it matches
/// the `*` character).
proof fn lemma_wild_self(t: Seq<char>)
    ensures
        wild(t, t),
    decreases t.len(),
{
    if t.len() > 0 {
        lemma_wild_self(t.drop_first());
        if t[0] == '*' {
            assert(t =~= seq!['*'] + t.drop_first());
            lemma_star(t, t.drop_first());
            assert(t.skip(1) =~= t.drop_first());
            assert(wild(t.skip(1), t.drop_first()));
        }
    }
}

/// What `*` means: a pattern without `*` matches only itself, and a
/// pattern `a*b` (with `a` and `b` free of `*`) matches exactly the texts
/// that start with `a` and end with `b`, these two not overlapping.
pub proof fn lemma_wildcard_meaning(t: Seq<char>, a: Seq<char>, b: Seq<char>)
    requires
        star_free(a),
        star_free(b),
    ensures
        wild(t, a) == (t == a),
        wild(t, a + seq!['*'] + b) == (a.len() + b.len() <= t.len() && t.take(a.len() as int) == a
            && t.skip(t.len() - b.len()) == b),
{
    lemma_literal_whole(t, a);
    assert(a + seq!['*'] + b == a + (seq!['*'] + b));
    lemma_literal_prefix(t, a, seq!['*'] + b);
    if a.len() <= t.len() {
        let r = t.skip(a.len() as int);
        lemma_star_suffix(r, b);
        if b.len() <= r.len() {
            assert(r.skip(r.len() - b.len()) =~= t.skip(t.len() - b.len()));
        }
    }
}

/// A name always matches a search pattern equal to it.
pub proof fn lemma_name_matches_itself(name: Seq<char>)
    ensures
        glob_spec(name, name),
{
    let f = lowercase_of(name);
    lemma_wild_self(f);
    assert(occurs_at(f, f, 0)) by {
        assert(f.subrange(0, f.len() as int) =~= f);
    }
}

/// A pattern that lower-cases to a lone `*` matches every name.
pub proof fn lemma_lone_star_matches_all(name: Seq<char>, pattern: Seq<char>)
    requires
        lowercase_of(pattern) == seq!['*'],
    ensures
        glob_spec(name, pattern),
{
    let f = lowercase_of(name);
    assert(seq!['*'].contains('*')) by {
        assert(seq!['*'][0] == '*');
    }
    assert(seq!['*'] =~= seq!['*'] + Seq::<char>::empty());
    lemma_star(f, Seq::empty());
    assert(f.skip(f.len() as int) =~= Seq::<char>::empty());
    assert(wild(f.skip(f.len() as int), Seq::<char>::empty()));
}

/// The first `*` in `p` at or after `from`.
fn star_from(p: &Vec<char>, from: usize) -> (r: Option<usize>)
    requires
        from <= p.len(),
    ensures
        match r {
            Some(e) => from <= e < p.len() && p@[e as int] == '*' && star_free(
                p@.subrange(from as int, e as int),
            ),
            None => star_free(p@.skip(from as int)),
        },
{
    let mut i: usize = from;
    while i < p.len()
        invariant
            from <= i <= p.len(),
            forall|k: int| from <= k < i ==> p@[k] != '*',
        decreases p.len() - i,
    {
        if p[i] == '*' {
            assert(forall|k: int| 0 <= k < i - from ==> #[trigger] p@.subrange(from as int, i as int)[k] == p@[from + k]);
            return Some(i);
        }
        i = i + 1;
    }
    assert(forall|k: int| 0 <= k < p.len() - from ==> #[trigger] p@.skip(from as int)[k] == p@[from + k]);
    None
}

/// The characters of `v` from `a` up to `b`.
fn slice_chars(v: &Vec<char>, a: usize, b: usize) -> (r: Vec<char>)
    requires
        a <= b <= v.len(),
    ensures
        r@ == v@.subrange(a as int, b as int),
{
    let mut r: Vec<char> = Vec::new();
    let mut i: usize = a;
    while i < b
        invariant
            a <= i <= b <= v.len(),
            r@ == v@.subrange(a as int, i as int),
        decreases b - i,
    {
        r.push(v[i]);
        assert(v@.subrange(a as int, i + 1) == v@.subrange(a as int, i as int).push(v@[i as int]));
        i = i + 1;
    }
    r
}

/// Occurrences in a tail of `f` are occurrences in `f`, shifted.
proof fn lemma_occurs_skip(f: Seq<char>, a: Seq<char>, pos: int, j: int)
    requires
        0 <= pos <= f.len(),
        0 <= j,
    ensures
        occurs_at(f.skip(pos), a, j) == occurs_at(f, a, pos + j),
{
    if j + a.len() <= f.len() - pos {
        assert(f.skip(pos).subrange(j, j + a.len()) =~= f.subrange(pos + j, pos + j + a.len()));
    }
}

/// Matches a file name against a search pattern the way the name search
/// does: both are lower-cased; a pattern with `*` must match the whole
/// name, `*` standing for any run of characters; a pattern without `*`
/// need only occur somewhere in the name.
pub fn glob_match(filename: &str, pattern: &str) -> (r: bool)
    ensures
        r == glob_spec(filename@, pattern@),
        pattern@.contains('*') ==> r == wild(lowercase_of(filename@), lowercase_of(pattern@)),
        !pattern@.contains('*') ==> r == contains_seq(lowercase_of(filename@), lowercase_of(pattern@)),
{
    let fl_s = to_lowercase(filename);
    let pl_s = to_lowercase(pattern);
    let fl = chars_of(fl_s.as_str());
    let pl = chars_of(pl_s.as_str());
    let ghost f = fl@;
    let ghost p = pl@;
    let e0 = match star_from(&pl, 0) {
        None => {
            assert(p.skip(0) == p);
            assert(!p.contains('*')) by {
                if p.contains('*') {
                    let k = choose|k: int| 0 <= k < p.len() && p[k] == '*';
                    assert(p.skip(0)[k] == '*');
                }
            }
            return contains_chars(&fl, &pl);
        },
        Some(e) => e,
    };
    assert(p.contains('*')) by {
        assert(p[e0 as int] == '*');
    }
    let mut pos: usize = 0;
    if e0 > 0 {
        let a0 = slice_chars(&pl, 0, e0);
        proof {
            assert(p =~= a0@ + (seq!['*'] + p.skip(e0 + 1)));
            lemma_literal_prefix(f, a0@, seq!['*'] + p.skip(e0 + 1));
            if a0@.len() <= f.len() {
                assert(f.take(a0@.len() as int) =~= f.subrange(0, a0@.len() as int));
            }
        }
        if !matches_at(&fl, &a0, 0) {
            return false;
        }
        pos = e0;
    } else {
        assert(p =~= seq!['*'] + p.skip(1));
        assert(f.skip(0) == f);
    }
    let mut s: usize = e0 + 1;
    loop
        invariant
            fl@ == f,
            pl@ == p,
            f == lowercase_of(filename@),
            p == lowercase_of(pattern@),
            p.contains('*'),
            pattern@.contains('*'),
            0 < s <= p.len(),
            pos <= f.len(),
            wild(f, p) == wild(f.skip(pos as int), seq!['*'] + p.skip(s as int)),
        decreases p.len() - s,
    {
        match star_from(&pl, s) {
            Some(e) => {
                let part = slice_chars(&pl, s, e);
                let ghost x = p.skip(e + 1);
                let ghost t = f.skip(pos as int);
                proof {
                    assert(seq!['*'] + p.skip(s as int) =~= seq!['*'] + part@ + seq!['*'] + x);
                    lemma_star_part(t, part@, x);
                }
                if part.len() > 0 {
                    match find_from(&fl, &part, pos) {
                        Some(j) => {
                            proof {
                                let jj = j - pos;
                                lemma_occurs_skip(f, part@, pos as int, jj);
                                assert(t.skip(jj + part@.len()) =~= f.skip(j + part@.len()));
                                if wild(t, seq!['*'] + part@ + seq!['*'] + x) {
                                    let w = choose|w: int|
                                        #[trigger] occurs_at(t, part@, w) && wild(
                                            t.skip(w + part@.len()),
                                            seq!['*'] + x,
                                        );
                                    lemma_occurs_skip(f, part@, pos as int, w);
                                    assert(t.skip(w + part@.len()) =~= f.skip(pos + w + part@.len()));
                                    lemma_star_monotone(f, x, j + part@.len(), pos + w + part@.len());
                                }
                            }
                            pos = j + part.len();
                        },
                        None => {
                            proof {
                                if wild(t, seq!['*'] + part@ + seq!['*'] + x) {
                                    let w = choose|w: int|
                                        #[trigger] occurs_at(t, part@, w) && wild(
                                            t.skip(w + part@.len()),
                                            seq!['*'] + x,
                                        );
                                    lemma_occurs_skip(f, part@, pos as int, w);
                                }
                            }
                            return false;
                        },
                    }
                } else {
                    proof {
                        assert(occurs_at(t, part@, 0)) by {
                            assert(t.subrange(0, 0) =~= part@);
                        }
                        assert(t.skip(0) == t);
                        if wild(t, seq!['*'] + part@ + seq!['*'] + x) {
                            let w = choose|w: int|
                                #[trigger] occurs_at(t, part@, w) && wild(
                                    t.skip(w + part@.len()),
                                    seq!['*'] + x,
                                );
                            lemma_star_monotone(t, x, 0, w);
                        }
                    }
                }
                s = e + 1;
            },
            None => {
                let part = slice_chars(&pl, s, pl.len());
                let ghost t = f.skip(pos as int);
                proof {
                    assert(part@ =~= p.skip(s as int));
                    lemma_star_suffix(t, part@);
                }
                if part.len() == 0 {
                    assert(t.skip(t.len() - 0) =~= part@);
                    return true;
                }
                match find_from(&fl, &part, pos) {
                    None => {
                        proof {
                            if wild(t, seq!['*'] + part@) {
                                let q = t.len() - part@.len();
                                assert(occurs_at(t, part@, q)) by {
                                    assert(t.subrange(q, q + part@.len()) =~= t.skip(q));
                                }
                                lemma_occurs_skip(f, part@, pos as int, q);
                            }
                        }
                        return false;
                    },
                    Some(j) => {
                        let ends = part.len() <= fl.len() && matches_at(&fl, &part, fl.len() - part.len());
                        proof {
                            assert(part@.len() <= t.len());
                            let q = f.len() - part@.len();
                            assert(t.skip(t.len() - part@.len()) =~= f.skip(q));
                            assert(f.subrange(q, q + part@.len()) =~= f.skip(q));
                        }
                        return ends;
                    },
                }
            },
        }
    }
}

} // verus!
