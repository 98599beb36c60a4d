//! The order of texts, and stable sorting.
use vstd::prelude::*;

use crate::table::NameSet;
use crate::text::{lemma_views_push, to_chars, views};

verus! {

// ---------------------------------------------------------------------------
// Model
// ---------------------------------------------------------------------------

/// The order of texts by their first difference. A text stands before the
/// texts that it begins.
pub open spec fn text_le(a: Seq<char>, b: Seq<char>) -> bool
    decreases a.len(),
{
    if a.len() == 0 {
        true
    } else if b.len() == 0 {
        false
    } else if a[0] != b[0] {
        a[0] < b[0]
    } else {
        text_le(a.drop_first(), b.drop_first())
    }
}

/// `le` is total and transitive on the numbers below `n`.
pub open spec fn total_preorder(le: spec_fn(int, int) -> bool, n: int) -> bool {
    &&& forall|i: int, j: int|
        0 <= i < n && 0 <= j < n ==> #[trigger] le(i, j) || le(j, i)
    &&& forall|i: int, j: int, k: int|
        0 <= i < n && 0 <= j < n && 0 <= k < n && #[trigger] le(i, j) && #[trigger] le(j, k)
            ==> le(i, k)
}

/// `i` comes before `j` in a stable sort: by `le`, and where that does not
/// decide, by position.
pub open spec fn before(le: spec_fn(int, int) -> bool, i: int, j: int) -> bool {
    le(i, j) && (!le(j, i) || i < j)
}

/// Each element comes before all later ones.
pub open spec fn ascending(le: spec_fn(int, int) -> bool, s: Seq<int>) -> bool {
    forall|a: int, b: int| 0 <= a < b < s.len() ==> before(le, #[trigger] s[a], #[trigger] s[b])
}

/// `s` with `x` at its place.
pub open spec fn placed(le: spec_fn(int, int) -> bool, s: Seq<int>, x: int) -> Seq<int>
    decreases s.len(),
{
    if s.len() == 0 || before(le, s.last(), x) {
        s.push(x)
    } else {
        placed(le, s.drop_last(), x).push(s.last())
    }
}

/// The numbers below `n` in the order of a stable sort.
pub open spec fn ranking(le: spec_fn(int, int) -> bool, n: nat) -> Seq<int>
    decreases n,
{
    if n == 0 {
        seq![]
    } else {
        placed(le, ranking(le, (n - 1) as nat), n - 1)
    }
}

/// The order of positions by the texts that stand there.
pub open spec fn by_text(keys: Seq<Seq<char>>) -> spec_fn(int, int) -> bool {
    |i: int, j: int| text_le(keys[i], keys[j])
}

/// The order of positions by the numbers that stand there, largest first.
pub open spec fn by_size(sizes: Seq<nat>) -> spec_fn(int, int) -> bool {
    |i: int, j: int| sizes[i] >= sizes[j]
}

/// The elements at the given positions.
pub open spec fn picked<A>(s: Seq<A>, at: Seq<int>) -> Seq<A> {
    at.map_values(|i: int| s[i])
}

/// `s` sorted by text, stably.
pub open spec fn sorted_by_text<A>(s: Seq<A>, keys: Seq<Seq<char>>) -> Seq<A> {
    picked(s, ranking(by_text(keys), s.len()))
}

/// Texts in order.
pub open spec fn sorted(s: Seq<Seq<char>>) -> Seq<Seq<char>> {
    sorted_by_text(s, s)
}

/// The first of each group of equal elements.
pub open spec fn distinct<A>(s: Seq<A>) -> Seq<A>
    decreases s.len(),
{
    if s.len() == 0 {
        s
    } else if s.drop_last().contains(s.last()) {
        distinct(s.drop_last())
    } else {
        distinct(s.drop_last()).push(s.last())
    }
}

pub open spec fn ints(s: Seq<usize>) -> Seq<int> {
    s.map_values(|x: usize| x as int)
}

// ---------------------------------------------------------------------------
// Lemmas
// ---------------------------------------------------------------------------

pub proof fn lemma_text_le_total(a: Seq<char>, b: Seq<char>)
    ensures
        text_le(a, b) || text_le(b, a),
        text_le(a, b) && text_le(b, a) ==> a == b,
    decreases a.len(),
{
    if a.len() > 0 && b.len() > 0 && a[0] == b[0] {
        lemma_text_le_total(a.drop_first(), b.drop_first());
        if text_le(a, b) && text_le(b, a) {
            assert(a =~= seq![a[0]] + a.drop_first());
            assert(b =~= seq![b[0]] + b.drop_first());
        }
    } else if a.len() == 0 && b.len() == 0 {
        assert(a =~= b);
    }
}

pub proof fn lemma_text_le_transitive(a: Seq<char>, b: Seq<char>, c: Seq<char>)
    requires
        text_le(a, b),
        text_le(b, c),
    ensures
        text_le(a, c),
    decreases a.len(),
{
    if a.len() > 0 && b.len() > 0 && c.len() > 0 && a[0] == b[0] && b[0] == c[0] {
        lemma_text_le_transitive(a.drop_first(), b.drop_first(), c.drop_first());
    }
}

pub proof fn lemma_by_text(keys: Seq<Seq<char>>)
    ensures
        total_preorder(by_text(keys), keys.len() as int),
{
    let le = by_text(keys);
    assert forall|i: int, j: int| #[trigger] le(i, j) || le(j, i) by {
        lemma_text_le_total(keys[i], keys[j]);
    }
    assert forall|i: int, j: int, k: int| #[trigger] le(i, j) && #[trigger] le(j, k) implies le(
        i,
        k,
    ) by {
        lemma_text_le_transitive(keys[i], keys[j], keys[k]);
    }
}

proof fn lemma_placed(le: spec_fn(int, int) -> bool, s: Seq<int>, x: int, n: int)
    requires
        total_preorder(le, n),
        0 <= x < n,
        forall|a: int| 0 <= a < s.len() ==> 0 <= #[trigger] s[a] < n && s[a] != x,
        ascending(le, s),
    ensures
        ascending(le, placed(le, s, x)),
        placed(le, s, x).len() == s.len() + 1,
        forall|y: int| #[trigger] placed(le, s, x).contains(y) <==> s.contains(y) || y == x,
    decreases s.len(),
{
    let r = placed(le, s, x);
    if s.len() == 0 || before(le, s.last(), x) {
        assert forall|a: int, b: int| 0 <= a < b < r.len() implies before(
            le,
            #[trigger] r[a],
            #[trigger] r[b],
        ) by {
            if b == s.len() {
                if a < s.len() - 1 {
                    assert(before(le, s[a], s[s.len() - 1]));
                }
            }
        }
        assert forall|y: int| #[trigger] r.contains(y) <==> s.contains(y) || y == x by {
            if r.contains(y) {
                let k = r.index_of(y);
                if k < s.len() {
                    assert(s[k] == y);
                }
            }
            if s.contains(y) {
                assert(r[s.index_of(y)] == y);
            }
            assert(r[s.len() as int] == x);
        }
    } else {
        let d = s.drop_last();
        lemma_placed(le, d, x, n);
        let p = placed(le, d, x);
        let z = s.last();
        assert(before(le, x, z));
        assert forall|a: int, b: int| 0 <= a < b < r.len() implies before(
            le,
            #[trigger] r[a],
            #[trigger] r[b],
        ) by {
            if b == p.len() {
                assert(p.contains(p[a]));
                if p[a] != x {
                    assert(d.contains(p[a]));
                    let k = d.index_of(p[a]);
                    assert(before(le, s[k], s[s.len() - 1]));
                }
            }
        }
        assert forall|y: int| #[trigger] r.contains(y) <==> s.contains(y) || y == x by {
            if r.contains(y) {
                let k = r.index_of(y);
                if k < p.len() {
                    assert(p.contains(p[k]));
                    if y != x {
                        assert(d.contains(y));
                        assert(s[d.index_of(y)] == y);
                    }
                } else {
                    assert(s[s.len() - 1] == y);
                }
            }
            if s.contains(y) {
                let k = s.index_of(y);
                if k < s.len() - 1 {
                    assert(d[k] == y);
                    assert(p.contains(y));
                    assert(r[p.index_of(y)] == y);
                } else {
                    assert(r[p.len() as int] == y);
                }
            }
            if y == x {
                assert(p.contains(x));
                assert(r[p.index_of(x)] == x);
            }
        }
    }
}

/// A ranking holds each position once, in order.
pub proof fn lemma_ranking(le: spec_fn(int, int) -> bool, n: nat)
    requires
        total_preorder(le, n as int),
    ensures
        ranking(le, n).len() == n,
        ascending(le, ranking(le, n)),
        forall|y: int| #[trigger] ranking(le, n).contains(y) <==> 0 <= y < n,
    decreases n,
{
    if n > 0 {
        let m = (n - 1) as nat;
        lemma_ranking(le, m);
        let s = ranking(le, m);
        assert forall|a: int| 0 <= a < s.len() implies 0 <= #[trigger] s[a] < n && s[a] != m by {
            assert(s.contains(s[a]));
        }
        lemma_placed(le, s, m as int, n as int);
    }
}

/// Two ascending sequences of the same positions are the same.
proof fn lemma_ascending_unique(le: spec_fn(int, int) -> bool, s: Seq<int>, t: Seq<int>)
    requires
        ascending(le, s),
        ascending(le, t),
        forall|y: int| #[trigger] s.contains(y) <==> t.contains(y),
    ensures
        s == t,
    decreases s.len(),
{
    if s.len() == 0 {
        if t.len() > 0 {
            assert(t.contains(t[0]));
            assert(s.contains(t[0]));
        }
        assert(s =~= t);
    } else {
        assert(s.contains(s[s.len() - 1]));
        let k = t.index_of(s.last());
        assert(s.contains(t[t.len() - 1])) by {
            assert(t.contains(t[t.len() - 1]));
        }
        let j = s.index_of(t.last());
        if k < t.len() - 1 {
            assert(before(le, t[k], t[t.len() - 1]));
            if j < s.len() - 1 {
                assert(before(le, s[j], s[s.len() - 1]));
            }
            assert(false);
        }
        let s1 = s.drop_last();
        let t1 = t.drop_last();
        assert forall|y: int| #[trigger] s1.contains(y) <==> t1.contains(y) by {
            if s1.contains(y) {
                let a = s1.index_of(y);
                assert(s[a] == y);
                assert(s.contains(y));
                let b = t.index_of(y);
                assert(before(le, s[a], s[s.len() - 1]));
                assert(t1[b] == y);
            }
            if t1.contains(y) {
                let a = t1.index_of(y);
                assert(t[a] == y);
                assert(t.contains(y));
                assert(s.contains(y));
                let b = s.index_of(y);
                assert(before(le, t[a], t[t.len() - 1]));
                assert(s1[b] == y);
            }
        }
        lemma_ascending_unique(le, s1, t1);
        assert(s =~= s1.push(s.last()));
        assert(t =~= t1.push(t.last()));
    }
}

/// What holds the positions below `n` in ascending order is their ranking.
proof fn lemma_is_ranking(le: spec_fn(int, int) -> bool, s: Seq<int>, n: nat)
    requires
        total_preorder(le, n as int),
        ascending(le, s),
        forall|y: int| #[trigger] s.contains(y) <==> 0 <= y < n,
    ensures
        s == ranking(le, n),
{
    lemma_ranking(le, n);
    lemma_ascending_unique(le, s, ranking(le, n));
}

/// Sorting keeps the elements: each stands in the result, and nothing else does.
/// The result is in order.
pub proof fn lemma_sorted(s: Seq<Seq<char>>)
    ensures
        sorted(s).len() == s.len(),
        forall|x: Seq<char>| #[trigger] sorted(s).contains(x) <==> s.contains(x),
        forall|i: int, j: int|
            0 <= i <= j < s.len() ==> text_le(#[trigger] sorted(s)[i], #[trigger] sorted(s)[j]),
{
    let le = by_text(s);
    let rank = ranking(le, s.len());
    lemma_by_text(s);
    lemma_ranking(le, s.len());
    assert forall|x: Seq<char>| #[trigger] sorted(s).contains(x) <==> s.contains(x) by {
        if sorted(s).contains(x) {
            let k = sorted(s).index_of(x);
            assert(rank.contains(rank[k]));
            assert(s[rank[k]] == x);
        }
        if s.contains(x) {
            let k = s.index_of(x);
            assert(rank.contains(k));
            assert(sorted(s)[rank.index_of(k)] == x);
        }
    }
    assert forall|i: int, j: int| 0 <= i <= j < s.len() implies text_le(
        #[trigger] sorted(s)[i],
        #[trigger] sorted(s)[j],
    ) by {
        if i < j {
            assert(before(le, rank[i], rank[j]));
        } else {
            lemma_text_le_total(sorted(s)[i], sorted(s)[i]);
        }
    }
}

/// Sorting by text keeps the elements: each comes from a position of its own, and
/// the texts that stand there are in order.
pub proof fn lemma_sorted_by_text<A>(s: Seq<A>, keys: Seq<Seq<char>>)
    requires
        s.len() == keys.len(),
    ensures
        sorted_by_text(s, keys).len() == s.len(),
        forall|x: A| #[trigger] sorted_by_text(s, keys).contains(x) <==> s.contains(x),
        forall|i: int|
            0 <= i < s.len() ==> 0 <= #[trigger] ranking(by_text(keys), s.len())[i] < s.len()
                && sorted_by_text(s, keys)[i] == s[ranking(by_text(keys), s.len())[i]],
        forall|i: int, j: int|
            0 <= i < j < s.len() ==> text_le(
                keys[#[trigger] ranking(by_text(keys), s.len())[i]],
                keys[#[trigger] ranking(by_text(keys), s.len())[j]],
            ) && ranking(by_text(keys), s.len())[i] != ranking(by_text(keys), s.len())[j],
{
    let le = by_text(keys);
    let rank = ranking(le, s.len());
    let r = sorted_by_text(s, keys);
    lemma_by_text(keys);
    lemma_ranking(le, s.len());
    assert forall|i: int| 0 <= i < s.len() implies 0 <= #[trigger] rank[i] < s.len() by {
        assert(rank.contains(rank[i]));
    }
    assert forall|x: A| #[trigger] r.contains(x) <==> s.contains(x) by {
        if r.contains(x) {
            let k = r.index_of(x);
            assert(rank.contains(rank[k]));
            assert(s[rank[k]] == x);
        }
        if s.contains(x) {
            let k = s.index_of(x);
            assert(rank.contains(k));
            assert(r[rank.index_of(k)] == x);
        }
    }
    assert forall|i: int, j: int| 0 <= i < j < s.len() implies text_le(
        keys[#[trigger] rank[i]],
        keys[#[trigger] rank[j]],
    ) && rank[i] != rank[j] by {
        assert(before(le, rank[i], rank[j]));
    }
}

/// Dropping repeated elements keeps one of each.
pub proof fn lemma_distinct<A>(s: Seq<A>)
    ensures
        distinct(s).no_duplicates(),
        forall|x: A| #[trigger] distinct(s).contains(x) <==> s.contains(x),
    decreases s.len(),
{
    if s.len() > 0 {
        let d = s.drop_last();
        lemma_distinct(d);
        let r = distinct(s);
        assert forall|x: A| #[trigger] r.contains(x) <==> s.contains(x) by {
            if r.contains(x) {
                let k = r.index_of(x);
                if k < distinct(d).len() {
                    assert(distinct(d)[k] == x);
                    assert(distinct(d).contains(x));
                    assert(s[d.index_of(x)] == x);
                } else {
                    assert(s[s.len() - 1] == x);
                }
            }
            if s.contains(x) {
                let k = s.index_of(x);
                if k < s.len() - 1 {
                    assert(d[k] == x);
                    assert(distinct(d).contains(x));
                    assert(r[distinct(d).index_of(x)] == x);
                } else if d.contains(x) {
                    assert(distinct(d).contains(x));
                } else {
                    assert(r[distinct(d).len() as int] == x);
                }
            }
        }
        if !d.contains(s.last()) {
            assert(!distinct(d).contains(s.last()));
        }
    }
}

/// Sorting distinct texts gives each of them once, in order.
pub proof fn lemma_sorted_distinct(s: Seq<Seq<char>>)
    ensures
        forall|x: Seq<char>| #[trigger] sorted(distinct(s)).contains(x) <==> s.contains(x),
        forall|i: int, j: int|
            0 <= i < j < sorted(distinct(s)).len() ==> text_le(
                #[trigger] sorted(distinct(s))[i],
                #[trigger] sorted(distinct(s))[j],
            ) && sorted(distinct(s))[i] != sorted(distinct(s))[j],
{
    let d = distinct(s);
    lemma_distinct(s);
    lemma_sorted(d);
    lemma_by_text(d);
    lemma_ranking(by_text(d), d.len());
    let rank = ranking(by_text(d), d.len());
    assert forall|i: int, j: int| 0 <= i < j < sorted(d).len() implies text_le(
        #[trigger] sorted(d)[i],
        #[trigger] sorted(d)[j],
    ) && sorted(d)[i] != sorted(d)[j] by {
        assert(rank.contains(rank[i]) && rank.contains(rank[j]));
        assert(before(by_text(d), rank[i], rank[j]));
        assert(rank[i] != rank[j]);
        assert(d[rank[i]] != d[rank[j]]);
    }
}

/// What has no repeated elements stays.
pub proof fn lemma_distinct_same<A>(s: Seq<A>)
    requires
        s.no_duplicates(),
    ensures
        distinct(s) == s,
    decreases s.len(),
{
    if s.len() > 0 {
        let d = s.drop_last();
        lemma_distinct_same(d);
        if d.contains(s.last()) {
            let k = d.index_of(s.last());
            assert(s[k] == s[s.len() - 1]);
        }
        assert(d.push(s.last()) =~= s);
    }
}

/// One more of an element that is there changes nothing.
pub proof fn lemma_distinct_more<A>(s: Seq<A>, x: A)
    requires
        s.contains(x),
    ensures
        distinct(s.push(x)) == distinct(s),
{
    assert(s.push(x).drop_last() =~= s);
}

// ---------------------------------------------------------------------------
// Sorting
// ---------------------------------------------------------------------------

/// What a list can be sorted by.
pub trait SortKey: Sized {
    spec fn le(&self, other: &Self) -> bool;

    proof fn lemma_order(a: &Self, b: &Self, c: &Self)
        ensures
            a.le(b) || b.le(a),
            a.le(b) && b.le(c) ==> a.le(c),
    ;

    fn not_after(&self, other: &Self) -> (r: bool)
        ensures
            r == self.le(other),
    ;
}

/// Sorts by text.
pub struct TextKey {
    pub chars: Vec<char>,
}

impl SortKey for TextKey {
    open spec fn le(&self, other: &Self) -> bool {
        text_le(self.chars@, other.chars@)
    }

    proof fn lemma_order(a: &Self, b: &Self, c: &Self) {
        lemma_text_le_total(a.chars@, b.chars@);
        if a.le(b) && b.le(c) {
            lemma_text_le_transitive(a.chars@, b.chars@, c.chars@);
        }
    }

    fn not_after(&self, other: &Self) -> (r: bool) {
        let a: &Vec<char> = &self.chars;
        let b: &Vec<char> = &other.chars;
        let mut i: usize = 0;
        proof {
            assert(a@.skip(0) =~= a@);
            assert(b@.skip(0) =~= b@);
        }
        while i < a.len() && i < b.len()
            invariant
                i <= a@.len(),
                i <= b@.len(),
                a@ == self.chars@,
                b@ == other.chars@,
                text_le(a@, b@) == text_le(a@.skip(i as int), b@.skip(i as int)),
            decreases a@.len() - i,
        {
            if a[i] != b[i] {
                return a[i] < b[i];
            }
            proof {
                assert(a@.skip(i as int).drop_first() =~= a@.skip(i as int + 1));
                assert(b@.skip(i as int).drop_first() =~= b@.skip(i as int + 1));
            }
            i += 1;
        }
        i == a.len()
    }
}

/// Sorts by size, largest first.
pub struct SizeKey {
    pub size: usize,
}

impl SortKey for SizeKey {
    open spec fn le(&self, other: &Self) -> bool {
        self.size >= other.size
    }

    proof fn lemma_order(a: &Self, b: &Self, c: &Self) {
    }

    fn not_after(&self, other: &Self) -> (r: bool) {
        self.size >= other.size
    }
}

/// The order of positions by the keys that stand there.
pub open spec fn by_key<K: SortKey>(keys: Seq<K>) -> spec_fn(int, int) -> bool {
    |i: int, j: int| keys[i].le(&keys[j])
}

pub proof fn lemma_by_key<K: SortKey>(keys: Seq<K>)
    ensures
        total_preorder(by_key(keys), keys.len() as int),
{
    let le = by_key(keys);
    assert forall|i: int, j: int| #[trigger] le(i, j) || le(j, i) by {
        K::lemma_order(&keys[i], &keys[j], &keys[j]);
    }
    assert forall|i: int, j: int, k: int| #[trigger] le(i, j) && #[trigger] le(j, k) implies le(
        i,
        k,
    ) by {
        K::lemma_order(&keys[i], &keys[j], &keys[k]);
    }
}

/// The positions of two ascending lists in one ascending list.
fn merge<K: SortKey>(keys: &Vec<K>, a: &Vec<usize>, b: &Vec<usize>) -> (r: Vec<usize>)
    requires
        forall|i: int| 0 <= i < a@.len() ==> (#[trigger] a@[i]) < keys@.len(),
        forall|i: int| 0 <= i < b@.len() ==> (#[trigger] b@[i]) < keys@.len(),
        forall|i: int, j: int|
            0 <= i < a@.len() && 0 <= j < b@.len() ==> (#[trigger] a@[i]) < (#[trigger] b@[j]),
        ascending(by_key(keys@), ints(a@)),
        ascending(by_key(keys@), ints(b@)),
    ensures
        ascending(by_key(keys@), ints(r@)),
        forall|x: usize| #[trigger] r@.contains(x) <==> a@.contains(x) || b@.contains(x),
{
    let ghost le = by_key(keys@);
    let mut r: Vec<usize> = Vec::new();
    let mut i: usize = 0;
    let mut j: usize = 0;
    proof {
        lemma_by_key(keys@);
        assert(a@.take(0) =~= seq![]);
        assert(b@.take(0) =~= seq![]);
    }
    while i < a.len() || j < b.len()
        invariant
            i <= a@.len(),
            j <= b@.len(),
            le == by_key(keys@),
            total_preorder(le, keys@.len() as int),
            forall|k: int| 0 <= k < a@.len() ==> (#[trigger] a@[k]) < keys@.len(),
            forall|k: int| 0 <= k < b@.len() ==> (#[trigger] b@[k]) < keys@.len(),
            forall|k: int, m: int|
                0 <= k < a@.len() && 0 <= m < b@.len() ==> (#[trigger] a@[k]) < (#[trigger] b@[m]),
            ascending(le, ints(a@)),
            ascending(le, ints(b@)),
            ascending(le, ints(r@)),
            forall|x: usize| #[trigger]
                r@.contains(x) <==> a@.take(i as int).contains(x) || b@.take(j as int).contains(x),
            forall|k: int, m: int|
                0 <= k < r@.len() && i <= m < a@.len() ==> before(
                    le,
                    (#[trigger] r@[k]) as int,
                    (#[trigger] a@[m]) as int,
                ),
            forall|k: int, m: int|
                0 <= k < r@.len() && j <= m < b@.len() ==> before(
                    le,
                    (#[trigger] r@[k]) as int,
                    (#[trigger] b@[m]) as int,
                ),
        decreases a@.len() - i + b@.len() - j,
    {
        let from_a: bool = if i == a.len() {
            false
        } else if j == b.len() {
            true
        } else {
            keys[a[i]].not_after(&keys[b[j]])
        };
        let ghost r0 = r@;
        let x: usize = if from_a {
            a[i]
        } else {
            b[j]
        };
        r.push(x);
        proof {
            let ia = ints(a@);
            let ib = ints(b@);
            assert(a@.take(i as int + 1) =~= if i < a@.len() {
                a@.take(i as int).push(a@[i as int])
            } else {
                a@.take(i as int + 1)
            });
            assert(b@.take(j as int + 1) =~= if j < b@.len() {
                b@.take(j as int).push(b@[j as int])
            } else {
                b@.take(j as int + 1)
            });
            // x comes before all that is left.
            assert forall|m: int| i <= m < a@.len() && (!from_a || m > i) implies before(
                le,
                x as int,
                (#[trigger] a@[m]) as int,
            ) by {
                assert(ia[m] == a@[m]);
                assert(ia[i as int] == a@[i as int]);
                if from_a {
                    assert(before(le, ia[i as int], ia[m]));
                } else {
                    assert(le(b@[j as int] as int, a@[i as int] as int));
                    assert(!le(a@[i as int] as int, b@[j as int] as int));
                    if m > i {
                        assert(before(le, ia[i as int], ia[m]));
                    }
                }
            }
            assert forall|m: int| j <= m < b@.len() && (from_a || m > j) implies before(
                le,
                x as int,
                (#[trigger] b@[m]) as int,
            ) by {
                assert(ib[m] == b@[m]);
                assert(ib[j as int] == b@[j as int]);
                if !from_a {
                    assert(before(le, ib[j as int], ib[m]));
                } else {
                    assert(le(a@[i as int] as int, b@[j as int] as int));
                    assert(a@[i as int] < b@[m]);
                    if m > j {
                        assert(before(le, ib[j as int], ib[m]));
                    }
                }
            }
            let ir = ints(r@);
            assert forall|p: int, q: int| 0 <= p < q < ir.len() implies before(
                le,
                #[trigger] ir[p],
                #[trigger] ir[q],
            ) by {
                let i0 = ints(r0);
                assert(ir[p] == r@[p]);
                assert(i0[p] == r0[p]);
                if q == r0.len() {
                    assert(r0[p] == r@[p]);
                } else {
                    assert(i0[q] == r0[q]);
                    assert(before(le, i0[p], i0[q]));
                }
            }
            assert forall|y: usize| #[trigger] r@.contains(y) <==> r0.contains(y) || y == x by {
                if r@.contains(y) {
                    let k = r@.index_of(y);
                    if k < r0.len() {
                        assert(r0[k] == y);
                    }
                }
                if r0.contains(y) {
                    assert(r@[r0.index_of(y)] == y);
                }
                assert(r@[r0.len() as int] == x);
            }
            let ta = a@.take(i as int);
            let tb = b@.take(j as int);
            assert forall|y: usize|
                from_a implies (#[trigger] ta.push(x).contains(y) <==> ta.contains(y) || y
                == x) by {
                if ta.contains(y) {
                    assert(ta.push(x)[ta.index_of(y)] == y);
                }
                assert(ta.push(x)[ta.len() as int] == x);
                if ta.push(x).contains(y) {
                    let k = ta.push(x).index_of(y);
                    if k < ta.len() {
                        assert(ta[k] == y);
                    }
                }
            }
            assert forall|y: usize|
                !from_a implies (#[trigger] tb.push(x).contains(y) <==> tb.contains(y) || y
                == x) by {
                if tb.contains(y) {
                    assert(tb.push(x)[tb.index_of(y)] == y);
                }
                assert(tb.push(x)[tb.len() as int] == x);
                if tb.push(x).contains(y) {
                    let k = tb.push(x).index_of(y);
                    if k < tb.len() {
                        assert(tb[k] == y);
                    }
                }
            }
        }
        if from_a {
            i += 1;
        } else {
            j += 1;
        }
    }
    proof {
        assert(a@.take(i as int) =~= a@);
        assert(b@.take(j as int) =~= b@);
    }
    r
}

/// The positions from `lo` up to `hi` in the order of a stable sort.
fn sort_range<K: SortKey>(keys: &Vec<K>, lo: usize, hi: usize) -> (r: Vec<usize>)
    requires
        lo <= hi <= keys@.len(),
    ensures
        ascending(by_key(keys@), ints(r@)),
        forall|x: usize| #[trigger] r@.contains(x) <==> lo <= x < hi,
    decreases hi - lo,
{
    let mut r: Vec<usize> = Vec::new();
    if lo == hi {
        return r;
    }
    if hi - lo == 1 {
        r.push(lo);
        proof {
            assert(r@[0] == lo);
        }
        return r;
    }
    let mid: usize = lo + (hi - lo) / 2;
    let a: Vec<usize> = sort_range(keys, lo, mid);
    let b: Vec<usize> = sort_range(keys, mid, hi);
    proof {
        assert forall|i: int| 0 <= i < a@.len() implies lo <= (#[trigger] a@[i]) < mid by {
            assert(a@.contains(a@[i]));
        }
        assert forall|i: int| 0 <= i < b@.len() implies mid <= (#[trigger] b@[i]) < hi by {
            assert(b@.contains(b@[i]));
        }
    }
    merge(keys, &a, &b)
}

/// The positions of the keys in the order of a stable sort.
pub fn sort_positions<K: SortKey>(keys: &Vec<K>) -> (r: Vec<usize>)
    ensures
        ints(r@) == ranking(by_key(keys@), keys@.len()),
        r@.len() == keys@.len(),
        forall|i: int| 0 <= i < r@.len() ==> (#[trigger] r@[i]) < keys@.len(),
{
    let r: Vec<usize> = sort_range(keys, 0, keys.len());
    let n: usize = keys.len();
    proof {
        let le = by_key(keys@);
        lemma_by_key(keys@);
        assert forall|y: int| #[trigger] ints(r@).contains(y) <==> 0 <= y < keys@.len() by {
            if ints(r@).contains(y) {
                let k = ints(r@).index_of(y);
                assert(r@.contains(r@[k]));
            }
            if 0 <= y < keys@.len() {
                assert(r@.contains(y as usize));
                let k = r@.index_of(y as usize);
                assert(ints(r@)[k] == y);
            }
        }
        lemma_is_ranking(le, ints(r@), keys@.len());
        lemma_ranking(le, keys@.len());
        assert forall|i: int| 0 <= i < r@.len() implies (#[trigger] r@[i]) < keys@.len() by {
            assert(r@.contains(r@[i]));
        }
    }
    r
}

/// The positions of texts in the order of a stable sort.
pub fn text_positions(texts: &Vec<String>) -> (r: Vec<usize>)
    ensures
        ints(r@) == ranking(by_text(views(texts@)), texts@.len()),
        r@.len() == texts@.len(),
        forall|i: int| 0 <= i < r@.len() ==> (#[trigger] r@[i]) < texts@.len(),
{
    let mut keys: Vec<TextKey> = Vec::new();
    let mut i: usize = 0;
    while i < texts.len()
        invariant
            i <= texts@.len(),
            keys@.len() == i,
            forall|k: int| 0 <= k < i ==> (#[trigger] keys@[k]).chars@ == texts@[k]@,
        decreases texts@.len() - i,
    {
        keys.push(TextKey { chars: to_chars(&texts[i]) });
        i += 1;
    }
    let r: Vec<usize> = sort_positions(&keys);
    proof {
        lemma_by_key(keys@);
        lemma_ranking_agrees(by_key(keys@), by_text(views(texts@)), texts@.len());
    }
    r
}

/// A ranking depends on the order of the positions below `n` alone.
pub proof fn lemma_ranking_agrees(
    f: spec_fn(int, int) -> bool,
    g: spec_fn(int, int) -> bool,
    n: nat,
)
    requires
        total_preorder(f, n as int),
        forall|i: int, j: int| 0 <= i < n && 0 <= j < n ==> f(i, j) == #[trigger] g(i, j),
    ensures
        ranking(f, n) == ranking(g, n),
        total_preorder(g, n as int),
{
    assert forall|i: int, j: int| 0 <= i < n && 0 <= j < n implies #[trigger] g(i, j) || g(j, i) by {
        assert(f(i, j) || f(j, i));
    }
    assert forall|i: int, j: int, k: int|
        0 <= i < n && 0 <= j < n && 0 <= k < n && #[trigger] g(i, j) && #[trigger] g(j, k) implies g(
        i,
        k,
    ) by {
        assert(f(i, j) && f(j, k));
    }
    lemma_ranking(f, n);
    let s = ranking(f, n);
    assert(ascending(g, s)) by {
        assert forall|a: int, b: int| 0 <= a < b < s.len() implies before(
            g,
            #[trigger] s[a],
            #[trigger] s[b],
        ) by {
            assert(before(f, s[a], s[b]));
            assert(s.contains(s[a]) && s.contains(s[b]));
            assert(f(s[a], s[b]) == g(s[a], s[b]));
            assert(f(s[b], s[a]) == g(s[b], s[a]));
        }
    }
    lemma_is_ranking(g, s, n);
}

/// Texts in order.
pub fn sort_texts(texts: &Vec<String>) -> (r: Vec<String>)
    ensures
        views(r@) == sorted(views(texts@)),
        r@.len() == texts@.len(),
{
    let at: Vec<usize> = text_positions(texts);
    let mut r: Vec<String> = Vec::new();
    let mut i: usize = 0;
    while i < at.len()
        invariant
            i <= at@.len(),
            forall|k: int| 0 <= k < at@.len() ==> (#[trigger] at@[k]) < texts@.len(),
            r@.len() == i,
            forall|k: int| 0 <= k < i ==> (#[trigger] r@[k])@ == texts@[at@[k] as int]@,
        decreases at@.len() - i,
    {
        r.push(texts[at[i]].clone());
        i += 1;
    }
    proof {
        let v = views(texts@);
        let rank = ranking(by_text(v), texts@.len());
        assert forall|k: int| 0 <= k < r@.len() implies views(r@)[k] == sorted(v)[k] by {
            assert(ints(at@)[k] == at@[k]);
            assert(r@[k]@ == texts@[at@[k] as int]@);
        }
        assert(views(r@) =~= sorted(v));
    }
    r
}

/// The distinct strings of a list, each where it came first.
pub fn unique(list: &Vec<String>) -> (r: Vec<String>)
    ensures
        views(r@) == distinct(views(list@)),
{
    let ghost v = views(list@);
    let mut seen: NameSet = NameSet::new();
    let mut r: Vec<String> = Vec::new();
    let mut i: usize = 0;
    proof {
        assert(views(r@) =~= distinct(v.take(0)));
    }
    while i < list.len()
        invariant
            i <= list@.len(),
            v == views(list@),
            views(r@) == distinct(v.take(i as int)),
            forall|x: Seq<char>| seen@.contains(x) <==> #[trigger] v.take(i as int).contains(x),
        decreases list@.len() - i,
    {
        let s: String = list[i].clone();
        let ghost t0 = v.take(i as int);
        let ghost t1 = v.take(i as int + 1);
        proof {
            assert(t1.drop_last() =~= t0);
            assert(t1.last() == s@);
            lemma_views_push(r@, s);
            assert(t1 =~= t0.push(s@));
            assert forall|x: Seq<char>| #[trigger] t1.contains(x) <==> t0.contains(x) || x == s@ by {
                if t1.contains(x) {
                    let k = t1.index_of(x);
                    if k < t0.len() {
                        assert(t0[k] == x);
                    }
                }
                if t0.contains(x) {
                    assert(t1[t0.index_of(x)] == x);
                }
                assert(t1[t0.len() as int] == s@);
            }
        }
        if seen.insert(s.clone()) {
            r.push(s);
        }
        i += 1;
    }
    proof {
        assert(v.take(i as int) =~= v);
    }
    r
}

} // verus!
