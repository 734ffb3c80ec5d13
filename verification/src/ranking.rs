//! Rankings: sequences with the best first, cut to the best few.
use crate::ids::NodeId;
use crate::scalar::Scalar;
use vstd::prelude::*;

verus! {

/// Something that can be ranked: by merit, and by a tag among those of equal merit.
pub trait Ranked: Sized {
    /// What the ranking goes by: the larger, the better.
    spec fn merit(self) -> int;

    /// What decides between equal merits: the smaller, the better.
    spec fn tag(self) -> int;

    /// Whether `self` ranks before `other`.
    fn is_ahead(&self, other: &Self) -> (b: bool)
        ensures
            b == (self.merit() > other.merit() || (self.merit() == other.merit() && self.tag()
                < other.tag())),
    ;
}

/// Whether `a` ranks before `b`.
pub open spec fn ahead<T: Ranked>(a: T, b: T) -> bool {
    a.merit() > b.merit() || (a.merit() == b.merit() && a.tag() < b.tag())
}

impl Ranked for (NodeId, Scalar) {
    open spec fn merit(self) -> int {
        self.1.key()
    }

    open spec fn tag(self) -> int {
        self.0 as int
    }

    fn is_ahead(&self, other: &Self) -> (b: bool) {
        let mine = self.1.order_key();
        let theirs = other.1.order_key();
        mine > theirs || (mine == theirs && self.0 < other.0)
    }
}

impl Ranked for (usize, Scalar) {
    open spec fn merit(self) -> int {
        self.1.key()
    }

    open spec fn tag(self) -> int {
        self.0 as int
    }

    fn is_ahead(&self, other: &Self) -> (b: bool) {
        let mine = self.1.order_key();
        let theirs = other.1.order_key();
        mine > theirs || (mine == theirs && self.0 < other.0)
    }
}

/// Whether no item ranks before one that stands in front of it.
pub open spec fn sorted<T: Ranked>(s: Seq<T>) -> bool {
    forall|i: int, j: int| 0 <= i < j < s.len() ==> !ahead(s[j], s[i])
}

/// Where `c` belongs in a ranking: behind everything that it does not rank before.
pub open spec fn slot<T: Ranked>(s: Seq<T>, c: T) -> nat
    decreases s.len(),
{
    if s.len() == 0 || !ahead(c, s.last()) {
        s.len()
    } else {
        slot(s.drop_last(), c)
    }
}

/// The ranking with `c` put in its place.
pub open spec fn place<T: Ranked>(s: Seq<T>, c: T) -> Seq<T> {
    s.insert(slot(s, c) as int, c)
}

/// The ranking of the items of `q`.
pub open spec fn ranked<T: Ranked>(q: Seq<T>) -> Seq<T>
    decreases q.len(),
{
    if q.len() == 0 {
        Seq::empty()
    } else {
        place(ranked(q.drop_last()), q.last())
    }
}

/// The first `k` items, or all of them where there are no more.
pub open spec fn first<T>(s: Seq<T>, k: nat) -> Seq<T> {
    if s.len() <= k {
        s
    } else {
        s.take(k as int)
    }
}

pub(crate) proof fn lemma_slot<T: Ranked>(s: Seq<T>, c: T)
    requires
        sorted(s),
    ensures
        slot(s, c) <= s.len(),
        forall|i: int| 0 <= i < slot(s, c) ==> !ahead(c, s[i]),
        forall|i: int| slot(s, c) <= i < s.len() ==> ahead(c, s[i]),
    decreases s.len(),
{
    if s.len() == 0 {
    } else if !ahead(c, s.last()) {
        assert forall|i: int| 0 <= i < s.len() implies !ahead(c, s[i]) by {
            if i < s.len() - 1 {
                assert(!ahead(s[s.len() - 1], s[i]));
            }
        }
    } else {
        let front = s.drop_last();
        lemma_slot(front, c);
        assert forall|i: int| 0 <= i < slot(s, c) implies !ahead(c, s[i]) by {
            assert(!ahead(c, front[i]));
        }
        assert forall|i: int| slot(s, c) <= i < s.len() implies ahead(c, s[i]) by {
            if i < front.len() {
                assert(ahead(c, front[i]));
            }
        }
    }
}

pub(crate) proof fn lemma_slot_range<T: Ranked>(s: Seq<T>, c: T)
    ensures
        slot(s, c) <= s.len(),
    decreases s.len(),
{
    if s.len() == 0 || !ahead(c, s.last()) {
    } else {
        lemma_slot_range(s.drop_last(), c);
    }
}

/// An item that does not rank before the last of the first `p` gets a place behind them.
pub(crate) proof fn lemma_slot_behind<T: Ranked>(s: Seq<T>, c: T, p: nat)
    requires
        p <= s.len(),
        p > 0 ==> !ahead(c, s[p - 1]),
    ensures
        p <= slot(s, c) <= s.len(),
    decreases s.len(),
{
    if s.len() > p && ahead(c, s.last()) {
        lemma_slot_behind(s.drop_last(), c, p);
    } else if s.len() == p && p > 0 {
        assert(s.last() == s[p - 1]);
    }
}

/// An item that ranks before all but the first `p`, and not before the last of those, gets the
/// place right behind them.
pub(crate) proof fn lemma_slot_between<T: Ranked>(s: Seq<T>, c: T, p: nat)
    requires
        p <= s.len(),
        p > 0 ==> !ahead(c, s[p - 1]),
        forall|i: int| p <= i < s.len() ==> ahead(c, #[trigger] s[i]),
    ensures
        slot(s, c) == p,
    decreases s.len(),
{
    if s.len() > p {
        assert(ahead(c, s[s.len() - 1]));
        let front = s.drop_last();
        assert forall|i: int| p <= i < front.len() implies ahead(c, #[trigger] front[i]) by {
            assert(ahead(c, s[i]));
        }
        lemma_slot_between(front, c, p);
    } else if p > 0 {
        assert(s.last() == s[p - 1]);
    }
}

/// Putting an item in its place keeps a ranking sorted.
pub proof fn lemma_place_sorted<T: Ranked>(s: Seq<T>, c: T)
    requires
        sorted(s),
    ensures
        sorted(place(s, c)),
        place(s, c).len() == s.len() + 1,
{
    lemma_slot(s, c);
}

/// What is in a ranking after an item was put in its place: what was there, and the item.
pub proof fn lemma_place_contains<T: Ranked>(s: Seq<T>, c: T)
    ensures
        place(s, c).len() == s.len() + 1,
        forall|x: T| #[trigger] place(s, c).contains(x) <==> s.contains(x) || x == c,
{
    lemma_slot_range(s, c);
    let p = slot(s, c) as int;
    let t = place(s, c);
    assert forall|x: T| #[trigger] t.contains(x) <==> s.contains(x) || x == c by {
        if t.contains(x) {
            let i = choose|i: int| 0 <= i < t.len() && t[i] == x;
            if i < p {
                assert(s[i] == x);
            } else if i > p {
                assert(s[i - 1] == x);
            }
        }
        if s.contains(x) {
            let i = choose|i: int| 0 <= i < s.len() && s[i] == x;
            if i < p {
                assert(t[i] == x);
            } else {
                assert(t[i + 1] == x);
            }
        }
        assert(t[p] == c);
    }
}

/// A ranking is sorted and holds the items that were ranked, each as often as it was there.
pub proof fn lemma_ranked<T: Ranked>(q: Seq<T>)
    ensures
        sorted(ranked(q)),
        ranked(q).len() == q.len(),
        ranked(q).to_multiset() == q.to_multiset(),
        forall|x: T| #[trigger] ranked(q).contains(x) <==> q.contains(x),
    decreases q.len(),
{
    broadcast use vstd::seq_lib::group_to_multiset_ensures;

    if q.len() > 0 {
        let front = q.drop_last();
        let c = q.last();
        lemma_ranked(front);
        lemma_place_sorted(ranked(front), c);
        lemma_place_contains(ranked(front), c);
        lemma_slot_range(ranked(front), c);
        let p = slot(ranked(front), c) as int;
        assert(q =~= front.push(c));
        assert(place(ranked(front), c) =~= ranked(front).take(p) + seq![c] + ranked(front).skip(p));
        assert(ranked(front) =~= ranked(front).take(p) + ranked(front).skip(p));
        vstd::seq_lib::lemma_multiset_commutative(ranked(front).take(p), ranked(front).skip(p));
        vstd::seq_lib::lemma_multiset_commutative(
            ranked(front).take(p) + seq![c],
            ranked(front).skip(p),
        );
        assert(ranked(front).take(p) + seq![c] =~= ranked(front).take(p).push(c));
        assert(place(ranked(front), c).to_multiset() =~= front.to_multiset().insert(c));
        assert forall|x: T| #[trigger] ranked(q).contains(x) <==> q.contains(x) by {
            if q.contains(x) {
                let i = choose|i: int| 0 <= i < q.len() && q[i] == x;
                if i < front.len() {
                    assert(front[i] == x);
                }
            }
            if front.contains(x) {
                let i = choose|i: int| 0 <= i < front.len() && front[i] == x;
                assert(q[i] == x);
            }
            assert(q[q.len() - 1] == c);
        }
    }
}

/// Ranking items of different tags gives items of different tags.
pub proof fn lemma_ranked_distinct<T: Ranked>(q: Seq<T>)
    requires
        forall|i: int, j: int|
            0 <= i < j < q.len() ==> (#[trigger] q[i]).tag() != (#[trigger] q[j]).tag(),
    ensures
        forall|i: int, j: int|
            0 <= i < j < q.len() ==> (#[trigger] ranked(q)[i]).tag() != (#[trigger] ranked(
                q,
            )[j]).tag(),
    decreases q.len(),
{
    if q.len() > 0 {
        let front = q.drop_last();
        let c = q.last();
        lemma_ranked_distinct(front);
        lemma_ranked(front);
        lemma_ranked(q);
        let s = ranked(front);
        lemma_slot_range(s, c);
        let p = slot(s, c) as int;
        assert forall|i: int| 0 <= i < s.len() implies (#[trigger] s[i]).tag() != c.tag() by {
            assert(s.contains(s[i]));
            let j = choose|j: int| 0 <= j < front.len() && front[j] == s[i];
            assert(q[j].tag() != q[q.len() - 1].tag());
        }
        let r = ranked(q);
        assert(r == s.insert(p, c));
        assert forall|i: int, j: int| 0 <= i < j < r.len() implies (#[trigger] r[i]).tag() != (
        #[trigger] r[j]).tag() by {
            let a = if i < p {
                i
            } else {
                i - 1
            };
            let b = if j < p {
                j
            } else {
                j - 1
            };
            if i != p {
                assert(r[i] == s[a]);
            }
            if j != p {
                assert(r[j] == s[b]);
            }
        }
    }
}

/// Items of different tags have one ranking, in whatever order they come.
pub proof fn lemma_sorted_unique<T: Ranked>(a: Seq<T>, b: Seq<T>)
    requires
        sorted(a),
        sorted(b),
        forall|x: T| #[trigger] a.contains(x) <==> b.contains(x),
        forall|i: int, j: int|
            0 <= i < j < a.len() ==> (#[trigger] a[i]).tag() != (#[trigger] a[j]).tag(),
        forall|i: int, j: int|
            0 <= i < j < b.len() ==> (#[trigger] b[i]).tag() != (#[trigger] b[j]).tag(),
    ensures
        a == b,
    decreases a.len(),
{
    if a.len() == 0 {
        if b.len() > 0 {
            assert(b.contains(b[0]));
            assert(a.contains(b[0]));
        }
        assert(a =~= b);
    } else {
        let x = a[a.len() - 1];
        assert(a.contains(x));
        let j = choose|j: int| 0 <= j < b.len() && b[j] == x;
        let y = b[b.len() - 1];
        assert(b.contains(y));
        assert(a.contains(y));
        let i = choose|i: int| 0 <= i < a.len() && a[i] == y;
        if j < b.len() - 1 {
            assert(!ahead(b[b.len() - 1], b[j]));
        }
        if i < a.len() - 1 {
            assert(!ahead(a[a.len() - 1], a[i]));
            assert(a[i].tag() != a[a.len() - 1].tag());
        }
        assert(x == y);
        let a1 = a.drop_last();
        let b1 = b.drop_last();
        assert forall|z: T| #[trigger] a1.contains(z) <==> b1.contains(z) by {
            if a1.contains(z) {
                let k = choose|k: int| 0 <= k < a1.len() && a1[k] == z;
                assert(a[k] == z);
                assert(a[k].tag() != a[a.len() - 1].tag());
                assert(a.contains(z));
                let m = choose|m: int| 0 <= m < b.len() && b[m] == z;
                assert(b1[m] == z);
            }
            if b1.contains(z) {
                let k = choose|k: int| 0 <= k < b1.len() && b1[k] == z;
                assert(b[k] == z);
                assert(b[k].tag() != b[b.len() - 1].tag());
                assert(b.contains(z));
                assert(a.contains(z));
                let m = choose|m: int| 0 <= m < a.len() && a[m] == z;
                assert(a1[m] == z);
            }
        }
        lemma_sorted_unique(a1, b1);
        assert(a =~= a1.push(x));
        assert(b =~= b1.push(y));
    }
}

/// To keep the best `k` it does not matter whether what ranks behind them is dropped before the
/// next item comes or after.
pub proof fn lemma_first_of_place<T: Ranked>(s: Seq<T>, c: T, k: nat)
    requires
        sorted(s),
    ensures
        first(place(s, c), k) == first(place(first(s, k), c), k),
{
    lemma_slot(s, c);
    let kept = first(s, k);
    assert(sorted(kept));
    lemma_slot(kept, c);
    if s.len() > k {
        let p = slot(s, c);
        let r = slot(kept, c);
        if p <= k {
            if p < k {
                assert(ahead(c, s[p as int]));
            }
            if r < p {
                assert(ahead(c, kept[r as int]));
                assert(!ahead(c, s[r as int]));
            }
            if p < r {
                assert(!ahead(c, kept[p as int]));
            }
            assert(p == r);
        } else if r < k {
            assert(ahead(c, kept[r as int]));
            assert(!ahead(c, s[r as int]));
        }
        assert(first(place(s, c), k) =~= first(place(kept, c), k));
    }
}

/// Of ranked items, none of the best `k` ranks behind one that is not among them.
pub proof fn lemma_first_is_best<T: Ranked>(q: Seq<T>, k: nat, x: T, y: T)
    requires
        first(ranked(q), k).contains(x),
        q.contains(y),
        !first(ranked(q), k).contains(y),
    ensures
        !ahead(y, x),
{
    lemma_ranked(q);
    let r = ranked(q);
    assert(r.contains(y));
    let f = first(r, k);
    let i = choose|i: int| 0 <= i < f.len() && f[i] == x;
    let j = choose|j: int| 0 <= j < r.len() && r[j] == y;
    assert(r[i] == x);
    if j < f.len() {
        assert(f[j] == y);
    }
}

/// Puts an item in its place in a ranking.
pub(crate) fn insert_ranked<T: Ranked>(v: &mut Vec<T>, c: T)
    ensures
        final(v)@ == place(old(v)@, c),
{
    let mut i: usize = v.len();
    assert(v@.take(i as int) =~= v@);
    while i > 0 && c.is_ahead(&v[i - 1])
        invariant
            i <= v@.len(),
            v@ == old(v)@,
            slot(v@, c) == slot(v@.take(i as int), c),
        decreases i,
    {
        assert(v@.take(i as int).drop_last() =~= v@.take(i - 1));
        i = i - 1;
    }
    v.insert(i, c);
}

/// Puts an item in its place among the best `k`.
pub(crate) fn keep_best<T: Ranked>(v: &mut Vec<T>, c: T, k: usize)
    requires
        old(v)@.len() <= k,
    ensures
        final(v)@ == first(place(old(v)@, c), k as nat),
{
    proof {
        lemma_slot_range(v@, c);
    }
    if v.len() == k && (k == 0 || !c.is_ahead(&v[k - 1])) {
        assert(first(place(v@, c), k as nat) =~= v@);
    } else {
        insert_ranked(v, c);
        v.truncate(k);
    }
}

} // verus!
