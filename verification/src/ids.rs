//! Sets of node identifiers, walked in ascending order.
use std::collections::BTreeMap;
use std::collections::BTreeSet;
use vstd::prelude::*;
use vstd::std_specs::cmp::OrdSpec;
use vstd::std_specs::iter::IteratorSpec;

verus! {

/// The identifier of a node.
pub type NodeId = u32;

/// The identifiers of the set that are less than `bound`, ascending.
pub open spec fn ids_below(s: Set<NodeId>, bound: nat) -> Seq<NodeId>
    decreases bound,
{
    if bound == 0 {
        Seq::empty()
    } else {
        let below = ids_below(s, (bound - 1) as nat);
        if s.contains((bound - 1) as NodeId) {
            below.push((bound - 1) as NodeId)
        } else {
            below
        }
    }
}

/// The identifiers of the set, ascending.
pub open spec fn ascending(s: Set<NodeId>) -> Seq<NodeId> {
    ids_below(s, 0x1_0000_0000)
}

/// Whether each identifier is greater than the one before it.
pub open spec fn increasing(q: Seq<NodeId>) -> bool {
    forall|i: int, j: int| 0 <= i < j < q.len() ==> q[i] < q[j]
}

proof fn lemma_ids_below(s: Set<NodeId>, bound: nat)
    requires
        bound <= 0x1_0000_0000,
    ensures
        increasing(ids_below(s, bound)),
        forall|x: NodeId| #[trigger]
            ids_below(s, bound).contains(x) <==> s.contains(x) && x < bound,
    decreases bound,
{
    if bound > 0 {
        let below = ids_below(s, (bound - 1) as nat);
        let last = (bound - 1) as NodeId;
        lemma_ids_below(s, (bound - 1) as nat);
        assert forall|i: int| 0 <= i < below.len() implies below[i] < bound - 1 by {
            assert(below.contains(below[i]));
        }
        assert forall|x: NodeId| #[trigger]
            ids_below(s, bound).contains(x) <==> s.contains(x) && x < bound by {
            if s.contains(last) {
                assert(below.push(last)[below.len() as int] == last);
                if below.contains(x) {
                    let i = choose|i: int| 0 <= i < below.len() && below[i] == x;
                    assert(below.push(last)[i] == x);
                }
            }
        }
    }
}

/// `ascending` lists exactly the members of the set, each once, the smallest first.
pub proof fn lemma_ascending(s: Set<NodeId>)
    ensures
        increasing(ascending(s)),
        ascending(s).no_duplicates(),
        forall|x: NodeId| #[trigger] ascending(s).contains(x) <==> s.contains(x),
        ascending(s).to_set() == s,
{
    lemma_ids_below(s, 0x1_0000_0000);
    assert(ascending(s).to_set() =~= s);
}

/// A set has one ascending listing.
pub proof fn lemma_increasing_unique(a: Seq<NodeId>, b: Seq<NodeId>)
    requires
        increasing(a),
        increasing(b),
        forall|x: NodeId| #[trigger] a.contains(x) <==> b.contains(x),
    ensures
        a == b,
    decreases a.len(),
{
    if a.len() == 0 {
        if b.len() > 0 {
            assert(b.contains(b[0]));
            assert(a.contains(b[0]));
        }
        assert(a =~= b);
    } else {
        let x = a.last();
        assert(a.contains(a[a.len() - 1]));
        let j = choose|j: int| 0 <= j < b.len() && b[j] == x;
        let y = b.last();
        assert(b.contains(b[b.len() - 1]));
        assert(a.contains(y));
        let i = choose|i: int| 0 <= i < a.len() && a[i] == y;
        assert(x == y);
        let a1 = a.drop_last();
        let b1 = b.drop_last();
        assert forall|z: NodeId| #[trigger] a1.contains(z) <==> b1.contains(z) by {
            if a1.contains(z) {
                let k = choose|k: int| 0 <= k < a1.len() && a1[k] == z;
                assert(a[k] == z);
                assert(a.contains(z));
                let m = choose|m: int| 0 <= m < b.len() && b[m] == z;
                assert(b1[m] == z);
            }
            if b1.contains(z) {
                let k = choose|k: int| 0 <= k < b1.len() && b1[k] == z;
                assert(b[k] == z);
                assert(b.contains(z));
                assert(a.contains(z));
                let m = choose|m: int| 0 <= m < a.len() && a[m] == z;
                assert(a1[m] == z);
            }
        }
        lemma_increasing_unique(a1, b1);
        assert(a =~= a1.push(x));
        assert(b =~= b1.push(y));
    }
}

/// An ascending listing of the members of a set is `ascending` of it.
pub proof fn lemma_is_ascending(q: Seq<NodeId>, s: Set<NodeId>)
    requires
        increasing(q),
        forall|x: NodeId| #[trigger] q.contains(x) <==> s.contains(x),
    ensures
        q == ascending(s),
{
    lemma_ascending(s);
    lemma_increasing_unique(q, ascending(s));
}

/// The listing of a set is as long as the set is large.
pub proof fn lemma_ascending_len(s: Set<NodeId>)
    ensures
        ascending(s).len() == s.len(),
        s.finite(),
{
    lemma_ascending(s);
    ascending(s).unique_seq_to_set();
}

proof fn lemma_increasing_keys(s: Seq<&NodeId>)
    requires
        vstd::std_specs::btree::increasing_seq(s),
    ensures
        forall|i: int, j: int| 0 <= i < j < s.len() ==> *s[i] < *s[j],
{
    broadcast use vstd::laws_cmp::group_laws_cmp;

    vstd::std_specs::btree::axiom_increasing_seq_meaning::<&NodeId>(s);
    assert forall|i: int, j: int| 0 <= i < j < s.len() implies *s[i] < *s[j] by {
        assert(OrdSpec::cmp_spec(&s[i], &s[j]) is Less);
    }
}

/// The keys of a map, ascending.
pub(crate) fn ids_of<V>(m: &BTreeMap<NodeId, V>) -> (out: Vec<NodeId>)
    ensures
        out@ == ascending(m@.dom()),
{
    let mut out: Vec<NodeId> = Vec::new();
    for k in it: m.keys()
        invariant
            out@ == it.seq().unref().take(it.index() as int),
    {
        out.push(*k);
    }
    proof {
        let keys = m.keys().remaining();
        assert(out@ =~= keys.unref());
        lemma_increasing_keys(keys);
        assert forall|x: NodeId| #[trigger] out@.contains(x) <==> m@.dom().contains(x) by {
            assert(out@.to_set().contains(x) <==> m@.dom().contains(x));
        }
        lemma_is_ascending(out@, m@.dom());
    }
    out
}

/// The identifier, where there is one, as a set.
pub open spec fn as_set(id: Option<NodeId>) -> Set<NodeId> {
    match id {
        Some(x) => set![x],
        None => Set::empty(),
    }
}

/// The keys of a map that are neither in a set nor the one given, ascending.
pub(crate) fn ids_without<V>(
    m: &BTreeMap<NodeId, V>,
    gone: &BTreeSet<NodeId>,
    exclude: Option<NodeId>,
) -> (out: Vec<NodeId>)
    ensures
        out@ == ascending(m@.dom().difference(gone@).difference(as_set(exclude))),
{
    let all = ids_of(m);
    proof {
        lemma_ascending(m@.dom());
    }
    let mut out: Vec<NodeId> = Vec::new();
    let mut i: usize = 0;
    while i < all.len()
        invariant
            i <= all@.len(),
            increasing(all@),
            increasing(out@),
            forall|x: NodeId| #[trigger] all@.contains(x) <==> m@.dom().contains(x),
            forall|x: NodeId| #[trigger]
                out@.contains(x) <==> all@.take(i as int).contains(x) && !gone@.contains(x)
                    && !as_set(exclude).contains(x),
        decreases all.len() - i,
    {
        let id: NodeId = all[i];
        let ghost before = out@;
        let ghost seen = all@.take(i as int);
        let ghost next = all@.take(i + 1);
        assert(next =~= seen.push(id));
        proof {
            lemma_push_contains(seen, id);
            lemma_push_contains(before, id);
        }
        let excluded = match exclude {
            Some(x) => x == id,
            None => false,
        };
        assert(excluded == as_set(exclude).contains(id));
        if !excluded && !gone.contains(&id) {
            assert forall|k: int| 0 <= k < before.len() implies before[k] < id by {
                assert(before.contains(before[k]));
                let m = choose|m: int| 0 <= m < seen.len() && seen[m] == before[k];
                assert(all@[m] == before[k]);
            }
            out.push(id);
        }
        i = i + 1;
    }
    proof {
        assert(all@.take(i as int) =~= all@);
        lemma_is_ascending(out@, m@.dom().difference(gone@).difference(as_set(exclude)));
    }
    out
}

pub(crate) proof fn lemma_push_contains<T>(s: Seq<T>, y: T)
    ensures
        forall|x: T| #[trigger] s.push(y).contains(x) <==> s.contains(x) || x == y,
{
    assert forall|x: T| #[trigger] s.push(y).contains(x) <==> s.contains(x) || x == y by {
        assert(s.push(y)[s.len() as int] == y);
        if s.contains(x) {
            let k = choose|k: int| 0 <= k < s.len() && s[k] == x;
            assert(s.push(y)[k] == x);
        }
    }
}

/// The identifiers that are not in the set, in their order.
pub open spec fn surviving(q: Seq<NodeId>, gone: Set<NodeId>) -> Seq<NodeId> {
    q.filter(|id: NodeId| !gone.contains(id))
}

pub(crate) proof fn lemma_surviving_push(q: Seq<NodeId>, gone: Set<NodeId>, id: NodeId)
    ensures
        surviving(q.push(id), gone) == if gone.contains(id) {
            surviving(q, gone)
        } else {
            surviving(q, gone).push(id)
        },
{
    reveal(Seq::filter);
    assert(q.push(id).drop_last() =~= q);
}

/// What survives is what was there and is not in the set. No survivor is listed twice unless it
/// was before.
pub proof fn lemma_surviving(q: Seq<NodeId>, gone: Set<NodeId>)
    ensures
        surviving(q, gone).len() <= q.len(),
        forall|id: NodeId| #[trigger]
            surviving(q, gone).contains(id) <==> q.contains(id) && !gone.contains(id),
        q.no_duplicates() ==> surviving(q, gone).no_duplicates(),
    decreases q.len(),
{
    if q.len() == 0 {
        reveal(Seq::filter);
    } else {
        let front = q.drop_last();
        let id = q.last();
        assert(q =~= front.push(id));
        lemma_surviving(front, gone);
        lemma_surviving_push(front, gone, id);
        lemma_push_contains(front, id);
        lemma_push_contains(surviving(front, gone), id);
        if q.no_duplicates() {
            assert(front.no_duplicates());
            assert(!front.contains(id)) by {
                if front.contains(id) {
                    let k = choose|k: int| 0 <= k < front.len() && front[k] == id;
                    assert(q[k] == q[q.len() - 1]);
                }
            }
            assert(!surviving(front, gone).contains(id));
        }
    }
}

pub(crate) proof fn lemma_surviving_increasing(q: Seq<NodeId>, gone: Set<NodeId>)
    requires
        increasing(q),
    ensures
        increasing(surviving(q, gone)),
    decreases q.len(),
{
    if q.len() == 0 {
        reveal(Seq::filter);
    } else {
        let front = q.drop_last();
        let id = q.last();
        assert(q =~= front.push(id));
        lemma_surviving_increasing(front, gone);
        lemma_surviving(front, gone);
        lemma_surviving_push(front, gone, id);
        let kept = surviving(front, gone);
        assert forall|i: int| 0 <= i < kept.len() implies kept[i] < id by {
            assert(kept.contains(kept[i]));
            let k = choose|k: int| 0 <= k < front.len() && front[k] == kept[i];
            assert(q[k] < q[q.len() - 1]);
        }
    }
}

/// Nothing is lost where nothing of the set is listed.
pub proof fn lemma_all_survive(q: Seq<NodeId>, gone: Set<NodeId>)
    requires
        forall|id: NodeId| #[trigger] q.contains(id) ==> !gone.contains(id),
    ensures
        surviving(q, gone) == q,
    decreases q.len(),
{
    if q.len() == 0 {
        reveal(Seq::filter);
    } else {
        let front = q.drop_last();
        assert(q =~= front.push(q.last()));
        assert(q.contains(q[q.len() - 1]));
        assert forall|id: NodeId| #[trigger] front.contains(id) implies !gone.contains(id) by {
            let k = choose|k: int| 0 <= k < front.len() && front[k] == id;
            assert(q[k] == id);
            assert(q.contains(id));
        }
        lemma_all_survive(front, gone);
        lemma_surviving_push(front, gone, q.last());
    }
}

/// The identifiers that are not in the set, in their order.
pub(crate) fn without(q: &Vec<NodeId>, gone: &BTreeSet<NodeId>) -> (out: Vec<NodeId>)
    ensures
        out@ == surviving(q@, gone@),
{
    let mut out: Vec<NodeId> = Vec::new();
    let mut i: usize = 0;
    proof {
        reveal(Seq::filter);
    }
    assert(out@ =~= surviving(q@.take(0), gone@));
    while i < q.len()
        invariant
            i <= q@.len(),
            out@ == surviving(q@.take(i as int), gone@),
        decreases q.len() - i,
    {
        let id: NodeId = q[i];
        proof {
            lemma_surviving_push(q@.take(i as int), gone@, id);
            assert(q@.take(i + 1) =~= q@.take(i as int).push(id));
        }
        if !gone.contains(&id) {
            out.push(id);
        }
        i = i + 1;
    }
    assert(q@.take(i as int) =~= q@);
    out
}

} // verus!
