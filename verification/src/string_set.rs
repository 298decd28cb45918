//! Sets of strings kept as vectors in strictly ascending order, so that one
//! set has one representation.

use vstd::prelude::*;
use crate::lexical::{precedes, str_precedes, lemma_transitive, lemma_irreflexive, lemma_asymmetric, lemma_total};

verus! {

/// What a vector of strings holds, as mathematical strings.
pub open spec fn texts(v: Seq<String>) -> Seq<Seq<char>> {
    Seq::new(v.len(), |i: int| v[i]@)
}

/// Each element comes strictly before every later one.
pub open spec fn ascending(q: Seq<Seq<char>>) -> bool {
    forall|i: int, j: int|
        #![trigger q[i], q[j]]
        0 <= i < j < q.len() ==> precedes(q[i], q[j])
}

/// Both sequences hold the same strings, whatever their order and number.
pub open spec fn same_members(p: Seq<Seq<char>>, q: Seq<Seq<char>>) -> bool {
    forall|x: Seq<char>| p.contains(x) <==> q.contains(x)
}

/// `r` holds what `p` holds and what `q` holds, and nothing else.
pub open spec fn is_union(r: Seq<Seq<char>>, p: Seq<Seq<char>>, q: Seq<Seq<char>>) -> bool {
    forall|x: Seq<char>| #[trigger] r.contains(x) <==> (p.contains(x) || q.contains(x))
}

/// A set of strings has one ascending sequence only.
pub proof fn lemma_ascending_unique(p: Seq<Seq<char>>, q: Seq<Seq<char>>)
    requires
        ascending(p),
        ascending(q),
        same_members(p, q),
    ensures
        p == q,
    decreases p.len(),
{
    if p.len() == 0 {
        if q.len() > 0 {
            assert(q.contains(q[0]));
            assert(p.contains(q[0]));
        }
        assert(p =~= q);
    } else if q.len() == 0 {
        assert(p.contains(p[0]));
        assert(q.contains(p[0]));
    } else {
        let a = p.last();
        let b = q.last();
        assert(p.contains(a));
        assert(q.contains(b));
        if a != b {
            let k = choose|k: int| 0 <= k < q.len() && q[k] == a;
            let m = choose|m: int| 0 <= m < p.len() && p[m] == b;
            assert(precedes(q[k], q[q.len() - 1]));
            assert(precedes(p[m], p[p.len() - 1]));
            lemma_asymmetric(a, b);
        }
        let p_front = p.drop_last();
        let q_front = q.drop_last();
        assert forall|x: Seq<char>| p_front.contains(x) <==> q_front.contains(x) by {
            if p_front.contains(x) {
                let i = choose|i: int| 0 <= i < p_front.len() && p_front[i] == x;
                assert(precedes(p[i], p[p.len() - 1]));
                lemma_irreflexive(a);
                assert(p.contains(x));
                let j = choose|j: int| 0 <= j < q.len() && q[j] == x;
                assert(q_front[j] == x);
            }
            if q_front.contains(x) {
                let i = choose|i: int| 0 <= i < q_front.len() && q_front[i] == x;
                assert(precedes(q[i], q[q.len() - 1]));
                lemma_irreflexive(b);
                assert(q.contains(x));
                let j = choose|j: int| 0 <= j < p.len() && p[j] == x;
                assert(p_front[j] == x);
            }
        }
        assert(ascending(p_front)) by {
            assert forall|i: int, j: int| 0 <= i < j < p_front.len() implies precedes(
                #[trigger] p_front[i],
                #[trigger] p_front[j],
            ) by {
                assert(precedes(p[i], p[j]));
            }
        }
        assert(ascending(q_front)) by {
            assert forall|i: int, j: int| 0 <= i < j < q_front.len() implies precedes(
                #[trigger] q_front[i],
                #[trigger] q_front[j],
            ) by {
                assert(precedes(q[i], q[j]));
            }
        }
        lemma_ascending_unique(p_front, q_front);
        assert(p =~= p_front.push(a));
        assert(q =~= q_front.push(b));
    }
}

/// A string put between those before it and those after it keeps the
/// sequence ascending, and is the one member gained.
pub proof fn lemma_insert_ascending(q: Seq<Seq<char>>, pos: int, x: Seq<char>)
    requires
        ascending(q),
        0 <= pos <= q.len(),
        forall|i: int| 0 <= i < pos ==> precedes(#[trigger] q[i], x),
        forall|i: int| pos <= i < q.len() ==> precedes(x, #[trigger] q[i]),
    ensures
        ascending(q.insert(pos, x)),
        is_union(q.insert(pos, x), q, seq![x]),
{
    let r = q.insert(pos, x);
    assert forall|i: int, j: int| 0 <= i < j < r.len() implies precedes(
        #[trigger] r[i],
        #[trigger] r[j],
    ) by {
        if j < pos {
            assert(precedes(q[i], q[j]));
        } else if j == pos {
            assert(precedes(q[i], x));
        } else if i < pos {
            assert(precedes(q[i], q[j - 1]));
        } else if i == pos {
            assert(precedes(x, q[j - 1]));
        } else {
            assert(precedes(q[i - 1], q[j - 1]));
        }
    }
    assert forall|y: Seq<char>| #[trigger] r.contains(y) <==> q.contains(y) || seq![x].contains(y) by {
        if seq![x].contains(y) {
            assert(r[pos] == y);
        }
        if r.contains(y) {
            let i = choose|i: int| 0 <= i < r.len() && r[i] == y;
            if i < pos {
                assert(q[i] == y);
            } else if i > pos {
                assert(q[i - 1] == y);
            }
        }
        if q.contains(y) {
            let i = choose|i: int| 0 <= i < q.len() && q[i] == y;
            if i < pos {
                assert(r[i] == y);
            } else {
                assert(r[i + 1] == y);
            }
        }
        if y == x {
            assert(r[pos] == y);
            assert(seq![x][0] == y);
        }
    }
}

/// How many strings of `q` come before `x`, counted from the front up to
/// the last one that does.
pub open spec fn slot(q: Seq<Seq<char>>, x: Seq<char>) -> int
    decreases q.len(),
{
    if q.len() == 0 {
        0
    } else if precedes(q.last(), x) {
        q.len() as int
    } else {
        slot(q.drop_last(), x)
    }
}

/// In an ascending sequence that lacks `x`, the slot of `x` parts the
/// strings before `x` from those after it.
pub proof fn lemma_slot(q: Seq<Seq<char>>, x: Seq<char>)
    requires
        ascending(q),
        !q.contains(x),
    ensures
        0 <= slot(q, x) <= q.len(),
        forall|i: int| 0 <= i < slot(q, x) ==> precedes(#[trigger] q[i], x),
        forall|i: int| slot(q, x) <= i < q.len() ==> precedes(x, #[trigger] q[i]),
    decreases q.len(),
{
    if q.len() > 0 {
        let n = q.len() - 1;
        if precedes(q.last(), x) {
            assert forall|i: int| 0 <= i < q.len() implies precedes(#[trigger] q[i], x) by {
                if i < n {
                    assert(precedes(q[i], q[n]));
                    lemma_transitive(q[i], q[n], x);
                }
            }
        } else {
            let d = q.drop_last();
            assert forall|i: int, j: int| 0 <= i < j < d.len() implies precedes(
                #[trigger] d[i],
                #[trigger] d[j],
            ) by {
                assert(precedes(q[i], q[j]));
            }
            if d.contains(x) {
                let i = choose|i: int| 0 <= i < d.len() && d[i] == x;
                assert(q[i] == x);
            }
            lemma_slot(d, x);
            assert forall|i: int| 0 <= i < slot(q, x) implies precedes(#[trigger] q[i], x) by {
                assert(precedes(d[i], x));
            }
            assert forall|i: int| slot(q, x) <= i < q.len() implies precedes(
                x,
                #[trigger] q[i],
            ) by {
                if i < n {
                    assert(precedes(x, d[i]));
                } else {
                    assert(q[n] == q.last());
                    lemma_total(x, q[n]);
                }
            }
        }
    }
}

/// An ascending set with one more string: such a sequence exists.
pub proof fn lemma_with(q: Seq<Seq<char>>, x: Seq<char>) -> (r: Seq<Seq<char>>)
    requires
        ascending(q),
    ensures
        ascending(r),
        is_union(r, q, seq![x]),
{
    if q.contains(x) {
        assert forall|y: Seq<char>| #[trigger] q.contains(y) <==> (q.contains(y) || seq![
            x,
        ].contains(y)) by {
            if seq![x].contains(y) {
                assert(y == x);
            }
        }
        q
    } else {
        lemma_slot(q, x);
        lemma_insert_ascending(q, slot(q, x), x);
        q.insert(slot(q, x), x)
    }
}

/// An ascending set with all the strings of `v` added: such a sequence
/// exists.
pub proof fn lemma_with_all(q: Seq<Seq<char>>, v: Seq<Seq<char>>) -> (r: Seq<Seq<char>>)
    requires
        ascending(q),
    ensures
        ascending(r),
        is_union(r, q, v),
    decreases v.len(),
{
    if v.len() == 0 {
        assert forall|y: Seq<char>| #[trigger] q.contains(y) <==> (q.contains(y) || v.contains(
            y,
        )) by {}
        q
    } else {
        let d = v.drop_last();
        let r0 = lemma_with_all(q, d);
        let r = lemma_with(r0, v.last());
        assert forall|y: Seq<char>| #[trigger] r.contains(y) <==> (q.contains(y) || v.contains(
            y,
        )) by {
            assert(r.contains(y) <==> (r0.contains(y) || seq![v.last()].contains(y)));
            assert(r0.contains(y) <==> (q.contains(y) || d.contains(y)));
            if seq![v.last()].contains(y) {
                assert(v[v.len() - 1] == y);
            }
            if d.contains(y) {
                let j = choose|j: int| 0 <= j < d.len() && d[j] == y;
                assert(v[j] == y);
            }
            if v.contains(y) {
                let j = choose|j: int| 0 <= j < v.len() && v[j] == y;
                if j < d.len() {
                    assert(d[j] == y);
                } else {
                    assert(seq![v.last()][0] == y);
                }
            }
        }
        r
    }
}

/// The first position whose string does not come before `item`.
fn lower_bound(set: &Vec<String>, item: &String) -> (pos: usize)
    requires
        ascending(texts(set@)),
    ensures
        pos <= set.len(),
        forall|i: int| 0 <= i < pos ==> precedes(#[trigger] texts(set@)[i], item@),
        forall|i: int| pos <= i < set.len() ==> !precedes(#[trigger] texts(set@)[i], item@),
{
    let ghost q = texts(set@);
    let mut lo: usize = 0;
    let mut hi: usize = set.len();
    while lo < hi
        invariant
            lo <= hi <= set.len(),
            q == texts(set@),
            ascending(q),
            forall|i: int| 0 <= i < lo ==> precedes(#[trigger] q[i], item@),
            forall|i: int| hi <= i < set.len() ==> !precedes(#[trigger] q[i], item@),
        decreases hi - lo,
    {
        let mid: usize = lo + (hi - lo) / 2;
        assert(q[mid as int] == set[mid as int]@);
        if str_precedes(set[mid].as_str(), item.as_str()) {
            proof {
                assert forall|i: int| 0 <= i < mid + 1 implies precedes(#[trigger] q[i], item@) by {
                    if i < mid {
                        assert(precedes(q[i], q[mid as int]));
                        lemma_transitive(q[i], q[mid as int], item@);
                    }
                }
            }
            lo = mid + 1;
        } else {
            proof {
                assert forall|i: int| mid <= i < set.len() implies !precedes(
                    #[trigger] q[i],
                    item@,
                ) by {
                    if i > mid && precedes(q[i], item@) {
                        assert(precedes(q[mid as int], q[i]));
                        lemma_transitive(q[mid as int], q[i], item@);
                    }
                }
            }
            hi = mid;
        }
    }
    lo
}

/// Adds `item` to an ascending set unless the set holds it already.
pub(crate) fn insert_unique(set: &mut Vec<String>, item: String)
    requires
        ascending(texts(old(set)@)),
    ensures
        ascending(texts(final(set)@)),
        is_union(texts(final(set)@), texts(old(set)@), seq![item@]),
{
    let ghost q = texts(set@);
    let pos = lower_bound(set, &item);
    if pos < set.len() && set[pos] == item {
        proof {
            assert(q[pos as int] == item@);
            assert forall|x: Seq<char>| #[trigger] q.contains(x) <==> (q.contains(x) || seq![
                item@,
            ].contains(x)) by {
                if seq![item@].contains(x) {
                    assert(q[pos as int] == x);
                }
            }
        }
        return ;
    }
    proof {
        assert forall|i: int| pos <= i < q.len() implies precedes(item@, #[trigger] q[i]) by {
            lemma_total(item@, q[i]);
            if i > pos {
                assert(precedes(q[pos as int], q[i]));
                lemma_total(item@, q[pos as int]);
                if q[i] == item@ {
                } else {
                    assert(!precedes(q[i], item@));
                }
            } else {
                assert(q[pos as int] == set@[pos as int]@);
            }
        }
        lemma_insert_ascending(q, pos as int, item@);
    }
    set.insert(pos, item);
    assert(texts(set@) =~= q.insert(pos as int, item@));
}

/// Adds every string of `items` to an ascending set.
pub(crate) fn insert_all(set: &mut Vec<String>, items: Vec<String>)
    requires
        ascending(texts(old(set)@)),
    ensures
        ascending(texts(final(set)@)),
        is_union(texts(final(set)@), texts(old(set)@), texts(items@)),
{
    let ghost before = texts(set@);
    let ghost added = texts(items@);
    proof {
        assert(added.take(0) =~= Seq::<Seq<char>>::empty());
        assert forall|x: Seq<char>| #[trigger] before.contains(x) <==> (before.contains(x)
            || added.take(0).contains(x)) by {}
    }
    for item in it: items
        invariant
            ascending(texts(set@)),
            is_union(texts(set@), before, added.take(it.index() as int)),
            it.seq().len() == added.len(),
            forall|j: int| 0 <= j < added.len() ==> added[j] == (#[trigger] it.seq()[j])@,
    {
        let ghost k = it.index() as int;
        let ghost mid = texts(set@);
        insert_unique(set, item);
        proof {
            let now = texts(set@);
            let short = added.take(k);
            let long = added.take(k + 1);
            assert forall|x: Seq<char>| #[trigger] now.contains(x) <==> (before.contains(x)
                || long.contains(x)) by {
                assert(now.contains(x) <==> (mid.contains(x) || seq![added[k]].contains(x)));
                assert(mid.contains(x) <==> (before.contains(x) || short.contains(x)));
                if seq![added[k]].contains(x) {
                    assert(long[k] == x);
                }
                if short.contains(x) {
                    let j = choose|j: int| 0 <= j < short.len() && short[j] == x;
                    assert(long[j] == x);
                }
                if long.contains(x) {
                    let j = choose|j: int| 0 <= j < long.len() && long[j] == x;
                    if j < k {
                        assert(short[j] == x);
                    } else {
                        assert(seq![added[k]][0] == x);
                    }
                }
            }
        }
    }
    assert(added.take(added.len() as int) =~= added);
}

/// Makes `target` the ascending set of all that `target` and `source` hold:
/// every string once, whichever of the two it came from and however often.
pub fn merge_collection(target: &mut Vec<String>, source: Vec<String>)
    ensures
        ascending(texts(final(target)@)),
        is_union(texts(final(target)@), texts(old(target)@), texts(source@)),
{
    let mut taken: Vec<String> = Vec::new();
    core::mem::swap(target, &mut taken);
    assert(texts(target@) =~= Seq::<Seq<char>>::empty());
    let ghost first = texts(taken@);
    insert_all(target, taken);
    let ghost mid = texts(target@);
    insert_all(target, source);
    proof {
        let now = texts(target@);
        assert forall|x: Seq<char>| #[trigger] now.contains(x) <==> (first.contains(x) || texts(
            source@,
        ).contains(x)) by {
            assert(now.contains(x) <==> (mid.contains(x) || texts(source@).contains(x)));
            assert(mid.contains(x) <==> (Seq::<Seq<char>>::empty().contains(x) || first.contains(
                x,
            )));
        }
    }
}

} // verus!
