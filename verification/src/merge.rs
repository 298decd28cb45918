//! One record per stop id: the records of a stop that several datasets
//! describe are merged into the first of them.
//!
//! What a merged stop holds in its multi-valued attributes does not depend
//! on the order of the stops. Its name, place, weight, label, regions,
//! country codes and zip codes do: they are those of the first stop with
//! its id, and the others' are dropped.

use vstd::prelude::*;
use vstd::hash_map::StringHashMap;
use crate::stop::{field, views, Field, Stop, StopView};
use crate::string_set::{
    ascending, is_union, lemma_ascending_unique, lemma_with_all, merge_collection, texts,
};

verus! {

/// No stop before position `i` has the id of the stop at `i`.
pub open spec fn leads(s: Seq<StopView>, i: int) -> bool {
    forall|j: int| 0 <= j < i ==> (#[trigger] s[j]).id != s[i].id
}

/// The positions at which an id occurs for the first time, ascending.
pub open spec fn leaders(s: Seq<StopView>) -> Seq<int>
    decreases s.len(),
{
    if s.len() == 0 {
        Seq::empty()
    } else {
        let rest = leaders(s.drop_last());
        if leads(s, s.len() - 1) {
            rest.push(s.len() - 1)
        } else {
            rest
        }
    }
}

/// Some stop with this id holds `x` in attribute `f`.
pub open spec fn pool_holds(s: Seq<StopView>, id: Seq<char>, f: Field, x: Seq<char>) -> bool {
    exists|j: int| 0 <= j < s.len() && (#[trigger] s[j]).id == id && field(s[j], f).contains(x)
}

/// `q` is the ascending set of all that the stops with this id hold in
/// attribute `f`.
pub open spec fn is_pool(q: Seq<Seq<char>>, s: Seq<StopView>, id: Seq<char>, f: Field) -> bool {
    ascending(q) && forall|x: Seq<char>| #[trigger] q.contains(x) <==> pool_holds(s, id, f, x)
}

/// The ascending set of all that the stops with this id hold in attribute
/// `f`.
pub open spec fn pooled(s: Seq<StopView>, id: Seq<char>, f: Field) -> Seq<Seq<char>> {
    choose|q: Seq<Seq<char>>| is_pool(q, s, id, f)
}

/// The merged record of the stops that share the id of the stop at `i`:
/// that stop, with each multi-valued attribute pooled over all of them.
pub open spec fn merged_group(s: Seq<StopView>, i: int) -> StopView {
    let id = s[i].id;
    StopView {
        codes: pooled(s, id, Field::Codes),
        physical_modes: pooled(s, id, Field::PhysicalModes),
        commercial_modes: pooled(s, id, Field::CommercialModes),
        coverages: pooled(s, id, Field::Coverages),
        properties: pooled(s, id, Field::Properties),
        feed_publishers: pooled(s, id, Field::FeedPublishers),
        ..s[i]
    }
}

/// The merge of a sequence of stops: one record for each id, in the order
/// in which the ids first occur.
pub open spec fn merged(s: Seq<StopView>) -> Seq<StopView> {
    let l = leaders(s);
    Seq::new(l.len(), |k: int| merged_group(s, l[k]))
}

/// The two records agree in all that a merge leaves alone.
pub open spec fn same_base(a: StopView, b: StopView) -> bool {
    &&& a.id == b.id
    &&& a.name == b.name
    &&& a.coord == b.coord
    &&& a.weight == b.weight
    &&& a.label == b.label
    &&& a.administrative_regions == b.administrative_regions
    &&& a.country_codes == b.country_codes
    &&& a.zip_codes == b.zip_codes
}

/// One more stop adds its own values to the pool of its id, and nothing to
/// any other pool.
pub proof fn lemma_pool_extend(p: Seq<StopView>, v: StopView, id: Seq<char>, f: Field, x: Seq<char>)
    ensures
        pool_holds(p.push(v), id, f, x) <==> pool_holds(p, id, f, x) || (v.id == id && field(
            v,
            f,
        ).contains(x)),
{
    let longer = p.push(v);
    if pool_holds(longer, id, f, x) {
        let j = choose|j: int| 0 <= j < longer.len() && (#[trigger] longer[j]).id == id && field(
            longer[j],
            f,
        ).contains(x);
        if j < p.len() {
            assert(p[j].id == id && field(p[j], f).contains(x));
        }
    }
    if pool_holds(p, id, f, x) {
        let j = choose|j: int| 0 <= j < p.len() && (#[trigger] p[j]).id == id && field(
            p[j],
            f,
        ).contains(x);
        assert(longer[j].id == id && field(longer[j], f).contains(x));
    }
    if v.id == id && field(v, f).contains(x) {
        assert(longer[p.len() as int].id == id && field(longer[p.len() as int], f).contains(x));
    }
}

/// The pool of an id is the one ascending sequence of its members.
pub proof fn lemma_pool_unique(q: Seq<Seq<char>>, s: Seq<StopView>, id: Seq<char>, f: Field)
    requires
        is_pool(q, s, id, f),
    ensures
        pooled(s, id, f) == q,
{
    let c = pooled(s, id, f);
    assert(is_pool(c, s, id, f));
    assert forall|x: Seq<char>| c.contains(x) <==> q.contains(x) by {}
    lemma_ascending_unique(c, q);
}

/// What the leaders are: positions of the sequence, ascending, each the
/// first of its id.
pub proof fn lemma_leaders(s: Seq<StopView>)
    ensures
        leaders(s).len() <= s.len(),
        forall|k: int|
            0 <= k < leaders(s).len() ==> 0 <= (#[trigger] leaders(s)[k]) < s.len() && leads(
                s,
                leaders(s)[k],
            ),
        forall|a: int, b: int|
            0 <= a < b < leaders(s).len() ==> (#[trigger] leaders(s)[a]) < (#[trigger] leaders(
                s,
            )[b]),
    decreases s.len(),
{
    if s.len() > 0 {
        let p = s.drop_last();
        let n = s.len() - 1;
        let l0 = leaders(p);
        let l = leaders(s);
        lemma_leaders(p);
        assert forall|k: int| 0 <= k < l.len() implies 0 <= (#[trigger] l[k]) < s.len() && leads(
            s,
            l[k],
        ) by {
            if k < l0.len() {
                let i = l0[k];
                assert(leads(p, i));
                assert forall|j: int| 0 <= j < i implies (#[trigger] s[j]).id != s[i].id by {
                    assert(p[j].id != p[i].id);
                }
            }
        }
    }
}

/// `out` holds the merge of the stops in `p`.
pub open spec fn gathered(out: Seq<StopView>, p: Seq<StopView>) -> bool {
    &&& out.len() == leaders(p).len()
    &&& forall|k: int| 0 <= k < out.len() ==> same_base(#[trigger] out[k], p[leaders(p)[k]])
    &&& forall|k: int, f: Field|
        0 <= k < out.len() ==> is_pool(#[trigger] field(out[k], f), p, out[k].id, f)
}

/// The merge of a sequence is the one sequence that holds its merge.
pub proof fn lemma_gathered_is_merged(out: Seq<StopView>, s: Seq<StopView>)
    requires
        gathered(out, s),
    ensures
        out == merged(s),
{
    let l = leaders(s);
    let m = merged(s);
    assert forall|k: int| 0 <= k < out.len() implies out[k] == m[k] by {
        let id = s[l[k]].id;
        assert(same_base(out[k], s[l[k]]));
        assert(is_pool(field(out[k], Field::Codes), s, id, Field::Codes));
        assert(is_pool(field(out[k], Field::PhysicalModes), s, id, Field::PhysicalModes));
        assert(is_pool(field(out[k], Field::CommercialModes), s, id, Field::CommercialModes));
        assert(is_pool(field(out[k], Field::Coverages), s, id, Field::Coverages));
        assert(is_pool(field(out[k], Field::Properties), s, id, Field::Properties));
        assert(is_pool(field(out[k], Field::FeedPublishers), s, id, Field::FeedPublishers));
        lemma_pool_unique(out[k].codes, s, id, Field::Codes);
        lemma_pool_unique(out[k].physical_modes, s, id, Field::PhysicalModes);
        lemma_pool_unique(out[k].commercial_modes, s, id, Field::CommercialModes);
        lemma_pool_unique(out[k].coverages, s, id, Field::Coverages);
        lemma_pool_unique(out[k].properties, s, id, Field::Properties);
        lemma_pool_unique(out[k].feed_publishers, s, id, Field::FeedPublishers);
    }
    assert(out =~= m);
}

/// A stop whose id is new opens a record of its own.
proof fn lemma_gather_new(out: Seq<StopView>, p: Seq<StopView>, v: StopView, e: StopView)
    requires
        gathered(out, p),
        forall|j: int| 0 <= j < p.len() ==> (#[trigger] p[j]).id != v.id,
        same_base(e, v),
        forall|f: Field|
            ascending(#[trigger] field(e, f)) && is_union(
                field(e, f),
                Seq::<Seq<char>>::empty(),
                field(v, f),
            ),
    ensures
        gathered(out.push(e), p.push(v)),
{
    let longer = p.push(v);
    let out1 = out.push(e);
    let l = leaders(p);
    assert(longer.drop_last() =~= p);
    assert(leads(longer, longer.len() - 1));
    assert(leaders(longer) == l.push(p.len() as int));
    lemma_leaders(p);
    assert forall|k: int| 0 <= k < out1.len() implies same_base(
        #[trigger] out1[k],
        longer[leaders(longer)[k]],
    ) by {
        if k < out.len() {
            assert(same_base(out[k], p[l[k]]));
        }
    }
    assert forall|k: int, f: Field| 0 <= k < out1.len() implies is_pool(
        #[trigger] field(out1[k], f),
        longer,
        out1[k].id,
        f,
    ) by {
        let q = field(out1[k], f);
        let id = out1[k].id;
        if k < out.len() {
            assert(same_base(out[k], p[l[k]]));
            assert(is_pool(field(out[k], f), p, id, f));
            assert(p[l[k]].id != v.id);
        } else {
            assert(ascending(field(e, f)));
        }
        assert forall|x: Seq<char>| #[trigger] q.contains(x) <==> pool_holds(longer, id, f, x) by {
            lemma_pool_extend(p, v, id, f, x);
            if k < out.len() {
            } else {
                assert(is_union(field(e, f), Seq::<Seq<char>>::empty(), field(v, f)));
                if pool_holds(p, id, f, x) {
                    let j = choose|j: int|
                        0 <= j < p.len() && (#[trigger] p[j]).id == id && field(p[j], f).contains(
                            x,
                        );
                    assert(false);
                }
            }
        }
    }
}

/// A stop whose id is known adds its values to the record of that id.
proof fn lemma_gather_known(
    out: Seq<StopView>,
    p: Seq<StopView>,
    v: StopView,
    pos: int,
    e: StopView,
)
    requires
        gathered(out, p),
        0 <= pos < out.len(),
        out[pos].id == v.id,
        forall|k: int| 0 <= k < out.len() && k != pos ==> (#[trigger] out[k]).id != v.id,
        same_base(e, out[pos]),
        forall|f: Field|
            ascending(#[trigger] field(e, f)) && is_union(
                field(e, f),
                field(out[pos], f),
                field(v, f),
            ),
    ensures
        gathered(out.update(pos, e), p.push(v)),
{
    let longer = p.push(v);
    let out1 = out.update(pos, e);
    let l = leaders(p);
    lemma_leaders(p);
    assert(longer.drop_last() =~= p);
    assert(same_base(out[pos], p[l[pos]]));
    assert(longer[l[pos]].id == longer[longer.len() - 1].id);
    assert(!leads(longer, longer.len() - 1));
    assert(leaders(longer) == l);
    assert forall|k: int| 0 <= k < out1.len() implies same_base(
        #[trigger] out1[k],
        longer[leaders(longer)[k]],
    ) by {
        assert(same_base(out[k], p[l[k]]));
    }
    assert forall|k: int, f: Field| 0 <= k < out1.len() implies is_pool(
        #[trigger] field(out1[k], f),
        longer,
        out1[k].id,
        f,
    ) by {
        let q = field(out1[k], f);
        let id = out1[k].id;
        assert(is_pool(field(out[k], f), p, out[k].id, f));
        if k == pos {
            assert(ascending(field(e, f)));
            assert(is_union(field(e, f), field(out[pos], f), field(v, f)));
        }
        assert forall|x: Seq<char>| #[trigger] q.contains(x) <==> pool_holds(longer, id, f, x) by {
            lemma_pool_extend(p, v, id, f, x);
            assert(field(out[k], f).contains(x) <==> pool_holds(p, out[k].id, f, x));
        }
    }
}

/// Every record is found under its id, and every id leads to its record.
pub open spec fn indexed(m: Map<Seq<char>, usize>, out: Seq<StopView>) -> bool {
    &&& forall|k: int|
        0 <= k < out.len() ==> m.contains_key((#[trigger] out[k]).id) && m[out[k].id] == k
    &&& forall|id: Seq<char>| #[trigger]
        m.contains_key(id) ==> 0 <= m[id] < out.len() && out[m[id] as int].id == id
}

/// Pools the given values into the multi-valued attributes of `entry`.
fn absorb(
    entry: &mut Stop,
    codes: Vec<String>,
    physical_modes: Vec<String>,
    commercial_modes: Vec<String>,
    coverages: Vec<String>,
    properties: Vec<String>,
    feed_publishers: Vec<String>,
)
    ensures
        same_base(final(entry)@, old(entry)@),
        ascending(final(entry)@.codes),
        ascending(final(entry)@.physical_modes),
        ascending(final(entry)@.commercial_modes),
        ascending(final(entry)@.coverages),
        ascending(final(entry)@.properties),
        ascending(final(entry)@.feed_publishers),
        is_union(final(entry)@.codes, old(entry)@.codes, texts(codes@)),
        is_union(final(entry)@.physical_modes, old(entry)@.physical_modes, texts(physical_modes@)),
        is_union(
            final(entry)@.commercial_modes,
            old(entry)@.commercial_modes,
            texts(commercial_modes@),
        ),
        is_union(final(entry)@.coverages, old(entry)@.coverages, texts(coverages@)),
        is_union(final(entry)@.properties, old(entry)@.properties, texts(properties@)),
        is_union(
            final(entry)@.feed_publishers,
            old(entry)@.feed_publishers,
            texts(feed_publishers@),
        ),
{
    merge_collection(&mut entry.codes, codes);
    merge_collection(&mut entry.physical_modes, physical_modes);
    merge_collection(&mut entry.commercial_modes, commercial_modes);
    merge_collection(&mut entry.coverages, coverages);
    merge_collection(&mut entry.properties, properties);
    merge_collection(&mut entry.feed_publishers, feed_publishers);
}

/// Merges the stops of several datasets by id. The result holds one stop
/// for each id, in the order in which the ids first occur. The first stop
/// of an id gives the record its name, place, weight, label, regions,
/// country codes and zip codes; each multi-valued attribute becomes the
/// ascending set of all that the stops of that id hold in it.
pub fn merge_stops(stops: Vec<Stop>) -> (merged_stops: Vec<Stop>)
    ensures
        views(merged_stops@) == merged(views(stops@)),
{
    let ghost s = views(stops@);
    let mut out: Vec<Stop> = Vec::new();
    let mut index: StringHashMap<usize> = StringHashMap::new();
    assert(s.take(0) =~= Seq::<StopView>::empty());
    for stop in it: stops
        invariant
            it.seq().len() == s.len(),
            forall|j: int| 0 <= j < s.len() ==> (#[trigger] it.seq()[j])@ == s[j],
            gathered(views(out@), s.take(it.index() as int)),
            indexed(index@, views(out@)),
            forall|j: int| 0 <= j < it.index() ==> index@.contains_key((#[trigger] s[j]).id),
    {
        let ghost i = it.index() as int;
        let ghost p = s.take(i);
        let ghost v = stop@;
        let ghost out0 = views(out@);
        assert(s.take(i + 1) =~= p.push(v));
        let Stop {
            id,
            name,
            coord,
            weight,
            label,
            administrative_regions,
            country_codes,
            zip_codes,
            codes,
            physical_modes,
            commercial_modes,
            coverages,
            properties,
            feed_publishers,
        } = stop;
        let found = index.get(id.as_str());
        let pos: usize = match found {
            Some(known) => *known,
            None => out.len(),
        };
        if pos == out.len() {
            index.insert(id.clone(), pos);
            out.push(
                Stop {
                    id,
                    name,
                    coord,
                    weight,
                    label,
                    administrative_regions,
                    country_codes,
                    zip_codes,
                    codes: Vec::new(),
                    physical_modes: Vec::new(),
                    commercial_modes: Vec::new(),
                    coverages: Vec::new(),
                    properties: Vec::new(),
                    feed_publishers: Vec::new(),
                },
            );
            let ghost blank = out@[pos as int]@;
            assert(texts(Seq::<String>::empty()) =~= Seq::<Seq<char>>::empty());
            absorb(
                &mut out[pos],
                codes,
                physical_modes,
                commercial_modes,
                coverages,
                properties,
                feed_publishers,
            );
            proof {
                let e = out@[pos as int]@;
                assert(views(out@) =~= out0.push(e));
                assert forall|j: int| 0 <= j < p.len() implies (#[trigger] p[j]).id != v.id by {
                    assert(p[j] == s[j]);
                }
                assert forall|f: Field|
                    ascending(#[trigger] field(e, f)) && is_union(
                        field(e, f),
                        Seq::<Seq<char>>::empty(),
                        field(v, f),
                    ) by {
                    assert(field(blank, f) == Seq::<Seq<char>>::empty());
                }
                lemma_gather_new(out0, p, v, e);
            }
        } else {
            let ghost before = out@[pos as int]@;
            absorb(
                &mut out[pos],
                codes,
                physical_modes,
                commercial_modes,
                coverages,
                properties,
                feed_publishers,
            );
            proof {
                let e = out@[pos as int]@;
                assert(views(out@) =~= out0.update(pos as int, e));
                assert(before == out0[pos as int]);
                assert forall|f: Field|
                    ascending(#[trigger] field(e, f)) && is_union(
                        field(e, f),
                        field(out0[pos as int], f),
                        field(v, f),
                    ) by {}
                lemma_gather_known(out0, p, v, pos as int, e);
            }
        }
    }
    proof {
        assert(s.take(s.len() as int) =~= s);
        lemma_gathered_is_merged(views(out@), s);
    }
    out
}

/// Every pool exists: the stops of an id hold finitely many values.
pub proof fn lemma_pool_exists(s: Seq<StopView>, id: Seq<char>, f: Field) -> (q: Seq<Seq<char>>)
    ensures
        is_pool(q, s, id, f),
    decreases s.len(),
{
    if s.len() == 0 {
        let q = Seq::<Seq<char>>::empty();
        assert forall|x: Seq<char>| #[trigger] q.contains(x) <==> pool_holds(s, id, f, x) by {}
        q
    } else {
        let p = s.drop_last();
        let v = s.last();
        assert(s =~= p.push(v));
        let q0 = lemma_pool_exists(p, id, f);
        if v.id == id {
            let q = lemma_with_all(q0, field(v, f));
            assert forall|x: Seq<char>| #[trigger] q.contains(x) <==> pool_holds(s, id, f, x) by {
                lemma_pool_extend(p, v, id, f, x);
                assert(q0.contains(x) <==> pool_holds(p, id, f, x));
            }
            q
        } else {
            assert forall|x: Seq<char>| #[trigger] q0.contains(x) <==> pool_holds(s, id, f, x) by {
                lemma_pool_extend(p, v, id, f, x);
            }
            q0
        }
    }
}

/// What `pooled` names is the pool.
pub proof fn lemma_pooled(s: Seq<StopView>, id: Seq<char>, f: Field)
    ensures
        is_pool(pooled(s, id, f), s, id, f),
{
    let q = lemma_pool_exists(s, id, f);
    lemma_pool_unique(q, s, id, f);
}

/// The pool of an id does not depend on the order of the stops, nor on how
/// often a stop occurs: two sequences of the same stops pool the same.
pub proof fn lemma_pool_ignores_order(
    s: Seq<StopView>,
    t: Seq<StopView>,
    id: Seq<char>,
    f: Field,
)
    requires
        forall|v: StopView| s.contains(v) <==> t.contains(v),
    ensures
        pooled(s, id, f) == pooled(t, id, f),
{
    let q = pooled(s, id, f);
    lemma_pooled(s, id, f);
    assert forall|x: Seq<char>| #[trigger] q.contains(x) <==> pool_holds(t, id, f, x) by {
        if pool_holds(s, id, f, x) {
            let j = choose|j: int|
                0 <= j < s.len() && (#[trigger] s[j]).id == id && field(s[j], f).contains(x);
            assert(s.contains(s[j]));
            let k = choose|k: int| 0 <= k < t.len() && t[k] == s[j];
            assert(t[k].id == id && field(t[k], f).contains(x));
        }
        if pool_holds(t, id, f, x) {
            let j = choose|j: int|
                0 <= j < t.len() && (#[trigger] t[j]).id == id && field(t[j], f).contains(x);
            assert(t.contains(t[j]));
            let k = choose|k: int| 0 <= k < s.len() && s[k] == t[j];
            assert(s[k].id == id && field(s[k], f).contains(x));
        }
    }
    lemma_pool_unique(q, t, id, f);
}

/// A merge never holds two stops with the same id.
pub proof fn lemma_merged_ids_distinct(s: Seq<StopView>)
    ensures
        forall|a: int, b: int|
            0 <= a < b < merged(s).len() ==> (#[trigger] merged(s)[a]).id != (#[trigger] merged(
                s,
            )[b]).id,
{
    let l = leaders(s);
    let m = merged(s);
    lemma_leaders(s);
    assert forall|a: int, b: int| 0 <= a < b < m.len() implies (#[trigger] m[a]).id != (
    #[trigger] m[b]).id by {
        assert(l[a] < l[b]);
        assert(leads(s, l[b]));
        assert(s[l[a]].id != s[l[b]].id);
    }
}

/// Where no id occurs twice, every position is a leader.
pub proof fn lemma_leaders_of_distinct(r: Seq<StopView>)
    requires
        forall|a: int, b: int|
            0 <= a < b < r.len() ==> (#[trigger] r[a]).id != (#[trigger] r[b]).id,
    ensures
        leaders(r) == Seq::new(r.len(), |k: int| k),
    decreases r.len(),
{
    if r.len() > 0 {
        let d = r.drop_last();
        assert forall|a: int, b: int| 0 <= a < b < d.len() implies (#[trigger] d[a]).id != (
        #[trigger] d[b]).id by {
            assert(r[a].id != r[b].id);
        }
        lemma_leaders_of_distinct(d);
        assert(leads(r, r.len() - 1));
    }
    assert(leaders(r) =~= Seq::new(r.len(), |k: int| k));
}

/// Where no id occurs twice, every stop passes through the merge in its
/// place, with each multi-valued attribute made an ascending set.
pub proof fn lemma_merge_of_distinct(s: Seq<StopView>)
    requires
        forall|a: int, b: int|
            0 <= a < b < s.len() ==> (#[trigger] s[a]).id != (#[trigger] s[b]).id,
    ensures
        merged(s).len() == s.len(),
        forall|k: int| 0 <= k < s.len() ==> same_base(#[trigger] merged(s)[k], s[k]),
        forall|k: int, f: Field|
            0 <= k < s.len() ==> ascending(#[trigger] field(merged(s)[k], f)) && is_union(
                field(merged(s)[k], f),
                Seq::<Seq<char>>::empty(),
                field(s[k], f),
            ),
{
    let r = merged(s);
    lemma_leaders_of_distinct(s);
    assert forall|k: int, f: Field| 0 <= k < s.len() implies ascending(
        #[trigger] field(r[k], f),
    ) && is_union(field(r[k], f), Seq::<Seq<char>>::empty(), field(s[k], f)) by {
        let q = field(r[k], f);
        let id = s[k].id;
        assert(q == pooled(s, id, f));
        lemma_pooled(s, id, f);
        assert forall|x: Seq<char>| #[trigger] q.contains(x) <==> (Seq::<Seq<char>>::empty().contains(
            x,
        ) || field(s[k], f).contains(x)) by {
            if pool_holds(s, id, f, x) {
                let j = choose|j: int|
                    0 <= j < s.len() && (#[trigger] s[j]).id == id && field(s[j], f).contains(x);
                if j < k {
                    assert(s[j].id != s[k].id);
                } else if k < j {
                    assert(s[k].id != s[j].id);
                }
            }
            if field(s[k], f).contains(x) {
                assert(s[k].id == id && field(s[k], f).contains(x));
            }
        }
    }
}

/// Merging is idempotent: the merge of a merge is that merge.
pub proof fn lemma_merge_idempotent(s: Seq<StopView>)
    ensures
        merged(merged(s)) == merged(s),
{
    let r = merged(s);
    let l = leaders(s);
    lemma_leaders(s);
    lemma_merged_ids_distinct(s);
    lemma_leaders_of_distinct(r);
    assert forall|k: int, f: Field| 0 <= k < r.len() implies is_pool(
        #[trigger] field(r[k], f),
        r,
        r[k].id,
        f,
    ) by {
        let id = r[k].id;
        let q = field(r[k], f);
        assert(q == pooled(s, s[l[k]].id, f));
        lemma_pooled(s, s[l[k]].id, f);
        assert forall|x: Seq<char>| #[trigger] q.contains(x) <==> pool_holds(r, id, f, x) by {
            if pool_holds(r, id, f, x) {
                let j = choose|j: int|
                    0 <= j < r.len() && (#[trigger] r[j]).id == id && field(r[j], f).contains(x);
                if j < k {
                    assert(r[j].id != r[k].id);
                } else if k < j {
                    assert(r[k].id != r[j].id);
                }
            }
            if q.contains(x) {
                assert(r[k].id == id && field(r[k], f).contains(x));
            }
        }
    }
    assert(gathered(r, r));
    lemma_gathered_is_merged(r, r);
}

} // verus!
