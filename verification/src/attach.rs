//! Attaching stops to the administrative regions that contain them.
//!
//! The label of a stop is written by a formatter that the caller hands in.
//! It is given the name of the stop, the names of the regions in their
//! order and the country codes, and the label is what it answers.

use vstd::prelude::*;
use std::sync::Arc;
use crate::admin::AdminRegion;
use crate::labels::label_text;
use crate::spatial_index::{containing, distinct_ids, lemma_scan_finds, SpatialIndex};
use crate::stop::{views, Stop, StopView};
use crate::string_set::{ascending, insert_unique, texts};

verus! {

/// How many stops of a batch lie in at least one region, and how many in
/// none.
#[derive(Clone, Copy, Debug, PartialEq, Eq)]
pub struct MatchStats {
    pub matched: usize,
    pub unmatched: usize,
}

/// The names of the regions, in their order.
pub open spec fn names_of(regions: Seq<Arc<AdminRegion>>) -> Seq<Seq<char>> {
    Seq::new(regions.len(), |i: int| regions[i].name@)
}

/// `x` is the country code of one of the regions.
pub open spec fn has_country_code(regions: Seq<Arc<AdminRegion>>, x: Seq<char>) -> bool {
    exists|k: int| 0 <= k < regions.len() && (#[trigger] regions[k]).country_code@ == x
}

/// `x` is a zip code of one of the regions.
pub open spec fn has_zip_code(regions: Seq<Arc<AdminRegion>>, x: Seq<char>) -> bool {
    exists|k: int, z: int|
        0 <= k < regions.len() && 0 <= z < regions[k].zip_codes@.len() && (
        #[trigger] regions[k].zip_codes@[z])@ == x
}

/// `label` is what the formatter answers for this name, these region names
/// and these country codes.
pub open spec fn labelled<F: Fn(&String, &Vec<String>, &Vec<String>) -> String>(
    format_label: &F,
    name: Seq<char>,
    region_names: Seq<Seq<char>>,
    country_codes: Seq<Seq<char>>,
    label: Seq<char>,
) -> bool {
    exists|n: String, a: Vec<String>, c: Vec<String>, l: String|
        n@ == name && texts(a@) == region_names && texts(c@) == country_codes && l@ == label
            && #[trigger] call_ensures(format_label, (&n, &a, &c), l)
}

/// `after` is `before` attached to `regions`: it holds the regions, the
/// ascending set of their country codes, the ascending set of their zip
/// codes and the label written for them, and is otherwise unchanged.
pub open spec fn attached<F: Fn(&String, &Vec<String>, &Vec<String>) -> String>(
    before: StopView,
    after: StopView,
    regions: Seq<Arc<AdminRegion>>,
    format_label: &F,
) -> bool {
    &&& after.administrative_regions == regions
    &&& ascending(after.country_codes)
    &&& forall|x: Seq<char>| #[trigger]
        after.country_codes.contains(x) <==> has_country_code(regions, x)
    &&& ascending(after.zip_codes)
    &&& forall|x: Seq<char>| #[trigger] after.zip_codes.contains(x) <==> has_zip_code(regions, x)
    &&& labelled(
        format_label,
        before.name,
        names_of(regions),
        after.country_codes,
        after.label,
    )
    &&& after.id == before.id
    &&& after.name == before.name
    &&& after.coord == before.coord
    &&& after.weight == before.weight
    &&& after.codes == before.codes
    &&& after.physical_modes == before.physical_modes
    &&& after.commercial_modes == before.commercial_modes
    &&& after.coverages == before.coverages
    &&& after.properties == before.properties
    &&& after.feed_publishers == before.feed_publishers
}

/// How many of the first `n` stops lie in at least one region.
pub open spec fn matched_count(s: Seq<StopView>, regions: Seq<Arc<AdminRegion>>, n: int) -> int
    decreases n,
{
    if n <= 0 {
        0
    } else {
        matched_count(s, regions, n - 1) + if containing(regions, s[n - 1].coord).len() > 0 {
            1int
        } else {
            0int
        }
    }
}

/// A stop attached to no region keeps no region, no country code and no
/// zip code, and a formatter that writes labels as `label_text` says labels
/// it with its name.
pub proof fn lemma_attached_to_nothing<F: Fn(&String, &Vec<String>, &Vec<String>) -> String>(
    before: StopView,
    after: StopView,
    format_label: &F,
)
    requires
        attached(before, after, Seq::empty(), format_label),
        forall|n: String, a: Vec<String>, c: Vec<String>, l: String|
            #[trigger] call_ensures(format_label, (&n, &a, &c), l) ==> l@ == label_text(
                n@,
                texts(a@),
                texts(c@),
            ),
    ensures
        after.administrative_regions.len() == 0,
        after.country_codes.len() == 0,
        after.zip_codes.len() == 0,
        after.label == before.name,
{
    let none = Seq::<Arc<AdminRegion>>::empty();
    if after.country_codes.len() > 0 {
        assert(after.country_codes.contains(after.country_codes[0]));
        assert(has_country_code(none, after.country_codes[0]));
    }
    if after.zip_codes.len() > 0 {
        assert(after.zip_codes.contains(after.zip_codes[0]));
        assert(has_zip_code(none, after.zip_codes[0]));
    }
    assert(names_of(none) =~= Seq::<Seq<char>>::empty());
    assert(after.country_codes =~= Seq::<Seq<char>>::empty());
    let (n, a, c, l) = choose|n: String, a: Vec<String>, c: Vec<String>, l: String|
        n@ == before.name && texts(a@) == names_of(none) && texts(c@) == after.country_codes && l@
            == after.label && #[trigger] call_ensures(format_label, (&n, &a, &c), l);
    assert(before.name + Seq::<char>::empty() + Seq::<char>::empty() =~= before.name);
}

/// Attaches a stop to the given regions, which are taken as they come:
/// where no two of them have the same id, as in every answer of the index,
/// the stop holds no region twice.
pub fn attach_stop<F: Fn(&String, &Vec<String>, &Vec<String>) -> String>(
    stop: &mut Stop,
    admins: Vec<Arc<AdminRegion>>,
    format_label: &F,
)
    requires
        forall|n: &String, a: &Vec<String>, c: &Vec<String>|
            call_requires(format_label, (n, a, c)),
    ensures
        attached(old(stop)@, final(stop)@, admins@, format_label),
        distinct_ids(admins@) ==> distinct_ids(final(stop)@.administrative_regions),
{
    let ghost regions = admins@;
    let mut names: Vec<String> = Vec::new();
    let mut codes: Vec<String> = Vec::new();
    let mut zips: Vec<String> = Vec::new();
    let n: usize = admins.len();
    let mut k: usize = 0;
    assert(texts(names@) =~= names_of(regions.take(0)));
    while k < n
        invariant
            k <= n,
            n == admins@.len(),
            regions == admins@,
            texts(names@) == names_of(regions.take(k as int)),
            ascending(texts(codes@)),
            forall|x: Seq<char>| #[trigger]
                texts(codes@).contains(x) <==> has_country_code(regions.take(k as int), x),
            ascending(texts(zips@)),
            forall|x: Seq<char>| #[trigger]
                texts(zips@).contains(x) <==> has_zip_code(regions.take(k as int), x),
        decreases n - k,
    {
        let ghost seen = regions.take(k as int);
        let ghost next = regions.take(k + 1);
        let ghost codes_before = texts(codes@);
        let ghost names_before = texts(names@);
        let admin = &admins[k];
        names.push(admin.name.clone());
        assert(texts(names@) =~= names_of(next)) by {
            assert(texts(names@) =~= names_before.push(admin.name@));
            assert forall|i: int| 0 <= i < next.len() implies names_of(next)[i] == texts(
                names@,
            )[i] by {
                if i < k {
                    assert(names_of(seen)[i] == seen[i].name@);
                }
            }
        }
        insert_unique(&mut codes, admin.country_code.clone());
        proof {
            let now = texts(codes@);
            assert forall|x: Seq<char>| #[trigger] now.contains(x) <==> has_country_code(
                next,
                x,
            ) by {
                assert(now.contains(x) <==> (codes_before.contains(x) || seq![
                    admin.country_code@,
                ].contains(x)));
                assert(codes_before.contains(x) <==> has_country_code(seen, x));
                if seq![admin.country_code@].contains(x) {
                    assert(next[k as int].country_code@ == x);
                }
                if has_country_code(seen, x) {
                    let j = choose|j: int|
                        0 <= j < seen.len() && (#[trigger] seen[j]).country_code@ == x;
                    assert(next[j].country_code@ == x);
                }
                if has_country_code(next, x) {
                    let j = choose|j: int|
                        0 <= j < next.len() && (#[trigger] next[j]).country_code@ == x;
                    if j < k {
                        assert(seen[j].country_code@ == x);
                    } else {
                        assert(seq![admin.country_code@][0] == x);
                    }
                }
            }
        }
        let m: usize = admin.zip_codes.len();
        let mut z: usize = 0;
        while z < m
            invariant
                z <= m,
                k < n,
                n == admins@.len(),
                regions == admins@,
                seen == regions.take(k as int),
                *admin == *regions[k as int],
                m == admin.zip_codes@.len(),
                ascending(texts(zips@)),
                forall|x: Seq<char>| #[trigger]
                    texts(zips@).contains(x) <==> (has_zip_code(seen, x) || exists|y: int|
                        0 <= y < z && (#[trigger] admin.zip_codes@[y])@ == x),
            decreases m - z,
        {
            let ghost zips_before = texts(zips@);
            let ghost zip = admin.zip_codes@[z as int]@;
            insert_unique(&mut zips, admin.zip_codes[z].clone());
            proof {
                let now = texts(zips@);
                assert forall|x: Seq<char>| #[trigger] now.contains(x) <==> (has_zip_code(seen, x)
                    || exists|y: int| 0 <= y < z + 1 && (#[trigger] admin.zip_codes@[y])@ == x) by {
                    assert(now.contains(x) <==> (zips_before.contains(x) || seq![zip].contains(
                        x,
                    )));
                    assert(zips_before.contains(x) <==> (has_zip_code(seen, x) || exists|y: int|
                        0 <= y < z && (#[trigger] admin.zip_codes@[y])@ == x));
                    if seq![zip].contains(x) {
                        assert(admin.zip_codes@[z as int]@ == x);
                    }
                    if exists|y: int| 0 <= y < z + 1 && (#[trigger] admin.zip_codes@[y])@ == x {
                        let y = choose|y: int|
                            0 <= y < z + 1 && (#[trigger] admin.zip_codes@[y])@ == x;
                        if y == z {
                            assert(seq![zip][0] == x);
                        }
                    }
                }
            }
            z += 1;
        }
        proof {
            let now = texts(zips@);
            assert forall|x: Seq<char>| #[trigger] now.contains(x) <==> has_zip_code(next, x) by {
                if has_zip_code(seen, x) {
                    let (j, y) = choose|j: int, y: int|
                        0 <= j < seen.len() && 0 <= y < seen[j].zip_codes@.len() && (
                        #[trigger] seen[j].zip_codes@[y])@ == x;
                    assert(next[j].zip_codes@[y]@ == x);
                }
                if exists|y: int| 0 <= y < m && (#[trigger] admin.zip_codes@[y])@ == x {
                    let y = choose|y: int| 0 <= y < m && (#[trigger] admin.zip_codes@[y])@ == x;
                    assert(next[k as int].zip_codes@[y]@ == x);
                }
                if has_zip_code(next, x) {
                    let (j, y) = choose|j: int, y: int|
                        0 <= j < next.len() && 0 <= y < next[j].zip_codes@.len() && (
                        #[trigger] next[j].zip_codes@[y])@ == x;
                    if j < k {
                        assert(seen[j].zip_codes@[y]@ == x);
                    } else {
                        assert(admin.zip_codes@[y]@ == x);
                    }
                }
            }
        }
        k += 1;
    }
    assert(regions.take(n as int) =~= regions);
    let label = format_label(&stop.name, &names, &codes);
    assert(labelled(format_label, stop.name@, names_of(regions), texts(codes@), label@));
    stop.label = label;
    stop.zip_codes = zips;
    stop.country_codes = codes;
    stop.administrative_regions = admins;
}

/// Attaches every stop to the regions of the index that contain it. No stop
/// is attached to two regions with the same id: of the regions with one id
/// that contain it, the first in the order of the index is attached. A stop
/// that lies in no region is attached to none: it keeps no region, country
/// code or zip code, and its label is what the formatter writes for a stop
/// without regions.
pub fn attach_stops_to_admins<F: Fn(&String, &Vec<String>, &Vec<String>) -> String>(
    stops: &mut Vec<Stop>,
    index: &SpatialIndex,
    format_label: &F,
) -> (stats: MatchStats)
    requires
        forall|n: &String, a: &Vec<String>, c: &Vec<String>|
            call_requires(format_label, (n, a, c)),
    ensures
        final(stops)@.len() == old(stops)@.len(),
        forall|i: int|
            0 <= i < old(stops)@.len() ==> attached(
                old(stops)@[i]@,
                (#[trigger] final(stops)@[i])@,
                containing(index@, old(stops)@[i].coord),
                format_label,
            ),
        forall|i: int|
            0 <= i < old(stops)@.len() ==> distinct_ids(
                (#[trigger] final(stops)@[i])@.administrative_regions,
            ),
        stats.matched == matched_count(views(old(stops)@), index@, old(stops)@.len() as int),
        stats.matched + stats.unmatched == old(stops)@.len(),
{
    let mut matched: usize = 0;
    let mut unmatched: usize = 0;
    let n: usize = stops.len();
    let mut i: usize = 0;
    while i < n
        invariant
            i <= n,
            n == stops@.len(),
            n == old(stops)@.len(),
            forall|n: &String, a: &Vec<String>, c: &Vec<String>|
                call_requires(format_label, (n, a, c)),
            forall|k: int|
                0 <= k < i ==> attached(
                    old(stops)@[k]@,
                    (#[trigger] stops@[k])@,
                    containing(index@, old(stops)@[k].coord),
                    format_label,
                ),
            forall|k: int| i <= k < n ==> (#[trigger] stops@[k]) == old(stops)@[k],
            matched == matched_count(views(old(stops)@), index@, i as int),
            matched + unmatched == i,
        decreases n - i,
    {
        let admins = index.get(stops[i].coord);
        if admins.is_empty() {
            unmatched += 1;
        } else {
            matched += 1;
        }
        attach_stop(&mut stops[i], admins, format_label);
        i += 1;
    }
    proof {
        assert forall|k: int| 0 <= k < n implies distinct_ids(
            (#[trigger] stops@[k])@.administrative_regions,
        ) by {
            lemma_scan_finds(index@, old(stops)@[k].coord);
        }
    }
    MatchStats { matched, unmatched }
}

} // verus!
