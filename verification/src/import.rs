//! The import of one dataset: its stops are attached to the regions, tagged
//! with the dataset, weighted, and handed out as documents.

use vstd::prelude::*;
use std::sync::Arc;
use crate::admin::AdminRegion;
use crate::attach::{attach_stops_to_admins, attached, matched_count, MatchStats};
use crate::spatial_index::{containing, distinct_ids, SpatialIndex};
use crate::stop::{views, Stop, StopView};
use crate::weight::{Blend, StopWeight};

verus! {

/// The importance of the first region that is a city, as its bit pattern;
/// 0, the pattern of the number zero, where no region is a city.
pub open spec fn city_weight(regions: Seq<Arc<AdminRegion>>) -> u64
    decreases regions.len(),
{
    if regions.len() == 0 {
        0
    } else if regions[0].is_city {
        regions[0].weight_bits
    } else {
        city_weight(regions.drop_first())
    }
}

/// Region `k` is a city and no region before it is.
pub open spec fn is_first_city(regions: Seq<Arc<AdminRegion>>, k: int) -> bool {
    &&& 0 <= k < regions.len()
    &&& regions[k].is_city
    &&& forall|j: int| 0 <= j < k ==> !(#[trigger] regions[j]).is_city
}

/// The city weight is the weight of the first city.
pub proof fn lemma_city_weight_is_first(regions: Seq<Arc<AdminRegion>>, k: int)
    requires
        is_first_city(regions, k),
    ensures
        city_weight(regions) == regions[k].weight_bits,
    decreases k,
{
    if k > 0 {
        let rest = regions.drop_first();
        assert(!regions[0].is_city);
        assert forall|j: int| 0 <= j < k - 1 implies !(#[trigger] rest[j]).is_city by {
            assert(!regions[j + 1].is_city);
        }
        lemma_city_weight_is_first(rest, k - 1);
    }
}

/// Where no region is a city, the city weight is zero.
pub proof fn lemma_city_weight_without_city(regions: Seq<Arc<AdminRegion>>)
    requires
        forall|j: int| 0 <= j < regions.len() ==> !(#[trigger] regions[j]).is_city,
    ensures
        city_weight(regions) == 0,
    decreases regions.len(),
{
    if regions.len() > 0 {
        let rest = regions.drop_first();
        assert(!regions[0].is_city);
        assert forall|j: int| 0 <= j < rest.len() implies !(#[trigger] rest[j]).is_city by {
            assert(!regions[j + 1].is_city);
        }
        lemma_city_weight_without_city(rest);
    }
}

/// The importance of the first region that is a city, as its bit pattern;
/// 0 where no region is a city.
pub fn admin_weight(regions: &Vec<Arc<AdminRegion>>) -> (bits: u64)
    ensures
        bits == city_weight(regions@),
{
    let n: usize = regions.len();
    let mut i: usize = 0;
    assert(regions@.skip(0) =~= regions@);
    while i < n
        invariant
            i <= n,
            n == regions@.len(),
            city_weight(regions@) == city_weight(regions@.skip(i as int)),
        decreases n - i,
    {
        assert(regions@.skip(i as int)[0] == regions@[i as int]);
        if regions[i].is_city {
            return regions[i].weight_bits;
        }
        assert(regions@.skip(i as int).drop_first() =~= regions@.skip(i + 1));
        i += 1;
    }
    0
}

/// A weight blended with the importance of a region: the local weight
/// stays as it is, and an earlier blend gives way to this one.
pub open spec fn blended(w: StopWeight, weight_bits: u64) -> StopWeight {
    StopWeight { blend: Blend::WithAdmin { weight_bits }, ..w }
}

/// A stop on its way into the search index.
pub struct StopDoc(pub Stop);

impl View for StopDoc {
    type V = StopView;

    /// The stop that the document holds.
    open spec fn view(&self) -> StopView {
        self.0@
    }
}

/// What the index asks of a document.
pub trait Document {
    /// The kind of the document.
    fn doc_type(&self) -> &'static str;

    /// The identifier under which the document is stored.
    fn id(&self) -> String;
}

impl StopDoc {
    /// The kind of every stop document.
    pub const DOC_TYPE: &'static str = "stop";

    /// The stop that the document holds.
    pub fn stop(&self) -> (stop: &Stop)
        ensures
            stop@ == self@,
    {
        &self.0
    }

    /// The stop that the document held.
    pub fn into_stop(self) -> (stop: Stop)
        ensures
            stop@ == self@,
    {
        self.0
    }
}

impl Document for StopDoc {
    /// Every stop document is of the kind "stop".
    fn doc_type(&self) -> (kind: &'static str)
        ensures
            kind@ == "stop"@,
    {
        StopDoc::DOC_TYPE
    }

    /// A stop document is stored under the id of its stop.
    fn id(&self) -> (id: String)
        ensures
            id@ == self@.id,
    {
        self.0.id.clone()
    }
}

impl From<Stop> for StopDoc {
    /// The document of a stop.
    fn from(stop: Stop) -> (doc: StopDoc) {
        StopDoc(stop)
    }
}

impl vstd::std_specs::convert::FromSpecImpl<Stop> for StopDoc {
    open spec fn obeys_from_spec() -> bool {
        true
    }

    open spec fn from_spec(stop: Stop) -> StopDoc {
        StopDoc(stop)
    }
}

/// `after` is `before` imported from `dataset`: attached to the regions
/// that contain it, with the dataset added to its coverages and its weight
/// blended with the importance of the first city among those regions, which
/// stand in the order of the index.
pub open spec fn imported<F: Fn(&String, &Vec<String>, &Vec<String>) -> String>(
    before: StopView,
    after: StopView,
    regions: Seq<Arc<AdminRegion>>,
    dataset: Seq<char>,
    format_label: &F,
) -> bool {
    let found = containing(regions, before.coord);
    &&& attached(
        before,
        StopView { coverages: before.coverages, weight: before.weight, ..after },
        found,
        format_label,
    )
    &&& after.coverages == before.coverages.push(dataset)
    &&& after.weight == blended(before.weight, city_weight(found))
}

/// Whether readers see a new index once it is complete.
#[derive(Clone, Copy, Debug, PartialEq, Eq)]
pub enum IndexVisibility {
    Public,
    Private,
}

/// How long the store may take, and how many shards must answer.
#[derive(Clone, Debug, PartialEq, Eq)]
pub struct IndexParameters {
    pub timeout: String,
    pub wait_for_active_shards: String,
}

/// How the index of a dataset is set up. The settings and the mappings are
/// texts of the store's own, handed through as they are.
#[derive(Clone, Debug, PartialEq, Eq)]
pub struct IndexConfiguration {
    pub name: String,
    pub parameters: IndexParameters,
    pub settings: String,
    pub mappings: String,
}

/// An index configuration as a mathematical value.
pub struct IndexConfigurationView {
    pub name: Seq<char>,
    pub timeout: Seq<char>,
    pub wait_for_active_shards: Seq<char>,
    pub settings: Seq<char>,
    pub mappings: Seq<char>,
}

impl View for IndexConfiguration {
    type V = IndexConfigurationView;

    open spec fn view(&self) -> IndexConfigurationView {
        IndexConfigurationView {
            name: self.name@,
            timeout: self.parameters.timeout@,
            wait_for_active_shards: self.parameters.wait_for_active_shards@,
            settings: self.settings@,
            mappings: self.mappings@,
        }
    }
}

/// The configuration of the index of stops of a dataset: named after the
/// dataset, with ten seconds for the store to answer and the primary shard
/// alone to wait for.
pub open spec fn stop_index(
    dataset: Seq<char>,
    settings: Seq<char>,
    mappings: Seq<char>,
) -> IndexConfigurationView {
    IndexConfigurationView {
        name: dataset,
        timeout: "10s"@,
        wait_for_active_shards: "1"@,
        settings,
        mappings,
    }
}

/// The configuration of the index of stops of a dataset.
pub fn stop_index_configuration(dataset: &str, settings: &str, mappings: &str) -> (config:
    IndexConfiguration)
    ensures
        config@ == stop_index(dataset@, settings@, mappings@),
{
    IndexConfiguration {
        name: dataset.to_owned(),
        parameters: IndexParameters {
            timeout: "10s".to_owned(),
            wait_for_active_shards: "1".to_owned(),
        },
        settings: settings.to_owned(),
        mappings: mappings.to_owned(),
    }
}

/// All that the store needs to write the index of a dataset, and how many
/// of the stops lie in a region. The documents stand in the order of the
/// stops, one for each.
pub struct ImportedStops {
    pub config: IndexConfiguration,
    pub documents: Vec<StopDoc>,
    pub doc_type: String,
    pub visibility: IndexVisibility,
    pub stats: MatchStats,
}

/// Imports the stops of a dataset: attaches each to the regions of the
/// index that contain it, no two of them with the same id, adds the dataset
/// to its coverages, blends its weight with the importance of the first
/// city among its regions, and makes a document of it. The documents are to
/// be written into a public index named after the dataset.
///
/// The blend is made over the local weight of the stop. A stop that comes
/// with a blended weight, as one that was imported before, is blended anew
/// over its local weight: the city of this import takes the place of the
/// earlier one, and the weight is not halved a second time.
pub fn import_stops<F: Fn(&String, &Vec<String>, &Vec<String>) -> String>(
    stops: Vec<Stop>,
    index: &SpatialIndex,
    dataset: &str,
    settings: &str,
    mappings: &str,
    format_label: &F,
) -> (r: ImportedStops)
    requires
        forall|n: &String, a: &Vec<String>, c: &Vec<String>|
            call_requires(format_label, (n, a, c)),
    ensures
        r.config@ == stop_index(dataset@, settings@, mappings@),
        r.doc_type@ == "stop"@,
        r.visibility == IndexVisibility::Public,
        r.documents@.len() == stops@.len(),
        forall|i: int|
            0 <= i < stops@.len() ==> imported(
                stops@[i]@,
                (#[trigger] r.documents@[i])@,
                index@,
                dataset@,
                format_label,
            ),
        forall|i: int|
            0 <= i < stops@.len() ==> distinct_ids(
                (#[trigger] r.documents@[i])@.administrative_regions,
            ),
        r.stats.matched == matched_count(views(stops@), index@, stops@.len() as int),
        r.stats.matched + r.stats.unmatched == stops@.len(),
{
    let ghost given = stops@;
    let mut stops = stops;
    let stats = attach_stops_to_admins(&mut stops, index, format_label);
    let ghost fixed = stops@;
    let mut documents: Vec<StopDoc> = Vec::new();
    for stop in it: stops
        invariant
            it.seq() == fixed,
            fixed.len() == given.len(),
            documents@.len() == it.index(),
            forall|i: int|
                0 <= i < given.len() ==> attached(
                    given[i]@,
                    (#[trigger] fixed[i])@,
                    containing(index@, given[i].coord),
                    format_label,
                ),
            forall|i: int|
                0 <= i < given.len() ==> distinct_ids(
                    (#[trigger] fixed[i])@.administrative_regions,
                ),
            forall|i: int|
                0 <= i < documents@.len() ==> imported(
                    given[i]@,
                    (#[trigger] documents@[i])@,
                    index@,
                    dataset@,
                    format_label,
                ),
            forall|i: int|
                0 <= i < documents@.len() ==> distinct_ids(
                    (#[trigger] documents@[i])@.administrative_regions,
                ),
    {
        let ghost i = it.index() as int;
        let ghost attached_stop = stop@;
        assert(distinct_ids(fixed[i]@.administrative_regions));
        assert(attached(
            given[i]@,
            fixed[i]@,
            containing(index@, given[i].coord),
            format_label,
        ));
        let mut stop = stop;
        stop.coverages.push(dataset.to_owned());
        let bits = admin_weight(&stop.administrative_regions);
        stop.weight = StopWeight {
            count: stop.weight.count,
            max_count: stop.weight.max_count,
            blend: Blend::WithAdmin { weight_bits: bits },
        };
        proof {
            let after = stop@;
            assert(after.coverages =~= attached_stop.coverages.push(dataset@));
            assert((StopView {
                coverages: given[i]@.coverages,
                weight: given[i]@.weight,
                ..after
            }) == attached_stop);
        }
        documents.push(StopDoc(stop));
    }
    ImportedStops {
        config: stop_index_configuration(dataset, settings, mappings),
        documents,
        doc_type: StopDoc::DOC_TYPE.to_owned(),
        visibility: IndexVisibility::Public,
        stats,
    }
}

} // verus!
