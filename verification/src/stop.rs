//! Transit stops.

use vstd::prelude::*;
use std::sync::Arc;
use crate::admin::AdminRegion;
use crate::geometry::Coordinate;
use crate::string_set::texts;
use crate::weight::{Blend, StopWeight};

verus! {

/// A transit stop as one dataset describes it.
#[derive(Clone, Debug, PartialEq, Eq)]
pub struct Stop {
    /// Unique within a dataset, not across datasets.
    pub id: String,
    pub name: String,
    pub coord: Coordinate,
    pub weight: StopWeight,
    pub label: String,
    pub administrative_regions: Vec<Arc<AdminRegion>>,
    pub country_codes: Vec<String>,
    pub zip_codes: Vec<String>,
    pub codes: Vec<String>,
    pub physical_modes: Vec<String>,
    pub commercial_modes: Vec<String>,
    pub coverages: Vec<String>,
    pub properties: Vec<String>,
    pub feed_publishers: Vec<String>,
}

/// A stop as a mathematical value.
///
/// The sets of a stop are sequences here, as they are vectors in the stop:
/// what makes one a set is that it is ascending.
pub struct StopView {
    pub id: Seq<char>,
    pub name: Seq<char>,
    pub coord: Coordinate,
    pub weight: StopWeight,
    pub label: Seq<char>,
    pub administrative_regions: Seq<Arc<AdminRegion>>,
    pub country_codes: Seq<Seq<char>>,
    pub zip_codes: Seq<Seq<char>>,
    pub codes: Seq<Seq<char>>,
    pub physical_modes: Seq<Seq<char>>,
    pub commercial_modes: Seq<Seq<char>>,
    pub coverages: Seq<Seq<char>>,
    pub properties: Seq<Seq<char>>,
    pub feed_publishers: Seq<Seq<char>>,
}

impl View for Stop {
    type V = StopView;

    open spec fn view(&self) -> StopView {
        StopView {
            id: self.id@,
            name: self.name@,
            coord: self.coord,
            weight: self.weight,
            label: self.label@,
            administrative_regions: self.administrative_regions@,
            country_codes: texts(self.country_codes@),
            zip_codes: texts(self.zip_codes@),
            codes: texts(self.codes@),
            physical_modes: texts(self.physical_modes@),
            commercial_modes: texts(self.commercial_modes@),
            coverages: texts(self.coverages@),
            properties: texts(self.properties@),
            feed_publishers: texts(self.feed_publishers@),
        }
    }
}

impl Stop {
    /// A stop with an id, a name and a place and nothing else: no stop
    /// point observed, no region, no label, no attribute.
    pub fn new(id: String, name: String, coord: Coordinate) -> (stop: Stop)
        ensures
            stop@ == (StopView {
                id: id@,
                name: name@,
                coord,
                weight: StopWeight { count: 0, max_count: 1, blend: Blend::Local },
                label: Seq::<char>::empty(),
                administrative_regions: Seq::<Arc<AdminRegion>>::empty(),
                country_codes: Seq::<Seq<char>>::empty(),
                zip_codes: Seq::<Seq<char>>::empty(),
                codes: Seq::<Seq<char>>::empty(),
                physical_modes: Seq::<Seq<char>>::empty(),
                commercial_modes: Seq::<Seq<char>>::empty(),
                coverages: Seq::<Seq<char>>::empty(),
                properties: Seq::<Seq<char>>::empty(),
                feed_publishers: Seq::<Seq<char>>::empty(),
            }),
    {
        let stop = Stop {
            id,
            name,
            coord,
            weight: StopWeight { count: 0, max_count: 1, blend: Blend::Local },
            label: String::new(),
            administrative_regions: Vec::new(),
            country_codes: Vec::new(),
            zip_codes: Vec::new(),
            codes: Vec::new(),
            physical_modes: Vec::new(),
            commercial_modes: Vec::new(),
            coverages: Vec::new(),
            properties: Vec::new(),
            feed_publishers: Vec::new(),
        };
        assert(texts(Seq::<String>::empty()) =~= Seq::<Seq<char>>::empty());
        stop
    }
}

/// What a vector of stops holds, as mathematical values.
pub open spec fn views(v: Seq<Stop>) -> Seq<StopView> {
    Seq::new(v.len(), |i: int| v[i]@)
}

/// The attributes of a stop that hold several values.
pub enum Field {
    Codes,
    PhysicalModes,
    CommercialModes,
    Coverages,
    Properties,
    FeedPublishers,
}

/// The values of one multi-valued attribute of a stop.
pub open spec fn field(v: StopView, f: Field) -> Seq<Seq<char>> {
    match f {
        Field::Codes => v.codes,
        Field::PhysicalModes => v.physical_modes,
        Field::CommercialModes => v.commercial_modes,
        Field::Coverages => v.coverages,
        Field::Properties => v.properties,
        Field::FeedPublishers => v.feed_publishers,
    }
}

} // verus!
