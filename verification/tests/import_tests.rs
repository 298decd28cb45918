use std::sync::Arc;
use transit_stops::admin::AdminRegion;
use transit_stops::attach::{attach_stop, attach_stops_to_admins, MatchStats};
use transit_stops::boundary::Boundary;
use transit_stops::geometry::Coordinate;
use transit_stops::import::{
    admin_weight, import_stops, stop_index_configuration, Document, IndexVisibility, StopDoc,
};
use transit_stops::labels::format_stop_label;
use transit_stops::search_documents::{
    execution_outcome, Query, QueryError, QueryParameters, SearchDocuments,
    SearchDocumentsParameters, UseCaseError,
};
use transit_stops::spatial_index::SpatialIndex;
use transit_stops::stop::Stop;
use transit_stops::weight::{initialize_weights, Blend, StopPointCounts, StopWeight};

fn at(lon: i32, lat: i32) -> Coordinate {
    Coordinate { lon, lat }
}

fn strings(items: &[&str]) -> Vec<String> {
    items.iter().map(|s| s.to_string()).collect()
}

fn rectangle(min_lon: i32, min_lat: i32, max_lon: i32, max_lat: i32) -> Vec<Coordinate> {
    vec![at(min_lon, min_lat), at(max_lon, min_lat), at(max_lon, max_lat), at(min_lon, max_lat)]
}

fn region(id: &str, country: &str, zips: &[&str], weight: f64, is_city: bool, ring: Vec<Coordinate>) -> AdminRegion {
    AdminRegion {
        id: id.to_string(),
        name: format!("Name of {}", id),
        country_code: country.to_string(),
        zip_codes: strings(zips),
        weight_bits: weight.to_bits(),
        is_city,
        boundary: Boundary { rings: vec![ring] },
    }
}

fn stop(id: &str, name: &str, coord: Coordinate) -> Stop {
    Stop::new(id.to_string(), name.to_string(), coord)
}

fn label(name: &String, regions: &Vec<String>, countries: &Vec<String>) -> String {
    let mut label = name.clone();
    if !regions.is_empty() {
        label.push_str(" (");
        label.push_str(&regions.join(", "));
        label.push(')');
    }
    if !countries.is_empty() {
        label.push_str(", ");
        label.push_str(&countries.join("/"));
    }
    label
}

fn value(w: &StopWeight) -> f64 {
    let local = w.count as f64 / w.max_count as f64;
    match w.blend {
        Blend::Local => local,
        Blend::WithAdmin { weight_bits } => {
            (local + (f64::from_bits(weight_bits) * 1024.0 + 1.0).log10()) / 2.0
        }
    }
}

fn town() -> Vec<AdminRegion> {
    vec![
        region("country", "fr", &[], 0.9, false, rectangle(0, 0, 1000, 1000)),
        region("city", "fr", &["75012", "75011"], 0.25, true, rectangle(100, 100, 200, 200)),
        region("suburb", "be", &["75012", "1000"], 0.5, true, rectangle(150, 150, 300, 300)),
    ]
}

#[test]
fn a_new_stop_has_no_weight_and_no_attributes() {
    let s = stop("S1", "Gare", at(3, 4));
    assert_eq!(s.id, "S1");
    assert_eq!(s.name, "Gare");
    assert_eq!(s.coord, at(3, 4));
    assert_eq!(s.weight, StopWeight { count: 0, max_count: 1, blend: Blend::Local });
    assert_eq!(value(&s.weight), 0.0);
    assert!(s.label.is_empty());
    assert!(s.administrative_regions.is_empty());
    assert!(s.coverages.is_empty());
    assert!(s.codes.is_empty());
}

#[test]
fn counts_add_up_for_each_stop() {
    let mut counts = StopPointCounts::new();
    assert_eq!(counts.count("a"), 0);
    assert_eq!(counts.max_count(), 1);
    counts.record("a", 2);
    counts.record("b", 5);
    counts.record("a", 4);
    assert_eq!(counts.count("a"), 6);
    assert_eq!(counts.count("b"), 5);
    assert_eq!(counts.count("c"), 0);
    assert_eq!(counts.max_count(), 6);
}

#[test]
fn a_count_stays_at_the_largest_number() {
    let mut counts = StopPointCounts::new();
    counts.record("a", u32::MAX - 1);
    counts.record("a", 5);
    assert_eq!(counts.count("a"), u32::MAX);
    assert_eq!(counts.max_count(), u32::MAX);
}

#[test]
fn the_largest_count_of_zero_counts_is_one() {
    let mut counts = StopPointCounts::new();
    counts.record("a", 0);
    counts.record("b", 0);
    assert_eq!(counts.count("a"), 0);
    assert_eq!(counts.max_count(), 1);
}

#[test]
fn the_busiest_stop_weighs_one_and_an_idle_stop_nothing() {
    let mut counts = StopPointCounts::new();
    counts.record("busy", 8);
    counts.record("calm", 2);
    counts.record("idle", 0);
    let mut stops =
        vec![stop("busy", "B", at(0, 0)), stop("calm", "C", at(0, 0)), stop("idle", "I", at(0, 0)), stop("unknown", "U", at(0, 0))];
    initialize_weights(&mut stops, &counts);
    assert_eq!(stops[0].weight, StopWeight { count: 8, max_count: 8, blend: Blend::Local });
    assert_eq!(stops[1].weight, StopWeight { count: 2, max_count: 8, blend: Blend::Local });
    assert_eq!(stops[2].weight, StopWeight { count: 0, max_count: 8, blend: Blend::Local });
    assert_eq!(stops[3].weight, StopWeight { count: 0, max_count: 8, blend: Blend::Local });
    assert_eq!(value(&stops[0].weight), 1.0);
    assert_eq!(value(&stops[1].weight), 0.25);
    assert_eq!(value(&stops[2].weight), 0.0);
    assert_eq!(value(&stops[3].weight), 0.0);
    assert_eq!(stops[1].name, "C");
    assert_eq!(stops[1].id, "calm");
}

#[test]
fn where_all_counts_are_zero_every_stop_weighs_nothing() {
    let mut counts = StopPointCounts::new();
    counts.record("a", 0);
    let mut stops = vec![stop("a", "A", at(0, 0)), stop("b", "B", at(0, 0))];
    initialize_weights(&mut stops, &counts);
    for s in stops.iter() {
        assert_eq!(s.weight, StopWeight { count: 0, max_count: 1, blend: Blend::Local });
        assert_eq!(value(&s.weight), 0.0);
        assert!(!value(&s.weight).is_nan());
    }
}

#[test]
fn weights_of_an_empty_batch() {
    let mut stops: Vec<Stop> = Vec::new();
    initialize_weights(&mut stops, &StopPointCounts::new());
    assert!(stops.is_empty());
}

#[test]
fn initialize_weights_replaces_an_earlier_weight() {
    let mut counts = StopPointCounts::new();
    counts.record("a", 3);
    let mut s = stop("a", "A", at(0, 0));
    s.weight = StopWeight { count: 9, max_count: 10, blend: Blend::WithAdmin { weight_bits: 1 } };
    let mut stops = vec![s];
    initialize_weights(&mut stops, &counts);
    assert_eq!(stops[0].weight, StopWeight { count: 3, max_count: 3, blend: Blend::Local });
}

#[test]
fn the_admin_weight_is_that_of_the_first_city() {
    let regions: Vec<Arc<AdminRegion>> = town().into_iter().map(Arc::new).collect();
    assert_eq!(admin_weight(&regions), 0.25f64.to_bits());
    let reversed: Vec<Arc<AdminRegion>> = town().into_iter().rev().map(Arc::new).collect();
    assert_eq!(admin_weight(&reversed), 0.5f64.to_bits());
}

#[test]
fn the_admin_weight_without_a_city_is_zero() {
    let regions: Vec<Arc<AdminRegion>> = town().into_iter().take(1).map(Arc::new).collect();
    assert_eq!(admin_weight(&regions), 0);
    assert_eq!(admin_weight(&Vec::new()), 0);
    assert_eq!(f64::from_bits(admin_weight(&Vec::new())), 0.0);
    assert_eq!((f64::from_bits(admin_weight(&Vec::new())) * 1024.0 + 1.0).log10(), 0.0);
}

#[test]
fn a_label_names_the_stop_its_regions_and_its_countries() {
    let name = "Gare de Lyon".to_string();
    assert_eq!(format_stop_label(&name, &Vec::new(), &Vec::new()), "Gare de Lyon");
    assert_eq!(format_stop_label(&name, &strings(&["Paris"]), &strings(&["fr"])), "Gare de Lyon (Paris)");
    assert_eq!(
        format_stop_label(&name, &strings(&["Paris 12e", "Paris", "France"]), &strings(&["fr"])),
        "Gare de Lyon (Paris 12e, Paris, France)"
    );
    assert_eq!(
        format_stop_label(&name, &strings(&["Basel", "Saint-Louis"]), &strings(&["ch", "fr"])),
        "Gare de Lyon (Basel, Saint-Louis), ch/fr"
    );
    assert_eq!(
        format_stop_label(&name, &Vec::new(), &strings(&["be", "fr", "lu"])),
        "Gare de Lyon, be/fr/lu"
    );
    assert_eq!(format_stop_label(&String::new(), &Vec::new(), &strings(&["fr"])), "");
}

#[test]
fn a_stop_outside_every_region_is_labelled_with_its_name() {
    let index = SpatialIndex::build(town());
    let mut stops = vec![stop("out", "Nowhere", at(-5, -5)), stop("in", "Centre", at(160, 160))];
    let stats = attach_stops_to_admins(&mut stops, &index, &format_stop_label);
    assert_eq!(stats, MatchStats { matched: 1, unmatched: 1 });
    assert!(stops[0].administrative_regions.is_empty());
    assert_eq!(stops[0].label, "Nowhere");
    assert_eq!(stops[1].label, "Centre (Name of country, Name of city, Name of suburb), be/fr");
}

#[test]
fn attach_sets_regions_codes_and_label() {
    let regions: Vec<Arc<AdminRegion>> = town().into_iter().map(Arc::new).collect();
    let mut s = stop("S1", "Gare", at(160, 160));
    s.codes = strings(&["keep"]);
    attach_stop(&mut s, regions.clone(), &label);
    assert_eq!(s.administrative_regions, regions);
    assert_eq!(s.country_codes, strings(&["be", "fr"]));
    assert_eq!(s.zip_codes, strings(&["1000", "75011", "75012"]));
    assert_eq!(s.label, "Gare (Name of country, Name of city, Name of suburb), be/fr");
    assert_eq!(s.id, "S1");
    assert_eq!(s.name, "Gare");
    assert_eq!(s.coord, at(160, 160));
    assert_eq!(s.codes, strings(&["keep"]));
    assert_eq!(s.weight, StopWeight { count: 0, max_count: 1, blend: Blend::Local });
}

#[test]
fn attach_to_no_region_clears_what_was_attached() {
    let regions: Vec<Arc<AdminRegion>> = town().into_iter().map(Arc::new).collect();
    let mut s = stop("S1", "Gare", at(160, 160));
    attach_stop(&mut s, regions, &label);
    attach_stop(&mut s, Vec::new(), &label);
    assert!(s.administrative_regions.is_empty());
    assert!(s.country_codes.is_empty());
    assert!(s.zip_codes.is_empty());
    assert_eq!(s.label, "Gare");
}

#[test]
fn a_stop_outside_every_region_is_unmatched() {
    let index = SpatialIndex::build(town());
    let mut stops = vec![stop("out", "Nowhere", at(-5, -5))];
    let stats = attach_stops_to_admins(&mut stops, &index, &label);
    assert_eq!(stats, MatchStats { matched: 0, unmatched: 1 });
    assert!(stops[0].administrative_regions.is_empty());
    assert!(stops[0].country_codes.is_empty());
    assert!(stops[0].zip_codes.is_empty());
    assert_eq!(stops[0].label, "Nowhere");
}

#[test]
fn a_batch_is_attached_stop_by_stop() {
    let index = SpatialIndex::build(town());
    let mut stops = vec![
        stop("a", "A", at(500, 500)),
        stop("b", "B", at(-5, -5)),
        stop("c", "C", at(120, 120)),
        stop("d", "D", at(180, 180)),
        stop("e", "E", at(2000, 2000)),
    ];
    let stats = attach_stops_to_admins(&mut stops, &index, &label);
    assert_eq!(stats, MatchStats { matched: 3, unmatched: 2 });
    let found: Vec<Vec<&str>> = stops
        .iter()
        .map(|s| s.administrative_regions.iter().map(|r| r.id.as_str()).collect())
        .collect();
    assert_eq!(
        found,
        vec![
            vec!["country"],
            vec![],
            vec!["country", "city"],
            vec!["country", "city", "suburb"],
            vec![]
        ]
    );
    assert_eq!(stops[0].label, "A (Name of country), fr");
    assert_eq!(stops[2].zip_codes, strings(&["75011", "75012"]));
    assert_eq!(stops[3].country_codes, strings(&["be", "fr"]));
    assert_eq!(stops[4].label, "E");
}

#[test]
fn a_stop_is_attached_to_no_two_regions_with_one_id() {
    let mut regions = town();
    let mut twin = region("city", "de", &["10115"], 0.75, true, rectangle(0, 0, 1000, 1000));
    twin.name = "Twin".to_string();
    regions.push(twin);
    let index = SpatialIndex::build(regions);
    let mut counts = StopPointCounts::new();
    counts.record("c", 1);
    let mut stops = vec![stop("c", "C", at(120, 120)), stop("f", "F", at(500, 500))];
    initialize_weights(&mut stops, &counts);
    let imported = import_stops(stops, &index, "ds", "", "", &label);
    let docs: Vec<&Stop> = imported.documents.iter().map(|d| d.stop()).collect();
    let found: Vec<Vec<&str>> = docs
        .iter()
        .map(|s| s.administrative_regions.iter().map(|r| r.name.as_str()).collect())
        .collect();
    assert_eq!(found, vec![vec!["Name of country", "Name of city"], vec!["Name of country", "Twin"]]);
    assert_eq!(docs[0].country_codes, strings(&["fr"]));
    assert_eq!(docs[0].zip_codes, strings(&["75011", "75012"]));
    assert_eq!(docs[0].label, "C (Name of country, Name of city), fr");
    assert_eq!(docs[0].weight.blend, Blend::WithAdmin { weight_bits: 0.25f64.to_bits() });
    assert_eq!(docs[1].country_codes, strings(&["de", "fr"]));
    assert_eq!(docs[1].weight.blend, Blend::WithAdmin { weight_bits: 0.75f64.to_bits() });
    assert_eq!(imported.stats, MatchStats { matched: 2, unmatched: 0 });
}

#[test]
fn a_second_import_blends_over_the_local_weight_anew() {
    let index = SpatialIndex::build(town());
    let mut counts = StopPointCounts::new();
    counts.record("c", 2);
    counts.record("x", 4);
    let mut stops = vec![stop("c", "C", at(120, 120))];
    initialize_weights(&mut stops, &counts);
    let once = import_stops(stops, &index, "a", "", "", &label);
    let again: Vec<Stop> = once.documents.into_iter().map(|d| d.into_stop()).collect();
    let twice = import_stops(again, &index, "b", "", "", &label);
    let s = twice.documents[0].stop();
    assert_eq!(
        s.weight,
        StopWeight { count: 2, max_count: 4, blend: Blend::WithAdmin { weight_bits: 0.25f64.to_bits() } }
    );
    assert_eq!(s.coverages, strings(&["a", "b"]));
}

#[test]
fn attaching_an_empty_batch_counts_nothing() {
    let index = SpatialIndex::build(town());
    let mut stops: Vec<Stop> = Vec::new();
    let stats = attach_stops_to_admins(&mut stops, &index, &label);
    assert_eq!(stats, MatchStats { matched: 0, unmatched: 0 });
}

#[test]
fn import_tags_weights_and_wraps_each_stop() {
    let index = SpatialIndex::build(town());
    let mut counts = StopPointCounts::new();
    counts.record("in_city", 4);
    counts.record("outside", 2);
    let mut stops = vec![
        stop("in_city", "Central", at(120, 120)),
        stop("outside", "Far", at(-5, -5)),
        stop("in_country", "Field", at(500, 500)),
    ];
    stops[0].coverages = strings(&["older"]);
    initialize_weights(&mut stops, &counts);
    let imported = import_stops(stops, &index, "fr-idf", "{\"shards\":1}", "{}", &label);
    assert_eq!(imported.stats, MatchStats { matched: 2, unmatched: 1 });
    assert_eq!(imported.config.name, "fr-idf");
    assert_eq!(imported.config.parameters.timeout, "10s");
    assert_eq!(imported.config.parameters.wait_for_active_shards, "1");
    assert_eq!(imported.config.settings, "{\"shards\":1}");
    assert_eq!(imported.config.mappings, "{}");
    assert_eq!(imported.doc_type, "stop");
    assert_eq!(imported.visibility, IndexVisibility::Public);
    assert_eq!(imported.documents.len(), 3);
    let docs: Vec<&Stop> = imported.documents.iter().map(|d| d.stop()).collect();
    assert_eq!(imported.documents[0].id(), "in_city");
    assert_eq!(imported.documents[1].id(), "outside");
    assert_eq!(imported.documents[2].id(), "in_country");
    assert_eq!(imported.documents[0].doc_type(), "stop");
    assert_eq!(StopDoc::DOC_TYPE, "stop");
    assert_eq!(docs[0].coverages, strings(&["older", "fr-idf"]));
    assert_eq!(docs[1].coverages, strings(&["fr-idf"]));
    assert_eq!(
        docs[0].weight,
        StopWeight { count: 4, max_count: 4, blend: Blend::WithAdmin { weight_bits: 0.25f64.to_bits() } }
    );
    assert_eq!(
        docs[1].weight,
        StopWeight { count: 2, max_count: 4, blend: Blend::WithAdmin { weight_bits: 0 } }
    );
    assert_eq!(
        docs[2].weight,
        StopWeight { count: 0, max_count: 4, blend: Blend::WithAdmin { weight_bits: 0 } }
    );
    assert_eq!(value(&docs[0].weight), (1.0 + 257.0f64.log10()) / 2.0);
    assert_eq!(value(&docs[1].weight), 0.25);
    assert_eq!(value(&docs[2].weight), 0.0);
    assert_eq!(docs[0].label, "Central (Name of country, Name of city), fr");
    assert_eq!(docs[1].label, "Far");
    assert!(docs[1].administrative_regions.is_empty());
}

#[test]
fn the_index_of_a_dataset_is_named_after_it() {
    let config = stop_index_configuration("fr-ne", "settings", "mappings");
    assert_eq!(config.name, "fr-ne");
    assert_eq!(config.parameters.timeout, "10s");
    assert_eq!(config.parameters.wait_for_active_shards, "1");
    assert_eq!(config.settings, "settings");
    assert_eq!(config.mappings, "mappings");
}

#[test]
fn importing_no_stops_gives_no_documents() {
    let index = SpatialIndex::build(town());
    let imported = import_stops(Vec::new(), &index, "empty", "", "", &label);
    assert!(imported.documents.is_empty());
    assert_eq!(imported.stats, MatchStats { matched: 0, unmatched: 0 });
    assert_eq!(imported.config.name, "empty");
}

#[test]
fn a_document_is_the_stop_it_was_made_of() {
    let mut s = stop("S9", "Quai", at(1, 2));
    s.codes = strings(&["c"]);
    let doc = StopDoc::from(s.clone());
    assert_eq!(doc.id(), "S9");
    assert_eq!(doc.doc_type(), "stop");
    assert_eq!(*doc.stop(), s);
    assert_eq!(doc.into_stop(), s);
}

struct Shelf {
    documents: Vec<String>,
    open: bool,
}

impl Query<String> for Shelf {
    fn search_documents(&self, query_parameters: QueryParameters) -> Result<Vec<String>, QueryError> {
        if self.open {
            Ok(self.documents.iter().filter(|d| d.contains(&query_parameters.dsl)).cloned().collect())
        } else {
            Err(QueryError { details: format!("closed: {}", query_parameters.containers.join(",")) })
        }
    }
}

fn question(dsl: &str) -> SearchDocumentsParameters {
    SearchDocumentsParameters {
        query_parameters: QueryParameters { containers: strings(&["munin_stop"]), dsl: dsl.to_string() },
    }
}

#[test]
fn a_search_answers_what_the_store_finds() {
    let search = SearchDocuments::new(Box::new(Shelf { documents: strings(&["gare de lyon", "gare du nord", "bastille"]), open: true }));
    match search.execute(question("gare")) {
        Ok(found) => assert_eq!(found, strings(&["gare de lyon", "gare du nord"])),
        Err(_) => panic!("the store answered"),
    }
}

#[test]
fn a_search_hands_on_the_failure_of_the_store() {
    let search = SearchDocuments::new(Box::new(Shelf { documents: Vec::new(), open: false }));
    match search.execute(question("gare")) {
        Ok(_) => panic!("the store did not answer"),
        Err(UseCaseError::Execution { source }) => assert_eq!(source.details, "closed: munin_stop"),
    }
}

#[test]
fn the_outcome_of_a_search_is_the_answer_of_the_store() {
    let found: Result<Vec<u32>, QueryError> = Ok(vec![1, 2, 3]);
    match execution_outcome(found) {
        Ok(docs) => assert_eq!(docs, vec![1, 2, 3]),
        Err(_) => panic!("the store answered"),
    }
    let failed: Result<Vec<u32>, QueryError> = Err(QueryError { details: "down".to_string() });
    match execution_outcome(failed) {
        Ok(_) => panic!("the store did not answer"),
        Err(UseCaseError::Execution { source }) => assert_eq!(source.details, "down"),
    }
}
