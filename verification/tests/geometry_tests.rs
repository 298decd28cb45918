use std::sync::Arc;
use transit_stops::admin::AdminRegion;
use transit_stops::boundary::{crosses, ring_contains, Boundary};
use transit_stops::geometry::{midpoint, BoundingBox, Coordinate, Quadrant};
use transit_stops::spatial_index::{scan, SpatialIndex};

fn at(lon: i32, lat: i32) -> Coordinate {
    Coordinate { lon, lat }
}

fn rectangle(min_lon: i32, min_lat: i32, max_lon: i32, max_lat: i32) -> Vec<Coordinate> {
    vec![at(min_lon, min_lat), at(max_lon, min_lat), at(max_lon, max_lat), at(min_lon, max_lat)]
}

fn region(id: &str, rings: Vec<Vec<Coordinate>>) -> AdminRegion {
    AdminRegion {
        id: id.to_string(),
        name: format!("Region {}", id),
        country_code: "fr".to_string(),
        zip_codes: Vec::new(),
        weight_bits: 0,
        is_city: false,
        boundary: Boundary { rings },
    }
}

fn ids(found: &[Arc<AdminRegion>]) -> Vec<String> {
    found.iter().map(|r| r.id.clone()).collect()
}

#[test]
fn box_contains_its_sides() {
    let b = BoundingBox { min_lon: 0, min_lat: 0, max_lon: 10, max_lat: 5 };
    assert!(b.contains(at(0, 0)));
    assert!(b.contains(at(10, 5)));
    assert!(b.contains(at(3, 4)));
    assert!(!b.contains(at(11, 4)));
    assert!(!b.contains(at(3, -1)));
}

#[test]
fn void_box_contains_nothing_and_meets_nothing() {
    let v = BoundingBox::void();
    assert!(!v.contains(at(0, 0)));
    assert!(!v.contains(at(i32::MAX, i32::MAX)));
    let b = BoundingBox { min_lon: i32::MIN, min_lat: i32::MIN, max_lon: i32::MAX, max_lat: i32::MAX };
    assert!(!v.intersects(&b));
    assert!(!b.intersects(&v));
}

#[test]
fn boxes_meet_where_they_share_a_point() {
    let a = BoundingBox { min_lon: 0, min_lat: 0, max_lon: 10, max_lat: 10 };
    let b = BoundingBox { min_lon: 10, min_lat: 10, max_lon: 20, max_lat: 20 };
    let c = BoundingBox { min_lon: 11, min_lat: 0, max_lon: 20, max_lat: 10 };
    assert!(a.intersects(&b));
    assert!(b.intersects(&a));
    assert!(!a.intersects(&c));
    assert!(b.intersects(&c));
}

#[test]
fn including_grows_a_box_to_a_point() {
    let grown = BoundingBox::void().including(at(3, 4));
    assert_eq!(grown, BoundingBox { min_lon: 3, min_lat: 4, max_lon: 3, max_lat: 4 });
    let wider = grown.including(at(-1, 9));
    assert_eq!(wider, BoundingBox { min_lon: -1, min_lat: 4, max_lon: 3, max_lat: 9 });
    assert_eq!(wider.including(at(0, 5)), wider);
}

#[test]
fn midpoint_rounds_down_and_does_not_overflow() {
    assert_eq!(midpoint(0, 10), 5);
    assert_eq!(midpoint(0, 1), 0);
    assert_eq!(midpoint(-3, 0), -2);
    assert_eq!(midpoint(i32::MIN, i32::MAX), -1);
    assert_eq!(midpoint(i32::MAX - 1, i32::MAX), i32::MAX - 1);
}

#[test]
fn quadrants_part_a_box() {
    let b = BoundingBox { min_lon: 0, min_lat: 0, max_lon: 9, max_lat: 4 };
    assert!(b.divisible());
    assert_eq!(
        b.quadrant(Quadrant::SouthWest),
        BoundingBox { min_lon: 0, min_lat: 0, max_lon: 4, max_lat: 2 }
    );
    assert_eq!(
        b.quadrant(Quadrant::SouthEast),
        BoundingBox { min_lon: 5, min_lat: 0, max_lon: 9, max_lat: 2 }
    );
    assert_eq!(
        b.quadrant(Quadrant::NorthWest),
        BoundingBox { min_lon: 0, min_lat: 3, max_lon: 4, max_lat: 4 }
    );
    assert_eq!(
        b.quadrant(Quadrant::NorthEast),
        BoundingBox { min_lon: 5, min_lat: 3, max_lon: 9, max_lat: 4 }
    );
    let all = [Quadrant::SouthWest, Quadrant::SouthEast, Quadrant::NorthWest, Quadrant::NorthEast];
    for lon in 0..10 {
        for lat in 0..5 {
            let home = b.quadrant_for(at(lon, lat));
            for q in all.iter() {
                assert_eq!(b.quadrant(*q).contains(at(lon, lat)), *q == home);
            }
        }
    }
}

#[test]
fn a_line_is_not_divisible() {
    assert!(!BoundingBox { min_lon: 0, min_lat: 3, max_lon: 9, max_lat: 3 }.divisible());
    assert!(!BoundingBox { min_lon: 2, min_lat: 0, max_lon: 2, max_lat: 9 }.divisible());
    assert!(!BoundingBox::void().divisible());
}

#[test]
fn an_edge_crosses_the_ray_east_of_a_point_west_of_it() {
    assert!(crosses(at(5, 0), at(5, 10), at(0, 5)));
    assert!(crosses(at(5, 10), at(5, 0), at(0, 5)));
    assert!(!crosses(at(5, 0), at(5, 10), at(6, 5)));
    assert!(!crosses(at(5, 0), at(5, 10), at(5, 5)));
    assert!(crosses(at(5, 0), at(5, 10), at(0, 0)));
    assert!(!crosses(at(5, 0), at(5, 10), at(0, 10)));
    assert!(!crosses(at(0, 3), at(9, 3), at(-5, 3)));
    assert!(crosses(at(0, 0), at(10, 10), at(4, 5)));
    assert!(!crosses(at(0, 0), at(10, 10), at(5, 5)));
    assert!(!crosses(at(0, 0), at(10, 10), at(6, 5)));
}

#[test]
fn crossing_is_exact_at_the_ends_of_the_grid() {
    let a = at(i32::MIN, i32::MIN);
    let b = at(i32::MAX, i32::MAX);
    assert!(crosses(a, b, at(-1, 0)));
    assert!(!crosses(a, b, at(0, 0)));
    assert!(crosses(b, a, at(i32::MAX - 2, i32::MAX - 1)));
    assert!(!crosses(b, a, at(i32::MAX, i32::MAX - 1)));
}

#[test]
fn a_square_holds_its_inside() {
    let square = rectangle(0, 0, 10, 10);
    assert!(ring_contains(&square, at(5, 5)));
    assert!(ring_contains(&square, at(1, 9)));
    assert!(!ring_contains(&square, at(11, 5)));
    assert!(!ring_contains(&square, at(-1, 5)));
    assert!(!ring_contains(&square, at(5, 11)));
    assert!(!ring_contains(&square, at(5, -1)));
}

#[test]
fn a_ring_that_repeats_its_first_vertex_holds_the_same() {
    let mut closed = rectangle(0, 0, 10, 10);
    closed.push(at(0, 0));
    let open = rectangle(0, 0, 10, 10);
    for lon in -2..13 {
        for lat in -2..13 {
            assert_eq!(ring_contains(&closed, at(lon, lat)), ring_contains(&open, at(lon, lat)));
        }
    }
}

#[test]
fn a_ring_holds_the_same_whichever_way_it_turns() {
    let triangle = vec![at(0, 0), at(12, 3), at(4, 11)];
    let reversed = vec![at(4, 11), at(12, 3), at(0, 0)];
    for lon in -1..14 {
        for lat in -1..13 {
            assert_eq!(
                ring_contains(&triangle, at(lon, lat)),
                ring_contains(&reversed, at(lon, lat))
            );
        }
    }
    assert!(ring_contains(&triangle, at(5, 4)));
    assert!(!ring_contains(&triangle, at(11, 9)));
}

#[test]
fn a_thin_ring_holds_nothing() {
    let rings: Vec<Vec<Coordinate>> =
        vec![vec![], vec![at(1, 1)], vec![at(0, 0), at(10, 10)], vec![at(0, 5), at(10, 5)]];
    for ring in rings.iter() {
        for lon in -1..12 {
            for lat in -1..12 {
                assert!(!ring_contains(ring, at(lon, lat)));
            }
        }
    }
}

#[test]
fn a_ring_that_crosses_itself_still_answers() {
    let bow = vec![at(0, 0), at(10, 10), at(10, 0), at(0, 10)];
    assert!(ring_contains(&bow, at(2, 5)));
    assert!(ring_contains(&bow, at(8, 5)));
    assert!(!ring_contains(&bow, at(5, 2)));
    assert!(!ring_contains(&bow, at(5, 8)));
}

#[test]
fn a_hole_takes_its_inside_out_of_a_boundary() {
    let b = Boundary { rings: vec![rectangle(0, 0, 20, 20), rectangle(5, 5, 15, 15)] };
    assert!(b.contains(at(2, 2)));
    assert!(b.contains(at(17, 10)));
    assert!(!b.contains(at(10, 10)));
    assert!(!b.contains(at(25, 10)));
}

#[test]
fn a_boundary_of_two_parts_holds_both() {
    let b = Boundary { rings: vec![rectangle(0, 0, 10, 10), rectangle(20, 20, 30, 30)] };
    assert!(b.contains(at(5, 5)));
    assert!(b.contains(at(25, 25)));
    assert!(!b.contains(at(15, 15)));
}

#[test]
fn a_boundary_without_rings_holds_nothing() {
    let b = Boundary { rings: Vec::new() };
    assert!(!b.contains(at(0, 0)));
    assert_eq!(b.bounding_box(), BoundingBox::void());
}

#[test]
fn the_bounding_box_is_the_smallest() {
    let b = Boundary { rings: vec![vec![at(3, -4), at(12, 3), at(4, 11)], vec![at(-7, 0)]] };
    assert_eq!(
        b.bounding_box(),
        BoundingBox { min_lon: -7, min_lat: -4, max_lon: 12, max_lat: 11 }
    );
}

#[test]
fn a_point_in_one_region_alone_finds_that_region() {
    let index = SpatialIndex::build(vec![
        region("west", vec![rectangle(0, 0, 10, 10)]),
        region("east", vec![rectangle(20, 0, 30, 10)]),
        region("north", vec![rectangle(0, 20, 30, 30)]),
    ]);
    assert_eq!(ids(&index.get(at(5, 5))), vec!["west"]);
    assert_eq!(ids(&index.get(at(25, 5))), vec!["east"]);
    assert_eq!(ids(&index.get(at(15, 25))), vec!["north"]);
    assert!(index.get(at(15, 5)).is_empty());
    assert!(index.get(at(-100, -100)).is_empty());
    assert!(index.get(at(100, 100)).is_empty());
}

#[test]
fn nested_regions_are_found_in_the_order_of_the_index() {
    let index = SpatialIndex::build(vec![
        region("country", vec![rectangle(0, 0, 1000, 1000)]),
        region("city", vec![rectangle(100, 100, 200, 200)]),
        region("district", vec![rectangle(120, 120, 150, 150)]),
    ]);
    assert_eq!(ids(&index.get(at(130, 130))), vec!["country", "city", "district"]);
    assert_eq!(ids(&index.get(at(180, 180))), vec!["country", "city"]);
    assert_eq!(ids(&index.get(at(500, 500))), vec!["country"]);
}

#[test]
fn the_index_answers_what_a_scan_answers() {
    let mut regions = Vec::new();
    let mut seed: u32 = 12345;
    let mut next = |bound: i32| -> i32 {
        seed = seed.wrapping_mul(1103515245).wrapping_add(12345);
        ((seed >> 8) % (bound as u32)) as i32
    };
    for k in 0..60 {
        let lon = next(200) - 100;
        let lat = next(200) - 100;
        let ring = vec![
            at(lon, lat),
            at(lon + 1 + next(40), lat + next(10)),
            at(lon + next(40), lat + 1 + next(40)),
            at(lon - next(10), lat + next(30)),
        ];
        regions.push(region(&format!("r{}", k), vec![ring]));
    }
    for limits in [(1usize, 0usize), (1, 3), (2, 8), (8, 16), (1, 40)].iter() {
        let index = SpatialIndex::build_with(regions.clone(), limits.0, limits.1);
        let mut lon = -110;
        while lon <= 110 {
            let mut lat = -110;
            while lat <= 110 {
                let found = index.get(at(lon, lat));
                let scanned = scan(index.regions(), at(lon, lat));
                assert_eq!(ids(&found), ids(&scanned));
                let mut expected = Vec::new();
                for r in regions.iter() {
                    if r.boundary.contains(at(lon, lat)) {
                        expected.push(r.id.clone());
                    }
                }
                assert_eq!(ids(&found), expected);
                lat += 3;
            }
            lon += 3;
        }
    }
}

#[test]
fn many_regions_with_the_same_box_are_indexed() {
    let mut regions = Vec::new();
    for k in 0..100 {
        regions.push(region(&format!("same{}", k), vec![rectangle(0, 0, 10, 10)]));
    }
    let index = SpatialIndex::build_with(regions, 1, 64);
    assert_eq!(index.get(at(5, 5)).len(), 100);
    assert!(index.get(at(11, 5)).is_empty());
}

#[test]
fn a_region_with_a_malformed_boundary_stays_and_contains_nothing() {
    let index = SpatialIndex::build(vec![
        region("empty", Vec::new()),
        region("line", vec![vec![at(0, 0), at(10, 10)]]),
        region("good", vec![rectangle(0, 0, 10, 10)]),
    ]);
    assert_eq!(index.regions().len(), 3);
    assert_eq!(ids(&index.get(at(5, 5))), vec!["good"]);
    assert_eq!(ids(&index.get(at(5, 6))), vec!["good"]);
}

#[test]
fn of_two_regions_with_one_id_the_first_is_found() {
    let mut first = region("twin", vec![rectangle(0, 0, 10, 10)]);
    first.name = "first".to_string();
    let mut second = region("twin", vec![rectangle(5, 5, 20, 20)]);
    second.name = "second".to_string();
    let other = region("other", vec![rectangle(0, 0, 20, 20)]);
    for limits in [(1usize, 0usize), (1, 8), (8, 16)].iter() {
        let index =
            SpatialIndex::build_with(vec![first.clone(), other.clone(), second.clone()], limits.0, limits.1);
        assert_eq!(index.regions().len(), 3);
        let both = index.get(at(7, 7));
        assert_eq!(ids(&both), vec!["twin", "other"]);
        assert_eq!(both[0].name, "first");
        let early = index.get(at(2, 2));
        assert_eq!(ids(&early), vec!["twin", "other"]);
        assert_eq!(early[0].name, "first");
        let late = index.get(at(15, 15));
        assert_eq!(ids(&late), vec!["other", "twin"]);
        assert_eq!(late[1].name, "second");
        assert_eq!(ids(&scan(index.regions(), at(7, 7))), vec!["twin", "other"]);
        assert_eq!(scan(index.regions(), at(15, 15))[1].name, "second");
    }
}

#[test]
fn a_region_listed_twice_is_found_once() {
    let r = region("once", vec![rectangle(0, 0, 10, 10)]);
    let index = SpatialIndex::build(vec![r.clone(), r.clone(), r]);
    assert_eq!(index.regions().len(), 3);
    assert_eq!(ids(&index.get(at(5, 5))), vec!["once"]);
    assert!(index.get(at(11, 5)).is_empty());
}

#[test]
fn no_answer_holds_an_id_twice() {
    let mut regions = Vec::new();
    for k in 0..40 {
        let lon = (k * 7) % 50;
        let lat = (k * 11) % 50;
        regions.push(region(&format!("r{}", k % 9), vec![rectangle(lon, lat, lon + 30, lat + 30)]));
    }
    let index = SpatialIndex::build_with(regions.clone(), 2, 10);
    let mut lon = -5;
    while lon <= 85 {
        let mut lat = -5;
        while lat <= 85 {
            let found = index.get(at(lon, lat));
            for i in 0..found.len() {
                for j in (i + 1)..found.len() {
                    assert_ne!(found[i].id, found[j].id);
                }
            }
            let mut expected: Vec<String> = Vec::new();
            for r in regions.iter() {
                if r.boundary.contains(at(lon, lat)) && !expected.contains(&r.id) {
                    expected.push(r.id.clone());
                }
            }
            assert_eq!(ids(&found), expected);
            assert_eq!(ids(&scan(index.regions(), at(lon, lat))), expected);
            lat += 4;
        }
        lon += 4;
    }
}

#[test]
fn an_index_of_no_regions_finds_nothing() {
    let index = SpatialIndex::build(Vec::new());
    assert!(index.regions().is_empty());
    assert!(index.get(at(0, 0)).is_empty());
}

#[test]
fn the_index_keeps_the_regions_as_given() {
    let given = vec![
        region("a", vec![rectangle(0, 0, 10, 10)]),
        region("b", vec![rectangle(5, 5, 15, 15)]),
    ];
    let index = SpatialIndex::build(given.clone());
    assert_eq!(index.regions().len(), 2);
    assert_eq!(*index.regions()[0], given[0]);
    assert_eq!(*index.regions()[1], given[1]);
}

#[test]
fn regions_at_the_ends_of_the_grid_are_found() {
    let index = SpatialIndex::build_with(
        vec![
            region("all", vec![rectangle(i32::MIN, i32::MIN, i32::MAX, i32::MAX)]),
            region("corner", vec![rectangle(i32::MAX - 10, i32::MAX - 10, i32::MAX, i32::MAX)]),
        ],
        1,
        40,
    );
    assert_eq!(ids(&index.get(at(0, 0))), vec!["all"]);
    assert_eq!(ids(&index.get(at(i32::MAX - 5, i32::MAX - 5))), vec!["all", "corner"]);
    assert_eq!(ids(&index.get(at(i32::MIN, i32::MIN))), vec!["all"]);
}
