//! Points, boxes and boundaries on a grid of whole-numbered coordinates.
//!
//! A coordinate counts fixed fractions of a degree (the library never asks
//! which fraction), so every test on geometry is exact integer arithmetic.
//!
//! A boundary is a set of closed rings, and a point lies inside it when an
//! odd number of its rings hold the point: the outer ring of a polygon
//! holds what the polygon covers, and a hole, being a ring of its own,
//! takes its inside out again. A ring holds a point when a ray that runs
//! east from the point crosses the ring an odd number of times. That is
//! defined for every ring, also one that has no area or crosses itself; a
//! ring of fewer than three vertices holds no point.

use vstd::prelude::*;

verus! {

/// A point: longitude and latitude, in grid units.
#[derive(Clone, Copy, Debug, PartialEq, Eq)]
pub struct Coordinate {
    pub lon: i32,
    pub lat: i32,
}

/// A box with its sides along the axes, all four sides included. A box
/// whose lower bound lies above its upper bound holds no point.
#[derive(Clone, Copy, Debug, PartialEq, Eq)]
pub struct BoundingBox {
    pub min_lon: i32,
    pub min_lat: i32,
    pub max_lon: i32,
    pub max_lat: i32,
}

/// The four parts into which a box is cut at its middle.
#[derive(Clone, Copy, Debug, PartialEq, Eq)]
pub enum Quadrant {
    SouthWest,
    SouthEast,
    NorthWest,
    NorthEast,
}

/// The middle of `lo..=hi`, rounded down.
pub open spec fn middle(lo: i32, hi: i32) -> int {
    lo + (hi - lo) / 2
}

impl BoundingBox {
    /// The point lies in the box.
    pub open spec fn holds(&self, p: Coordinate) -> bool {
        self.min_lon <= p.lon <= self.max_lon && self.min_lat <= p.lat <= self.max_lat
    }

    /// The box holds no point.
    pub open spec fn is_void(&self) -> bool {
        self.min_lon > self.max_lon || self.min_lat > self.max_lat
    }

    /// The two boxes share a point.
    pub open spec fn meets(&self, other: BoundingBox) -> bool {
        &&& self.min_lon <= self.max_lon
        &&& self.min_lat <= self.max_lat
        &&& other.min_lon <= other.max_lon
        &&& other.min_lat <= other.max_lat
        &&& self.min_lon <= other.max_lon
        &&& other.min_lon <= self.max_lon
        &&& self.min_lat <= other.max_lat
        &&& other.min_lat <= self.max_lat
    }

    /// Every point of `other` lies in this box.
    pub open spec fn encloses(&self, other: BoundingBox) -> bool {
        other.is_void() || (self.min_lon <= other.min_lon && other.max_lon <= self.max_lon
            && self.min_lat <= other.min_lat && other.max_lat <= self.max_lat)
    }

    /// The box can be cut into four quadrants that are all smaller.
    pub open spec fn is_divisible(&self) -> bool {
        self.min_lon < self.max_lon && self.min_lat < self.max_lat
    }

    /// One quadrant of the box: west of the middle longitude with the
    /// middle included, or east of it; south of the middle latitude with
    /// the middle included, or north of it.
    pub open spec fn quadrant_of(&self, q: Quadrant) -> BoundingBox {
        let mid_lon = middle(self.min_lon, self.max_lon);
        let mid_lat = middle(self.min_lat, self.max_lat);
        match q {
            Quadrant::SouthWest => BoundingBox {
                min_lon: self.min_lon,
                min_lat: self.min_lat,
                max_lon: mid_lon as i32,
                max_lat: mid_lat as i32,
            },
            Quadrant::SouthEast => BoundingBox {
                min_lon: (mid_lon + 1) as i32,
                min_lat: self.min_lat,
                max_lon: self.max_lon,
                max_lat: mid_lat as i32,
            },
            Quadrant::NorthWest => BoundingBox {
                min_lon: self.min_lon,
                min_lat: (mid_lat + 1) as i32,
                max_lon: mid_lon as i32,
                max_lat: self.max_lat,
            },
            Quadrant::NorthEast => BoundingBox {
                min_lon: (mid_lon + 1) as i32,
                min_lat: (mid_lat + 1) as i32,
                max_lon: self.max_lon,
                max_lat: self.max_lat,
            },
        }
    }

    /// The quadrant in which a point of the box lies.
    pub open spec fn quadrant_at(&self, p: Coordinate) -> Quadrant {
        let west = p.lon <= middle(self.min_lon, self.max_lon);
        let south = p.lat <= middle(self.min_lat, self.max_lat);
        if south {
            if west {
                Quadrant::SouthWest
            } else {
                Quadrant::SouthEast
            }
        } else {
            if west {
                Quadrant::NorthWest
            } else {
                Quadrant::NorthEast
            }
        }
    }

    /// The box that holds no point and that every box encloses.
    pub fn void() -> (r: BoundingBox)
        ensures
            r == (BoundingBox {
                min_lon: i32::MAX,
                min_lat: i32::MAX,
                max_lon: i32::MIN,
                max_lat: i32::MIN,
            }),
    {
        BoundingBox { min_lon: i32::MAX, min_lat: i32::MAX, max_lon: i32::MIN, max_lat: i32::MIN }
    }

    /// Whether the point lies in the box.
    pub fn contains(&self, p: Coordinate) -> (r: bool)
        ensures
            r == self.holds(p),
    {
        self.min_lon <= p.lon && p.lon <= self.max_lon && self.min_lat <= p.lat && p.lat
            <= self.max_lat
    }

    /// Whether the two boxes share a point.
    pub fn intersects(&self, other: &BoundingBox) -> (r: bool)
        ensures
            r == self.meets(*other),
    {
        self.min_lon <= self.max_lon && self.min_lat <= self.max_lat && other.min_lon
            <= other.max_lon && other.min_lat <= other.max_lat && self.min_lon <= other.max_lon
            && other.min_lon <= self.max_lon && self.min_lat <= other.max_lat && other.min_lat
            <= self.max_lat
    }

    /// The smallest box that holds the box and the point.
    pub fn including(&self, p: Coordinate) -> (r: BoundingBox)
        ensures
            r.min_lon == if p.lon < self.min_lon { p.lon } else { self.min_lon },
            r.min_lat == if p.lat < self.min_lat { p.lat } else { self.min_lat },
            r.max_lon == if p.lon > self.max_lon { p.lon } else { self.max_lon },
            r.max_lat == if p.lat > self.max_lat { p.lat } else { self.max_lat },
    {
        BoundingBox {
            min_lon: if p.lon < self.min_lon { p.lon } else { self.min_lon },
            min_lat: if p.lat < self.min_lat { p.lat } else { self.min_lat },
            max_lon: if p.lon > self.max_lon { p.lon } else { self.max_lon },
            max_lat: if p.lat > self.max_lat { p.lat } else { self.max_lat },
        }
    }

    /// Whether the box can be cut into four quadrants that are all smaller.
    pub fn divisible(&self) -> (r: bool)
        ensures
            r == self.is_divisible(),
    {
        self.min_lon < self.max_lon && self.min_lat < self.max_lat
    }

    /// One quadrant of a box that can be cut.
    pub fn quadrant(&self, q: Quadrant) -> (r: BoundingBox)
        requires
            self.is_divisible(),
        ensures
            r == self.quadrant_of(q),
    {
        let mid_lon: i32 = midpoint(self.min_lon, self.max_lon);
        let mid_lat: i32 = midpoint(self.min_lat, self.max_lat);
        match q {
            Quadrant::SouthWest => BoundingBox {
                min_lon: self.min_lon,
                min_lat: self.min_lat,
                max_lon: mid_lon,
                max_lat: mid_lat,
            },
            Quadrant::SouthEast => BoundingBox {
                min_lon: mid_lon + 1,
                min_lat: self.min_lat,
                max_lon: self.max_lon,
                max_lat: mid_lat,
            },
            Quadrant::NorthWest => BoundingBox {
                min_lon: self.min_lon,
                min_lat: mid_lat + 1,
                max_lon: mid_lon,
                max_lat: self.max_lat,
            },
            Quadrant::NorthEast => BoundingBox {
                min_lon: mid_lon + 1,
                min_lat: mid_lat + 1,
                max_lon: self.max_lon,
                max_lat: self.max_lat,
            },
        }
    }

    /// The quadrant of a box that can be cut in which a point lies.
    pub fn quadrant_for(&self, p: Coordinate) -> (q: Quadrant)
        requires
            self.is_divisible(),
        ensures
            q == self.quadrant_at(p),
    {
        let west = p.lon <= midpoint(self.min_lon, self.max_lon);
        let south = p.lat <= midpoint(self.min_lat, self.max_lat);
        if south {
            if west {
                Quadrant::SouthWest
            } else {
                Quadrant::SouthEast
            }
        } else {
            if west {
                Quadrant::NorthWest
            } else {
                Quadrant::NorthEast
            }
        }
    }
}

/// The middle of `lo..hi`, rounded down; it lies below `hi`.
pub fn midpoint(lo: i32, hi: i32) -> (m: i32)
    requires
        lo < hi,
    ensures
        m == middle(lo, hi),
        lo <= m < hi,
{
    let span: i64 = hi as i64 - lo as i64;
    let m: i64 = lo as i64 + span / 2;
    m as i32
}

/// A point of a box that can be cut lies in the quadrant found for it, and
/// in no other.
pub proof fn lemma_quadrants_part(b: BoundingBox, p: Coordinate, q: Quadrant)
    requires
        b.is_divisible(),
        b.holds(p),
    ensures
        b.quadrant_of(q).holds(p) <==> q == b.quadrant_at(p),
        b.encloses(b.quadrant_of(q)),
{
}

} // verus!
