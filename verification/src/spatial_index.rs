//! Which regions contain a point: a quadtree over the regions' bounding
//! boxes, built once and then only read.
//!
//! The index keeps the regions in the order in which it was built from
//! them. A query answers with the regions that contain the point, in that
//! order and with no id twice: of the regions with one id that contain the
//! point, the first in the order of the index is the answer and the later
//! ones are left out. That is what a scan of all regions finds.

use vstd::prelude::*;
use std::sync::Arc;
use crate::admin::AdminRegion;
use crate::boundary::{boundary_holds, box_covers, is_bounding_box, lemma_inside_box};
use crate::geometry::{lemma_quadrants_part, BoundingBox, Coordinate, Quadrant};

verus! {

/// A leaf is not cut while it lists at most this many regions.
pub const DEFAULT_FANOUT: usize = 8;

/// No leaf lies deeper than this below the root.
pub const DEFAULT_MAX_DEPTH: usize = 16;

/// One of the regions has this id.
pub open spec fn has_id(regions: Seq<Arc<AdminRegion>>, id: Seq<char>) -> bool {
    exists|k: int| 0 <= k < regions.len() && (#[trigger] regions[k]).id@ == id
}

/// No two of the regions have the same id.
pub open spec fn distinct_ids(regions: Seq<Arc<AdminRegion>>) -> bool {
    forall|i: int, j: int|
        0 <= i < j < regions.len() ==> (#[trigger] regions[i]).id@ != (#[trigger] regions[j]).id@
}

/// Region `i` contains the point and no region before it that contains
/// the point has its id.
pub open spec fn is_first_holder(regions: Seq<Arc<AdminRegion>>, p: Coordinate, i: int) -> bool {
    &&& 0 <= i < regions.len()
    &&& boundary_holds(regions[i].boundary@, p)
    &&& forall|j: int|
        0 <= j < i && boundary_holds((#[trigger] regions[j]).boundary@, p) ==> regions[j].id@
            != regions[i].id@
}

/// `x` is the first of the regions that contains the point and has its id.
pub open spec fn leads_its_id(regions: Seq<Arc<AdminRegion>>, p: Coordinate, x: Arc<AdminRegion>) -> bool {
    exists|i: int| is_first_holder(regions, p, i) && #[trigger] regions[i] == x
}

/// The regions that contain the point, as a scan of all of them finds
/// them: in their order, and a region left out where a region before it
/// that contains the point has its id.
pub open spec fn containing(regions: Seq<Arc<AdminRegion>>, p: Coordinate) -> Seq<
    Arc<AdminRegion>,
>
    decreases regions.len(),
{
    if regions.len() == 0 {
        Seq::empty()
    } else {
        let rest = containing(regions.drop_last(), p);
        if boundary_holds(regions.last().boundary@, p) && !has_id(rest, regions.last().id@) {
            rest.push(regions.last())
        } else {
            rest
        }
    }
}

/// `c` lists, in ascending order, positions of boxes, among them every box
/// that meets `bounds`.
pub open spec fn lists_all_meeting(c: Seq<usize>, bounds: BoundingBox, boxes: Seq<BoundingBox>) -> bool {
    &&& forall|a: int, b: int| 0 <= a < b < c.len() ==> (#[trigger] c[a]) < (#[trigger] c[b])
    &&& forall|a: int| 0 <= a < c.len() ==> (#[trigger] c[a]) < boxes.len()
    &&& forall|i: usize|
        i < boxes.len() && (#[trigger] boxes[i as int]).meets(bounds) ==> c.contains(i)
}

/// `c` lists, in ascending order, exactly the positions of the boxes that
/// meet `bounds`.
pub open spec fn is_candidate_list(c: Seq<usize>, bounds: BoundingBox, boxes: Seq<BoundingBox>) -> bool {
    &&& lists_all_meeting(c, bounds, boxes)
    &&& forall|a: int| 0 <= a < c.len() ==> boxes[(#[trigger] c[a]) as int].meets(bounds)
}

/// A node of the quadtree: a leaf with the regions whose boxes meet its
/// bounds, or a cut of its bounds into four quadrants.
pub enum QuadNode {
    Leaf { bounds: BoundingBox, candidates: Vec<usize> },
    Split {
        bounds: BoundingBox,
        south_west: Box<QuadNode>,
        south_east: Box<QuadNode>,
        north_west: Box<QuadNode>,
        north_east: Box<QuadNode>,
    },
}

impl QuadNode {
    /// The part of the plane that the node answers for.
    pub open spec fn extent(&self) -> BoundingBox {
        match self {
            QuadNode::Leaf { bounds, .. } => *bounds,
            QuadNode::Split { bounds, .. } => *bounds,
        }
    }

    /// The node is a tree over these boxes: each leaf lists exactly the
    /// boxes that meet its bounds, and the children of a cut answer for
    /// its four quadrants. A leaf that lists more than `fanout` boxes lies
    /// `depth` levels down or cannot be cut.
    pub open spec fn is_tree(&self, boxes: Seq<BoundingBox>, fanout: usize, depth: usize) -> bool
        decreases self,
    {
        match self {
            QuadNode::Leaf { bounds, candidates } => {
                &&& is_candidate_list(candidates@, *bounds, boxes)
                &&& (candidates@.len() <= fanout || depth == 0 || !bounds.is_divisible())
            },
            QuadNode::Split { bounds, south_west, south_east, north_west, north_east } => {
                &&& bounds.is_divisible()
                &&& depth > 0
                &&& south_west.extent() == bounds.quadrant_of(Quadrant::SouthWest)
                &&& south_east.extent() == bounds.quadrant_of(Quadrant::SouthEast)
                &&& north_west.extent() == bounds.quadrant_of(Quadrant::NorthWest)
                &&& north_east.extent() == bounds.quadrant_of(Quadrant::NorthEast)
                &&& south_west.is_tree(boxes, fanout, (depth - 1) as usize)
                &&& south_east.is_tree(boxes, fanout, (depth - 1) as usize)
                &&& north_west.is_tree(boxes, fanout, (depth - 1) as usize)
                &&& north_east.is_tree(boxes, fanout, (depth - 1) as usize)
            },
        }
    }

    /// How many cuts lie between the node and its deepest leaf.
    pub open spec fn height(&self) -> nat
        decreases self,
    {
        match self {
            QuadNode::Leaf { .. } => 0,
            QuadNode::Split { south_west, south_east, north_west, north_east, .. } => {
                let south = if south_west.height() >= south_east.height() {
                    south_west.height()
                } else {
                    south_east.height()
                };
                let north = if north_west.height() >= north_east.height() {
                    north_west.height()
                } else {
                    north_east.height()
                };
                1 + if south >= north {
                    south
                } else {
                    north
                }
            },
        }
    }

    /// A tree that is at most `depth` levels deep is no higher than that.
    pub proof fn lemma_height(&self, boxes: Seq<BoundingBox>, fanout: usize, depth: usize)
        requires
            self.is_tree(boxes, fanout, depth),
        ensures
            self.height() <= depth,
        decreases self,
    {
        match self {
            QuadNode::Leaf { .. } => {},
            QuadNode::Split { south_west, south_east, north_west, north_east, .. } => {
                south_west.lemma_height(boxes, fanout, (depth - 1) as usize);
                south_east.lemma_height(boxes, fanout, (depth - 1) as usize);
                north_west.lemma_height(boxes, fanout, (depth - 1) as usize);
                north_east.lemma_height(boxes, fanout, (depth - 1) as usize);
            },
        }
    }

    /// The part of the plane that the node answers for.
    pub fn bounds(&self) -> (b: BoundingBox)
        ensures
            b == self.extent(),
    {
        match self {
            QuadNode::Leaf { bounds, .. } => *bounds,
            QuadNode::Split { bounds, .. } => *bounds,
        }
    }

    /// The list of the leaf in whose bounds the point lies: among its
    /// entries is every box that holds the point.
    fn locate<'a>(
        &'a self,
        p: Coordinate,
        boxes: &Vec<BoundingBox>,
        fanout: usize,
        depth: usize,
    ) -> (r: &'a Vec<usize>)
        requires
            self.is_tree(boxes@, fanout, depth),
            self.extent().holds(p),
        ensures
            forall|a: int, b: int| 0 <= a < b < r@.len() ==> (#[trigger] r@[a]) < (#[trigger] r@[b]),
            forall|a: int| 0 <= a < r@.len() ==> (#[trigger] r@[a]) < boxes@.len(),
            forall|i: usize|
                i < boxes@.len() && (#[trigger] boxes@[i as int]).holds(p) ==> r@.contains(i),
        decreases self,
    {
        match self {
            QuadNode::Leaf { bounds, candidates } => {
                assert forall|i: usize| i < boxes@.len() && (#[trigger] boxes@[i as int]).holds(
                    p,
                ) implies candidates@.contains(i) by {
                    assert(boxes@[i as int].meets(*bounds));
                }
                candidates
            },
            QuadNode::Split { bounds, south_west, south_east, north_west, north_east } => {
                let q = bounds.quadrant_for(p);
                proof {
                    lemma_quadrants_part(*bounds, p, q);
                }
                match q {
                    Quadrant::SouthWest => south_west.locate(p, boxes, fanout, depth - 1),
                    Quadrant::SouthEast => south_east.locate(p, boxes, fanout, depth - 1),
                    Quadrant::NorthWest => north_west.locate(p, boxes, fanout, depth - 1),
                    Quadrant::NorthEast => north_east.locate(p, boxes, fanout, depth - 1),
                }
            },
        }
    }
}

/// The entries of `source` whose boxes meet `part`.
fn select(boxes: &Vec<BoundingBox>, source: &Vec<usize>, part: &BoundingBox) -> (r: Vec<usize>)
    requires
        lists_all_meeting(source@, *part, boxes@),
    ensures
        is_candidate_list(r@, *part, boxes@),
{
    let mut r: Vec<usize> = Vec::new();
    let n: usize = source.len();
    let mut k: usize = 0;
    while k < n
        invariant
            k <= n,
            n == source.len(),
            lists_all_meeting(source@, *part, boxes@),
            forall|a: int, b: int| 0 <= a < b < r@.len() ==> (#[trigger] r@[a]) < (#[trigger] r@[b]),
            forall|a: int| 0 <= a < r@.len() ==> (#[trigger] r@[a]) < boxes@.len() && boxes@[r@[a] as int].meets(*part),
            forall|a: int, b: int|
                0 <= a < r@.len() && k <= b < n ==> (#[trigger] r@[a]) < (#[trigger] source@[b]),
            forall|b: int|
                0 <= b < k && boxes@[(#[trigger] source@[b]) as int].meets(*part) ==> r@.contains(
                    source@[b],
                ),
        decreases n - k,
    {
        let c: usize = source[k];
        if boxes[c].intersects(part) {
            let ghost before = r@;
            r.push(c);
            proof {
                assert forall|b: int|
                    0 <= b < k + 1 && boxes@[(#[trigger] source@[b]) as int].meets(
                        *part,
                    ) implies r@.contains(source@[b]) by {
                    if b < k {
                        assert(before.contains(source@[b]));
                        let a = choose|a: int| 0 <= a < before.len() && before[a] == source@[b];
                        assert(r@[a] == source@[b]);
                    } else {
                        assert(r@[before.len() as int] == source@[b]);
                    }
                }
                assert forall|a: int, b: int|
                    0 <= a < r@.len() && k + 1 <= b < n implies (#[trigger] r@[a]) < (
                #[trigger] source@[b]) by {
                    if a == before.len() {
                        assert(source@[k as int] < source@[b]);
                    }
                }
            }
        }
        k += 1;
    }
    proof {
        assert forall|i: usize|
            i < boxes@.len() && (#[trigger] boxes@[i as int]).meets(*part) implies r@.contains(
            i,
        ) by {
            assert(source@.contains(i));
            let b = choose|b: int| 0 <= b < source@.len() && source@[b] == i;
            assert(boxes@[source@[b] as int].meets(*part));
        }
    }
    r
}

/// The tree over the boxes listed in `candidates`, for the part `bounds`
/// of the plane, at most `depth` levels deep.
fn build_node(
    boxes: &Vec<BoundingBox>,
    candidates: Vec<usize>,
    bounds: BoundingBox,
    fanout: usize,
    depth: usize,
) -> (node: QuadNode)
    requires
        is_candidate_list(candidates@, bounds, boxes@),
    ensures
        node.is_tree(boxes@, fanout, depth),
        node.extent() == bounds,
    decreases depth,
{
    if candidates.len() <= fanout || depth == 0 || !bounds.divisible() {
        return QuadNode::Leaf { bounds, candidates };
    }
    let sw = bounds.quadrant(Quadrant::SouthWest);
    let se = bounds.quadrant(Quadrant::SouthEast);
    let nw = bounds.quadrant(Quadrant::NorthWest);
    let ne = bounds.quadrant(Quadrant::NorthEast);
    proof {
        lemma_narrow(candidates@, bounds, sw, boxes@);
        lemma_narrow(candidates@, bounds, se, boxes@);
        lemma_narrow(candidates@, bounds, nw, boxes@);
        lemma_narrow(candidates@, bounds, ne, boxes@);
    }
    let in_sw = select(boxes, &candidates, &sw);
    let in_se = select(boxes, &candidates, &se);
    let in_nw = select(boxes, &candidates, &nw);
    let in_ne = select(boxes, &candidates, &ne);
    QuadNode::Split {
        bounds,
        south_west: Box::new(build_node(boxes, in_sw, sw, fanout, depth - 1)),
        south_east: Box::new(build_node(boxes, in_se, se, fanout, depth - 1)),
        north_west: Box::new(build_node(boxes, in_nw, nw, fanout, depth - 1)),
        north_east: Box::new(build_node(boxes, in_ne, ne, fanout, depth - 1)),
    }
}

/// A list of all boxes that meet some bounds lists all that meet a part of
/// those bounds.
proof fn lemma_narrow(c: Seq<usize>, bounds: BoundingBox, part: BoundingBox, boxes: Seq<BoundingBox>)
    requires
        lists_all_meeting(c, bounds, boxes),
        bounds.encloses(part),
    ensures
        lists_all_meeting(c, part, boxes),
{
    assert forall|i: usize| i < boxes.len() && (#[trigger] boxes[i as int]).meets(
        part,
    ) implies c.contains(i) by {
        assert(boxes[i as int].meets(bounds));
    }
}

/// Regions that do not contain the point add nothing to a scan.
pub proof fn lemma_scan_skip(regions: Seq<Arc<AdminRegion>>, p: Coordinate, from: int, to: int)
    requires
        0 <= from <= to <= regions.len(),
        forall|i: int| from <= i < to ==> !boundary_holds((#[trigger] regions[i]).boundary@, p),
    ensures
        containing(regions.take(to), p) == containing(regions.take(from), p),
    decreases to - from,
{
    if from < to {
        lemma_scan_skip(regions, p, from, to - 1);
        assert(regions.take(to).drop_last() =~= regions.take(to - 1));
        assert(regions.take(to).last() == regions[to - 1]);
    }
}

/// What one more region adds to a scan.
pub proof fn lemma_scan_step(regions: Seq<Arc<AdminRegion>>, p: Coordinate, at: int)
    requires
        0 <= at < regions.len(),
    ensures
        containing(regions.take(at + 1), p) == if boundary_holds(regions[at].boundary@, p)
            && !has_id(containing(regions.take(at), p), regions[at].id@) {
            containing(regions.take(at), p).push(regions[at])
        } else {
            containing(regions.take(at), p)
        },
{
    assert(regions.take(at + 1).drop_last() =~= regions.take(at));
    assert(regions.take(at + 1).last() == regions[at]);
}

/// What a scan finds: each region found is the first in the order of the
/// regions that contains the point and has its id, every such region is
/// found, the id of every region that contains the point is the id of a
/// region found, and no two regions found have the same id.
pub proof fn lemma_scan_finds(regions: Seq<Arc<AdminRegion>>, p: Coordinate)
    ensures
        forall|k: int|
            0 <= k < containing(regions, p).len() ==> leads_its_id(
                regions,
                p,
                #[trigger] containing(regions, p)[k],
            ),
        forall|i: int|
            is_first_holder(regions, p, i) ==> containing(regions, p).contains(
                #[trigger] regions[i],
            ),
        forall|i: int|
            0 <= i < regions.len() && boundary_holds((#[trigger] regions[i]).boundary@, p)
                ==> has_id(containing(regions, p), regions[i].id@),
        distinct_ids(containing(regions, p)),
    decreases regions.len(),
{
    let c = containing(regions, p);
    if regions.len() > 0 {
        let n = regions.len() - 1;
        let d = regions.drop_last();
        let rest = containing(d, p);
        let last = regions[n];
        lemma_scan_finds(d, p);
        assert forall|i: int| 0 <= i < n implies is_first_holder(d, p, i) == is_first_holder(
            regions,
            p,
            i,
        ) by {
            assert(d[i] == regions[i]);
            if is_first_holder(d, p, i) {
                assert forall|j: int|
                    0 <= j < i && boundary_holds(
                        (#[trigger] regions[j]).boundary@,
                        p,
                    ) implies regions[j].id@ != regions[i].id@ by {
                    assert(d[j] == regions[j]);
                }
            }
            if is_first_holder(regions, p, i) {
                assert forall|j: int|
                    0 <= j < i && boundary_holds((#[trigger] d[j]).boundary@, p) implies d[j].id@
                    != d[i].id@ by {
                    assert(d[j] == regions[j]);
                }
            }
        }
        let added = boundary_holds(last.boundary@, p) && !has_id(rest, last.id@);
        // An earlier region that contains the point has put its id among
        // the regions found before the last.
        assert forall|j: int|
            0 <= j < n && boundary_holds((#[trigger] regions[j]).boundary@, p) implies has_id(
            rest,
            regions[j].id@,
        ) by {
            assert(d[j] == regions[j]);
        }
        if added {
            assert(is_first_holder(regions, p, n));
        }
        assert forall|k: int| 0 <= k < c.len() implies leads_its_id(regions, p, #[trigger] c[k]) by {
            if k < rest.len() {
                assert(leads_its_id(d, p, rest[k]));
                let i = choose|i: int| is_first_holder(d, p, i) && #[trigger] d[i] == rest[k];
                assert(is_first_holder(regions, p, i) && regions[i] == c[k]);
            } else {
                assert(is_first_holder(regions, p, n) && regions[n] == c[k]);
            }
        }
        assert forall|i: int| is_first_holder(regions, p, i) implies c.contains(
            #[trigger] regions[i],
        ) by {
            if i < n {
                assert(is_first_holder(d, p, i));
                assert(rest.contains(d[i]));
                let k = choose|k: int| 0 <= k < rest.len() && rest[k] == d[i];
                assert(c[k] == regions[i]);
            } else if added {
                assert(c[rest.len() as int] == regions[i]);
            } else {
                assert(has_id(rest, last.id@));
                let k = choose|k: int| 0 <= k < rest.len() && (#[trigger] rest[k]).id@ == last.id@;
                assert(leads_its_id(d, p, rest[k]));
                let j = choose|j: int| is_first_holder(d, p, j) && #[trigger] d[j] == rest[k];
                assert(regions[j] == d[j]);
                assert(boundary_holds(regions[j].boundary@, p));
                assert(false);
            }
        }
        assert forall|i: int|
            0 <= i < regions.len() && boundary_holds(
                (#[trigger] regions[i]).boundary@,
                p,
            ) implies has_id(c, regions[i].id@) by {
            if i < n || !added {
                assert(has_id(rest, regions[i].id@));
                let k = choose|k: int|
                    0 <= k < rest.len() && (#[trigger] rest[k]).id@ == regions[i].id@;
                assert(c[k].id@ == regions[i].id@);
            } else {
                assert(c[rest.len() as int].id@ == regions[i].id@);
            }
        }
        assert forall|i: int, j: int| 0 <= i < j < c.len() implies (#[trigger] c[i]).id@ != (
        #[trigger] c[j]).id@ by {
            if j < rest.len() {
                assert(rest[i].id@ != rest[j].id@);
            } else {
                assert(rest[i].id@ == c[i].id@);
            }
        }
    }
}

/// Where one region alone contains the point, that region is the answer.
pub proof fn lemma_single_region(regions: Seq<Arc<AdminRegion>>, p: Coordinate, r: int)
    requires
        0 <= r < regions.len(),
        boundary_holds(regions[r].boundary@, p),
        forall|i: int|
            0 <= i < regions.len() && i != r ==> !boundary_holds(
                (#[trigger] regions[i]).boundary@,
                p,
            ),
    ensures
        containing(regions, p) == seq![regions[r]],
{
    lemma_scan_skip(regions, p, 0, r);
    assert(regions.take(0) =~= Seq::<Arc<AdminRegion>>::empty());
    assert(!has_id(Seq::<Arc<AdminRegion>>::empty(), regions[r].id@));
    lemma_scan_step(regions, p, r);
    lemma_scan_skip(regions, p, r + 1, regions.len() as int);
    assert(regions.take(regions.len() as int) =~= regions);
    assert(Seq::<Arc<AdminRegion>>::empty().push(regions[r]) =~= seq![regions[r]]);
}

/// Where no region contains the point, the answer is empty.
pub proof fn lemma_no_region(regions: Seq<Arc<AdminRegion>>, p: Coordinate)
    requires
        forall|i: int|
            0 <= i < regions.len() ==> !boundary_holds((#[trigger] regions[i]).boundary@, p),
    ensures
        containing(regions, p) == Seq::<Arc<AdminRegion>>::empty(),
{
    lemma_scan_skip(regions, p, 0, regions.len() as int);
    assert(regions.take(0) =~= Seq::<Arc<AdminRegion>>::empty());
    assert(regions.take(regions.len() as int) =~= regions);
}

/// Whether one of the regions has this id.
fn holds_id(regions: &Vec<Arc<AdminRegion>>, id: &String) -> (r: bool)
    ensures
        r == has_id(regions@, id@),
{
    let n: usize = regions.len();
    let mut k: usize = 0;
    while k < n
        invariant
            k <= n,
            n == regions@.len(),
            forall|j: int| 0 <= j < k ==> (#[trigger] regions@[j]).id@ != id@,
        decreases n - k,
    {
        if regions[k].id == *id {
            return true;
        }
        k += 1;
    }
    false
}

/// The regions that contain the point, found by testing every region: in
/// the order of the regions, with no id twice. Of the regions with one id
/// that contain the point, the first is found.
pub fn scan(regions: &Vec<Arc<AdminRegion>>, p: Coordinate) -> (found: Vec<Arc<AdminRegion>>)
    ensures
        found@ == containing(regions@, p),
        distinct_ids(found@),
{
    let mut found: Vec<Arc<AdminRegion>> = Vec::new();
    let n: usize = regions.len();
    let mut i: usize = 0;
    assert(regions@.take(0) =~= Seq::<Arc<AdminRegion>>::empty());
    while i < n
        invariant
            i <= n,
            n == regions.len(),
            found@ == containing(regions@.take(i as int), p),
        decreases n - i,
    {
        proof {
            lemma_scan_step(regions@, p, i as int);
        }
        if regions[i].boundary.contains(p) && !holds_id(&found, &regions[i].id) {
            found.push(Arc::clone(&regions[i]));
        }
        i += 1;
    }
    proof {
        assert(regions@.take(n as int) =~= regions@);
        lemma_scan_finds(regions@, p);
    }
    found
}

/// A box that encloses every box of the list.
fn hull(boxes: &Vec<BoundingBox>) -> (r: BoundingBox)
    ensures
        forall|i: int| 0 <= i < boxes@.len() ==> r.encloses(#[trigger] boxes@[i]),
{
    let mut r = BoundingBox::void();
    let n: usize = boxes.len();
    let mut i: usize = 0;
    while i < n
        invariant
            i <= n,
            n == boxes.len(),
            forall|k: int| 0 <= k < i ==> r.encloses(#[trigger] boxes@[k]),
        decreases n - i,
    {
        let b = boxes[i];
        if b.min_lon <= b.max_lon && b.min_lat <= b.max_lat {
            let ghost before = r;
            r = r.including(Coordinate { lon: b.min_lon, lat: b.min_lat });
            r = r.including(Coordinate { lon: b.max_lon, lat: b.max_lat });
            assert forall|k: int| 0 <= k < i implies r.encloses(#[trigger] boxes@[k]) by {
                assert(before.encloses(boxes@[k]));
            }
        }
        i += 1;
    }
    r
}

/// The positions `0..n`.
fn positions(n: usize) -> (all: Vec<usize>)
    ensures
        all@.len() == n,
        forall|k: int| 0 <= k < n ==> (#[trigger] all@[k]) == k,
{
    let mut all: Vec<usize> = Vec::new();
    let mut k: usize = 0;
    while k < n
        invariant
            k <= n,
            all@.len() == k,
            forall|j: int| 0 <= j < k ==> (#[trigger] all@[j]) == j,
        decreases n - k,
    {
        all.push(k);
        k += 1;
    }
    all
}

/// An index of regions by place, for the question which regions contain a
/// point. It is built once and never changes.
pub struct SpatialIndex {
    regions: Vec<Arc<AdminRegion>>,
    boxes: Vec<BoundingBox>,
    root: QuadNode,
    fanout: usize,
    max_depth: usize,
}

impl View for SpatialIndex {
    type V = Seq<Arc<AdminRegion>>;

    /// The regions of the index, in the order in which it was built.
    closed spec fn view(&self) -> Seq<Arc<AdminRegion>> {
        self.regions@
    }
}

impl SpatialIndex {
    /// Every region has its bounding box; the root answers for a part of
    /// the plane that encloses every box; and the tree is cut as the two
    /// limits ask.
    #[verifier::type_invariant]
    spec fn well_formed(&self) -> bool {
        &&& self.boxes@.len() == self.regions@.len()
        &&& forall|i: int|
            0 <= i < self.boxes@.len() ==> is_bounding_box(
                #[trigger] self.boxes@[i],
                self.regions@[i].boundary@,
            )
        &&& forall|i: int|
            0 <= i < self.boxes@.len() ==> self.root.extent().encloses(#[trigger] self.boxes@[i])
        &&& self.root.is_tree(self.boxes@, self.fanout, self.max_depth)
    }

    /// The bounding boxes of the regions, in the order of the regions.
    pub closed spec fn boxes(&self) -> Seq<BoundingBox> {
        self.boxes@
    }

    /// The quadtree over the bounding boxes.
    pub closed spec fn root(&self) -> QuadNode {
        self.root
    }

    /// The index holds these regions, each with its bounding box, under a
    /// tree that answers for a part of the plane in which all the boxes
    /// lie and that is cut as the two limits ask.
    pub open spec fn is_index_of(
        &self,
        regions: Seq<AdminRegion>,
        fanout: usize,
        max_depth: usize,
    ) -> bool {
        &&& self@.len() == regions.len()
        &&& forall|i: int| 0 <= i < regions.len() ==> *(#[trigger] self@[i]) == regions[i]
        &&& self.boxes().len() == regions.len()
        &&& forall|i: int|
            0 <= i < regions.len() ==> is_bounding_box(
                #[trigger] self.boxes()[i],
                regions[i].boundary@,
            )
        &&& forall|i: int|
            0 <= i < regions.len() ==> self.root().extent().encloses(#[trigger] self.boxes()[i])
        &&& self.root().is_tree(self.boxes(), fanout, max_depth)
        &&& self.root().height() <= max_depth
    }

    /// Builds the index of the given regions with the default limits.
    pub fn build(regions: Vec<AdminRegion>) -> (index: SpatialIndex)
        ensures
            index.is_index_of(regions@, DEFAULT_FANOUT, DEFAULT_MAX_DEPTH),
    {
        SpatialIndex::build_with(regions, DEFAULT_FANOUT, DEFAULT_MAX_DEPTH)
    }

    /// Builds the index of the given regions. A part of the plane is cut
    /// into quadrants while the boxes of more than `fanout` regions meet
    /// it, it lies less than `max_depth` cuts below the whole and it is
    /// more than one grid unit wide and high. A region whose boundary has
    /// no vertex, or only rings of fewer than three vertices, stays in the
    /// index and contains no point. Regions that have the same id all stay
    /// in the index; a query answers with the first of them that contains
    /// the point.
    pub fn build_with(regions: Vec<AdminRegion>, fanout: usize, max_depth: usize) -> (index:
        SpatialIndex)
        ensures
            index.is_index_of(regions@, fanout, max_depth),
    {
        let mut shared: Vec<Arc<AdminRegion>> = Vec::new();
        let mut boxes: Vec<BoundingBox> = Vec::new();
        for region in it: regions
            invariant
                it.seq() == regions@,
                shared@.len() == it.index(),
                boxes@.len() == it.index(),
                forall|i: int| 0 <= i < shared@.len() ==> *(#[trigger] shared@[i]) == regions@[i],
                forall|i: int|
                    0 <= i < boxes@.len() ==> is_bounding_box(
                        #[trigger] boxes@[i],
                        shared@[i].boundary@,
                    ),
        {
            let b = region.boundary.bounding_box();
            boxes.push(b);
            shared.push(Arc::new(region));
        }
        let bounds = hull(&boxes);
        let all = positions(boxes.len());
        proof {
            assert forall|i: usize| i < boxes@.len() && (#[trigger] boxes@[i as int]).meets(
                bounds,
            ) implies all@.contains(i) by {
                assert(all@[i as int] == i);
            }
        }
        let candidates = select(&boxes, &all, &bounds);
        let root = build_node(&boxes, candidates, bounds, fanout, max_depth);
        proof {
            root.lemma_height(boxes@, fanout, max_depth);
        }
        SpatialIndex { regions: shared, boxes, root, fanout, max_depth }
    }

    /// The regions of the index, in the order in which it was built.
    pub fn regions(&self) -> (r: &Vec<Arc<AdminRegion>>)
        ensures
            r@ == self@,
    {
        &self.regions
    }

    /// The regions that contain the point: in the order of the index, none
    /// that does not contain it, and no id twice. Of the regions with one
    /// id that contain the point, the first in the order of the index is
    /// answered and the later ones are left out.
    pub fn get(&self, p: Coordinate) -> (found: Vec<Arc<AdminRegion>>)
        ensures
            found@ == containing(self@, p),
            forall|i: int, j: int|
                0 <= i < j < found@.len() ==> (#[trigger] found@[i]).id@ != (#[trigger] found@[j]).id@,
    {
        proof {
            use_type_invariant(self);
        }
        let mut found: Vec<Arc<AdminRegion>> = Vec::new();
        let ghost regions = self.regions@;
        let n: usize = self.regions.len();
        if !self.root.bounds().contains(p) {
            proof {
                assert forall|i: int| 0 <= i < regions.len() implies !boundary_holds(
                    (#[trigger] regions[i]).boundary@,
                    p,
                ) by {
                    if boundary_holds(regions[i].boundary@, p) {
                        lemma_inside_box(regions[i].boundary@, self.boxes@[i], p);
                        assert(self.root.extent().encloses(self.boxes@[i]));
                    }
                }
                lemma_no_region(regions, p);
            }
            return found;
        }
        let candidates = self.root.locate(p, &self.boxes, self.fanout, self.max_depth);
        let m: usize = candidates.len();
        let mut k: usize = 0;
        let mut done: usize = 0;
        assert(regions.take(0) =~= Seq::<Arc<AdminRegion>>::empty());
        while k < m
            invariant
                k <= m,
                m == candidates@.len(),
                n == regions.len(),
                regions == self.regions@,
                self.boxes@.len() == n,
                done <= n,
                k < m ==> done <= candidates@[k as int],
                forall|a: int, b: int|
                    0 <= a < b < m ==> (#[trigger] candidates@[a]) < (#[trigger] candidates@[b]),
                forall|a: int| 0 <= a < m ==> (#[trigger] candidates@[a]) < n,
                forall|i: usize|
                    i < n && (#[trigger] self.boxes@[i as int]).holds(p) ==> candidates@.contains(i),
                forall|i: int|
                    0 <= i < n ==> box_covers(
                        #[trigger] self.boxes@[i],
                        regions[i].boundary@,
                    ),
                forall|i: usize|
                    done <= i < n && candidates@.contains(i) ==> exists|a: int|
                        k <= a < m && #[trigger] candidates@[a] == i,
                found@ == containing(regions.take(done as int), p),
            decreases m - k,
        {
            let c: usize = candidates[k];
            proof {
                assert forall|i: int| done <= i < c implies !boundary_holds(
                    (#[trigger] regions[i]).boundary@,
                    p,
                ) by {
                    let at: usize = i as usize;
                    if boundary_holds(regions[i].boundary@, p) {
                        lemma_inside_box(regions[i].boundary@, self.boxes@[i], p);
                        assert(self.boxes@[at as int].holds(p));
                        assert(candidates@.contains(at));
                        let a = choose|a: int| k <= a < m && #[trigger] candidates@[a] == at;
                        if a > k {
                            assert(candidates@[k as int] < candidates@[a]);
                        }
                    }
                }
                lemma_scan_skip(regions, p, done as int, c as int);
                lemma_scan_step(regions, p, c as int);
            }
            if self.boxes[c].contains(p) && self.regions[c].boundary.contains(p) && !holds_id(
                &found,
                &self.regions[c].id,
            ) {
                found.push(Arc::clone(&self.regions[c]));
            } else {
                proof {
                    if boundary_holds(regions[c as int].boundary@, p) {
                        lemma_inside_box(regions[c as int].boundary@, self.boxes@[c as int], p);
                    }
                }
            }
            proof {
                assert forall|i: usize|
                    c + 1 <= i < n && candidates@.contains(i) implies exists|a: int|
                    k + 1 <= a < m && #[trigger] candidates@[a] == i by {
                    let a = choose|a: int| k <= a < m && #[trigger] candidates@[a] == i;
                    assert(a != k);
                }
            }
            done = c + 1;
            k += 1;
        }
        proof {
            assert forall|i: int| done <= i < n implies !boundary_holds(
                (#[trigger] regions[i]).boundary@,
                p,
            ) by {
                let at: usize = i as usize;
                if boundary_holds(regions[i].boundary@, p) {
                    lemma_inside_box(regions[i].boundary@, self.boxes@[i], p);
                    assert(self.boxes@[at as int].holds(p));
                    assert(candidates@.contains(at));
                }
            }
            lemma_scan_skip(regions, p, done as int, n as int);
            assert(regions.take(n as int) =~= regions);
            lemma_scan_finds(regions, p);
        }
        found
    }
}

} // verus!
