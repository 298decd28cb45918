//! The weight of a stop: its share of the busiest stop's stop points,
//! blended with the importance of the city around it.
//!
//! The library keeps a weight exact, as the numbers it is made of. The
//! number it stands for is `count / max_count` before blending and
//! `(count / max_count + log10(w * 1024 + 1)) / 2` after it, `w` being the
//! importance of the city.

use vstd::prelude::*;
use vstd::hash_map::StringHashMap;
use crate::stop::{Stop, StopView};

verus! {

/// How the weight of a stop is made up.
#[derive(Clone, Copy, Debug, PartialEq, Eq)]
pub enum Blend {
    /// The weight is the local weight alone.
    Local,
    /// The weight is the mean of the local weight and the compressed
    /// importance of a region, whose binary64 bit pattern is `weight_bits`.
    WithAdmin { weight_bits: u64 },
}

/// The weight of a stop. The local weight is the fraction
/// `count / max_count`.
#[derive(Clone, Copy, Debug, PartialEq, Eq)]
pub struct StopWeight {
    pub count: u32,
    pub max_count: u32,
    pub blend: Blend,
}

/// `c` is the largest count of the map, or 1 where no count is larger.
pub open spec fn is_max_count(m: Map<Seq<char>, u32>, c: u32) -> bool {
    &&& c >= 1
    &&& forall|id: Seq<char>| #[trigger] m.contains_key(id) ==> m[id] <= c
    &&& (c == 1 || exists|id: Seq<char>| #[trigger] m.contains_key(id) && m[id] == c)
}

/// The largest count of the map, or 1 where no count is larger.
pub open spec fn max_count_of(m: Map<Seq<char>, u32>) -> u32 {
    choose|c: u32| is_max_count(m, c)
}

/// The count observed for a stop; 0 for a stop that was never observed.
pub open spec fn count_of(m: Map<Seq<char>, u32>, id: Seq<char>) -> u32 {
    if m.contains_key(id) {
        m[id]
    } else {
        0
    }
}

/// The local weight of a stop: its count over the largest count.
pub open spec fn local_weight(m: Map<Seq<char>, u32>, id: Seq<char>) -> StopWeight {
    StopWeight { count: count_of(m, id), max_count: max_count_of(m), blend: Blend::Local }
}

/// A map has one largest count.
pub proof fn lemma_max_count_unique(m: Map<Seq<char>, u32>, c: u32)
    requires
        is_max_count(m, c),
    ensures
        max_count_of(m) == c,
{
    let d = max_count_of(m);
    assert(is_max_count(m, d));
    if d > c {
        let id = choose|id: Seq<char>| #[trigger] m.contains_key(id) && m[id] == d;
        assert(m[id] <= c);
    }
    if c > d {
        let id = choose|id: Seq<char>| #[trigger] m.contains_key(id) && m[id] == c;
        assert(m[id] <= d);
    }
}

/// Below every bound on the counts lies their largest.
proof fn lemma_max_count_below(m: Map<Seq<char>, u32>, c: u32)
    requires
        c >= 1,
        forall|id: Seq<char>| #[trigger] m.contains_key(id) ==> m[id] <= c,
    ensures
        exists|d: u32| is_max_count(m, d),
    decreases c,
{
    if c == 1 {
        assert(is_max_count(m, c));
    } else if exists|id: Seq<char>| #[trigger] m.contains_key(id) && m[id] == c {
        assert(is_max_count(m, c));
    } else {
        lemma_max_count_below(m, (c - 1) as u32);
    }
}

/// Every map has a largest count.
pub proof fn lemma_max_count_exists(m: Map<Seq<char>, u32>)
    ensures
        is_max_count(m, max_count_of(m)),
{
    lemma_max_count_below(m, u32::MAX);
}

/// The stop-point counts observed for the stops of a batch.
pub struct StopPointCounts {
    counts: StringHashMap<u32>,
    max_count: u32,
}

impl View for StopPointCounts {
    type V = Map<Seq<char>, u32>;

    /// The count of each stop that was observed.
    closed spec fn view(&self) -> Map<Seq<char>, u32> {
        self.counts@
    }
}

/// The sum of two counts, held at the largest number a count can be.
pub open spec fn capped_sum(a: u32, b: u32) -> u32 {
    if a + b > u32::MAX {
        u32::MAX
    } else {
        (a + b) as u32
    }
}

/// Adds `observed` to the count of a stop and keeps the largest count.
fn record_into(counts: &mut StringHashMap<u32>, max_count: &mut u32, stop_id: &str, observed: u32)
    requires
        is_max_count(old(counts)@, *old(max_count)),
    ensures
        final(counts)@ == old(counts)@.insert(
            stop_id@,
            capped_sum(count_of(old(counts)@, stop_id@), observed),
        ),
        is_max_count(final(counts)@, *final(max_count)),
{
    let ghost before = counts@;
    let known: u32 = match counts.get(stop_id) {
        Some(c) => *c,
        None => 0,
    };
    let next: u32 = if observed > u32::MAX - known {
        u32::MAX
    } else {
        known + observed
    };
    counts.insert(stop_id.to_owned(), next);
    if next > *max_count {
        *max_count = next;
        assert(counts@.contains_key(stop_id@) && counts@[stop_id@] == next);
    } else if *max_count > 1 {
        let ghost top = choose|id: Seq<char>| #[trigger]
            before.contains_key(id) && before[id] == *max_count;
        assert(counts@.contains_key(top) && counts@[top] == *max_count);
    }
}

impl StopPointCounts {
    /// The largest count is kept beside the counts.
    #[verifier::type_invariant]
    spec fn well_formed(&self) -> bool {
        is_max_count(self.counts@, self.max_count)
    }

    /// No stop observed yet.
    pub fn new() -> (r: StopPointCounts)
        ensures
            r@ == Map::<Seq<char>, u32>::empty(),
    {
        StopPointCounts { counts: StringHashMap::new(), max_count: 1 }
    }

    /// Adds `observed` stop points to the count of a stop. A count that
    /// would pass the largest number it can be stays at that number.
    pub fn record(&mut self, stop_id: &str, observed: u32)
        ensures
            final(self)@ == old(self)@.insert(
                stop_id@,
                capped_sum(count_of(old(self)@, stop_id@), observed),
            ),
    {
        let mut taken = StopPointCounts::new();
        core::mem::swap(self, &mut taken);
        proof {
            use_type_invariant(&taken);
        }
        let StopPointCounts { counts, max_count } = taken;
        let mut counts = counts;
        let mut max_count = max_count;
        record_into(&mut counts, &mut max_count, stop_id, observed);
        *self = StopPointCounts { counts, max_count };
    }

    /// The count observed for a stop; 0 for a stop that was never observed.
    pub fn count(&self, stop_id: &str) -> (c: u32)
        ensures
            c == count_of(self@, stop_id@),
    {
        match self.counts.get(stop_id) {
            Some(c) => *c,
            None => 0,
        }
    }

    /// The largest count, or 1 where no count is larger.
    pub fn max_count(&self) -> (c: u32)
        ensures
            c == max_count_of(self@),
            is_max_count(self@, c),
    {
        proof {
            use_type_invariant(self);
            lemma_max_count_unique(self.counts@, self.max_count);
        }
        self.max_count
    }
}

/// The stop as it is but for its weight.
pub open spec fn with_weight(v: StopView, w: StopWeight) -> StopView {
    StopView { weight: w, ..v }
}

/// Gives each stop its local weight: the count observed for it over the
/// largest count observed (over 1 where no count is larger, so that
/// nothing is divided by zero). A stop that was never observed weighs 0.
pub fn initialize_weights(stops: &mut Vec<Stop>, nb_stop_points: &StopPointCounts)
    ensures
        final(stops)@.len() == old(stops)@.len(),
        forall|i: int|
            0 <= i < old(stops)@.len() ==> (#[trigger] final(stops)@[i])@ == with_weight(
                old(stops)@[i]@,
                local_weight(nb_stop_points@, old(stops)@[i].id@),
            ),
{
    let max: u32 = nb_stop_points.max_count();
    let n: usize = stops.len();
    let mut i: usize = 0;
    while i < n
        invariant
            i <= n,
            n == stops@.len(),
            n == old(stops)@.len(),
            max == max_count_of(nb_stop_points@),
            forall|k: int|
                0 <= k < i ==> (#[trigger] stops@[k])@ == with_weight(
                    old(stops)@[k]@,
                    local_weight(nb_stop_points@, old(stops)@[k].id@),
                ),
            forall|k: int| i <= k < n ==> (#[trigger] stops@[k]) == old(stops)@[k],
        decreases n - i,
    {
        let count: u32 = nb_stop_points.count(stops[i].id.as_str());
        stops[i].weight = StopWeight { count, max_count: max, blend: Blend::Local };
        i += 1;
    }
}

/// The busiest stop of a batch has the local weight 1: its count is the
/// largest count.
pub proof fn lemma_busiest_weighs_one(m: Map<Seq<char>, u32>, id: Seq<char>)
    requires
        m.contains_key(id),
        m[id] >= 1,
        forall|other: Seq<char>| #[trigger] m.contains_key(other) ==> m[other] <= m[id],
    ensures
        local_weight(m, id).count == local_weight(m, id).max_count,
{
    lemma_max_count_unique(m, m[id]);
}

/// A stop with no stop point observed has the local weight 0.
pub proof fn lemma_unobserved_weighs_nothing(m: Map<Seq<char>, u32>, id: Seq<char>)
    requires
        !m.contains_key(id) || m[id] == 0,
    ensures
        local_weight(m, id).count == 0,
        local_weight(m, id).max_count >= 1,
{
    lemma_max_count_exists(m);
}

/// A local weight lies between 0 and 1: the count of a stop is at most the
/// largest count, which is at least 1.
pub proof fn lemma_local_weight_in_range(m: Map<Seq<char>, u32>, id: Seq<char>)
    ensures
        0 <= local_weight(m, id).count <= local_weight(m, id).max_count,
        local_weight(m, id).max_count >= 1,
{
    lemma_max_count_exists(m);
}

} // verus!
