//! Stops and the orientation-insensitive equivalence of two stop sequences.
use vstd::prelude::*;
use std::collections::BTreeMap;
use crate::geo::{
    almost_same_position, lemma_within_tolerance_monotone, lemma_within_tolerance_same_point,
    within_tolerance, COS_SCALE,
};

verus! {

broadcast use vstd::std_specs::btree::group_btree_axioms;

/// A stop: a point with an identifier, a display name and fixed-point
/// coordinates in decimicro degrees.
pub struct Stop {
    pub id: i64,
    pub name: String,
    pub lat: i32,
    pub lon: i32,
    /// Cosine of `lat`, in units of `1 / COS_SCALE`.
    pub lon_factor: u32,
}

/// Every stop of the lookup carries a correction factor within range.
pub open spec fn stops_wf(stops: Map<i64, Stop>) -> bool {
    forall|k: i64| #[trigger] stops.contains_key(k) ==> stops[k].lon_factor <= COS_SCALE
}

/// Every identifier of `ids` resolves in `stops`.
pub open spec fn all_resolved(ids: Seq<i64>, stops: Map<i64, Stop>) -> bool {
    forall|i: int| 0 <= i < ids.len() ==> stops.contains_key(#[trigger] ids[i])
}

/// Whether the stop `b` lies within tolerance of the stop `a`.
pub open spec fn stops_close(stops: Map<i64, Stop>, a: i64, b: i64, tolerance_meters: i32) -> bool {
    within_tolerance(
        (stops[a].lat, stops[a].lon),
        (stops[b].lat, stops[b].lon),
        tolerance_meters,
        stops[a].lon_factor as int,
    )
}

/// Each stop of `a` is close to the stop of `b` at the same position.
pub open spec fn forward_match(a: Seq<i64>, b: Seq<i64>, tolerance_meters: i32, stops: Map<i64, Stop>) -> bool {
    forall|i: int| 0 <= i < a.len() ==> #[trigger] stops_close(stops, a[i], b[i], tolerance_meters)
}

/// Each stop of `a` is close to the stop of `b` at the mirrored position.
pub open spec fn reverse_match(a: Seq<i64>, b: Seq<i64>, tolerance_meters: i32, stops: Map<i64, Stop>) -> bool {
    forall|i: int|
        0 <= i < a.len() ==> #[trigger] stops_close(stops, a[i], b[a.len() - 1 - i], tolerance_meters)
}

/// Two stop sequences describe the same route: equal lengths, and every
/// stop matched either in order or in reverse order.
pub open spec fn same_route_spec(a: Seq<i64>, b: Seq<i64>, tolerance_meters: i32, stops: Map<i64, Stop>) -> bool {
    &&& a.len() == b.len()
    &&& (forward_match(a, b, tolerance_meters, stops) || reverse_match(a, b, tolerance_meters, stops))
}

fn stop_position(stops: &BTreeMap<i64, Stop>, id: i64) -> (r: ((i32, i32), u32))
    requires
        stops@.contains_key(id),
    ensures
        r == ((stops@[id].lat, stops@[id].lon), stops@[id].lon_factor),
{
    let s = stops.get(&id).unwrap();
    ((s.lat, s.lon), s.lon_factor)
}

/// Whether the stops of `nodes_a` match those of `nodes_b`, position by
/// position, read forwards or backwards.
pub fn same_route(
    nodes_a: &[i64],
    nodes_b: &[i64],
    tolerance_meters: i32,
    all_nodes: &BTreeMap<i64, Stop>,
) -> (r: bool)
    requires
        stops_wf(all_nodes@),
        nodes_a@.len() == nodes_b@.len() ==> all_resolved(nodes_a@, all_nodes@) && all_resolved(
            nodes_b@,
            all_nodes@,
        ),
    ensures
        r == same_route_spec(nodes_a@, nodes_b@, tolerance_meters, all_nodes@),
        nodes_a@.len() != nodes_b@.len() ==> !r,
{
    let n = nodes_a.len();
    if n != nodes_b.len() {
        return false;
    }
    let ghost a = nodes_a@;
    let ghost b = nodes_b@;
    let ghost m = all_nodes@;
    let mut forward = true;
    let mut i: usize = 0;
    while i < n
        invariant
            n == a.len(),
            n == b.len(),
            a == nodes_a@,
            b == nodes_b@,
            m == all_nodes@,
            stops_wf(m),
            all_resolved(a, m),
            all_resolved(b, m),
            i <= n,
            forward == forall|k: int| 0 <= k < i ==> #[trigger] stops_close(m, a[k], b[k], tolerance_meters),
        decreases n - i,
    {
        let (pa, fa) = stop_position(all_nodes, nodes_a[i]);
        let (pb, _) = stop_position(all_nodes, nodes_b[i]);
        let close = almost_same_position(pa, pb, tolerance_meters, fa);
        assert(close == stops_close(m, a[i as int], b[i as int], tolerance_meters));
        forward = forward && close;
        i = i + 1;
    }
    if forward {
        return true;
    }
    let mut backward = true;
    let mut i: usize = 0;
    while i < n
        invariant
            n == a.len(),
            n == b.len(),
            a == nodes_a@,
            b == nodes_b@,
            m == all_nodes@,
            stops_wf(m),
            all_resolved(a, m),
            all_resolved(b, m),
            !forward_match(a, b, tolerance_meters, m),
            i <= n,
            backward == forall|k: int|
                0 <= k < i ==> #[trigger] stops_close(m, a[k], b[n - 1 - k], tolerance_meters),
        decreases n - i,
    {
        let (pa, fa) = stop_position(all_nodes, nodes_a[i]);
        let (pb, _) = stop_position(all_nodes, nodes_b[n - 1 - i]);
        let close = almost_same_position(pa, pb, tolerance_meters, fa);
        assert(close == stops_close(m, a[i as int], b[n - 1 - i], tolerance_meters));
        backward = backward && close;
        i = i + 1;
    }
    backward
}

/// A route is the same as its own reversal under any positive tolerance.
pub proof fn lemma_same_route_reversed(s: Seq<i64>, tolerance_meters: i32, stops: Map<i64, Stop>)
    requires
        tolerance_meters > 0,
    ensures
        same_route_spec(s, s.reverse(), tolerance_meters, stops),
{
    let r = s.reverse();
    assert forall|i: int| 0 <= i < s.len() implies #[trigger] stops_close(
        stops,
        s[i],
        r[s.len() - 1 - i],
        tolerance_meters,
    ) by {
        assert(r[s.len() - 1 - i] == s[i]);
        let p = (stops[s[i]].lat, stops[s[i]].lon);
        lemma_within_tolerance_same_point(p, tolerance_meters, stops[s[i]].lon_factor as int);
    }
}

/// Two routes judged the same under a non-negative tolerance stay the same
/// under any larger tolerance.
pub proof fn lemma_same_route_monotone(
    a: Seq<i64>,
    b: Seq<i64>,
    t1: i32,
    t2: i32,
    stops: Map<i64, Stop>,
)
    requires
        0 <= t1 < t2,
        same_route_spec(a, b, t1, stops),
    ensures
        same_route_spec(a, b, t2, stops),
{
    if forward_match(a, b, t1, stops) {
        assert forall|i: int| 0 <= i < a.len() implies #[trigger] stops_close(stops, a[i], b[i], t2) by {
            assert(stops_close(stops, a[i], b[i], t1));
            lemma_within_tolerance_monotone(
                (stops[a[i]].lat, stops[a[i]].lon),
                (stops[b[i]].lat, stops[b[i]].lon),
                t1,
                t2,
                stops[a[i]].lon_factor as int,
            );
        }
    } else {
        assert forall|i: int| 0 <= i < a.len() implies #[trigger] stops_close(
            stops,
            a[i],
            b[a.len() - 1 - i],
            t2,
        ) by {
            assert(stops_close(stops, a[i], b[a.len() - 1 - i], t1));
            lemma_within_tolerance_monotone(
                (stops[a[i]].lat, stops[a[i]].lon),
                (stops[b[a.len() - 1 - i]].lat, stops[b[a.len() - 1 - i]].lon),
                t1,
                t2,
                stops[a[i]].lon_factor as int,
            );
        }
    }
}

} // verus!
