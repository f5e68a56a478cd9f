//! Read-only projections of a cleaned dataset for listing and lookup.
use vstd::prelude::*;
use std::collections::BTreeMap;
use vstd::seq_lib::{to_multiset_build, to_multiset_insert};
use crate::line::{Line, color_of, display_name_of, line_stops};
use crate::route::Stop;

verus! {

/// What a listing shows of one line.
pub struct LineSummary {
    pub id: i64,
    pub name: String,
    pub color: String,
    /// The number of stop references.
    pub len: usize,
}

impl LineSummary {
    pub open spec fn view(&self) -> (i64, Seq<char>, Seq<char>, usize) {
        (self.id, self.name@, self.color@, self.len)
    }
}

/// The listing entry of `line`.
pub open spec fn summary_of(line: Line) -> (i64, Seq<char>, Seq<char>, usize) {
    (line.id, display_name_of(line), color_of(line), line_stops(line).len() as usize)
}

/// The listing entry of one line.
pub fn summarize(line: &Line) -> (r: LineSummary)
    ensures
        r@ == summary_of(*line),
{
    LineSummary {
        id: line.id,
        name: line.display_name(),
        color: line.display_color(),
        len: line.stop_count(),
    }
}

/// Entries ordered by stop count, largest first.
pub open spec fn by_len_descending(s: Seq<(i64, Seq<char>, Seq<char>, usize)>) -> bool {
    forall|a: int, b: int| 0 <= a < b < s.len() ==> s[a].3 >= s[b].3
}

/// The listing of `lines`: one entry per line, largest stop count first.
pub fn list_lines(lines: &Vec<Line>) -> (r: Vec<LineSummary>)
    ensures
        by_len_descending(r@.map_values(|e: LineSummary| e@)),
        r@.map_values(|e: LineSummary| e@).to_multiset() == lines@.map_values(|l: Line| summary_of(l)).to_multiset(),
{
    let mut r: Vec<LineSummary> = Vec::new();
    let mut i: usize = 0;
    proof {
        assert(r@.map_values(|e: LineSummary| e@) =~= lines@.take(0).map_values(|l: Line| summary_of(l)));
    }
    while i < lines.len()
        invariant
            i <= lines@.len(),
            by_len_descending(r@.map_values(|e: LineSummary| e@)),
            r@.map_values(|e: LineSummary| e@).to_multiset() == lines@.take(i as int).map_values(
                |l: Line| summary_of(l),
            ).to_multiset(),
        decreases lines@.len() - i,
    {
        let entry = summarize(&lines[i]);
        let ghost g = r@.map_values(|e: LineSummary| e@);
        let mut pos: usize = 0;
        while pos < r.len() && r[pos].len >= entry.len
            invariant
                pos <= r@.len(),
                g == r@.map_values(|e: LineSummary| e@),
                forall|k: int| 0 <= k < pos ==> (#[trigger] g[k]).3 >= entry.len,
            decreases r@.len() - pos,
        {
            pos = pos + 1;
        }
        let ghost x = entry@;
        r.insert(pos, entry);
        proof {
            assert(r@.map_values(|e: LineSummary| e@) =~= g.insert(pos as int, x));
            to_multiset_insert(g, pos as int, x);
            assert(lines@.take(i + 1).map_values(|l: Line| summary_of(l)) =~= lines@.take(
                i as int,
            ).map_values(|l: Line| summary_of(l)).push(x));
            to_multiset_build(lines@.take(i as int).map_values(|l: Line| summary_of(l)), x);
            let h = g.insert(pos as int, x);
            assert forall|a: int, b: int| 0 <= a < b < h.len() implies h[a].3 >= h[b].3 by {
                if b < pos {
                } else if b == pos {
                } else if a < pos {
                    assert(g[a].3 >= x.3);
                    if pos < g.len() {
                        assert(g[pos as int].3 < x.3);
                        assert(g[pos as int].3 >= g[b - 1].3);
                    }
                } else if a == pos {
                    assert(g[pos as int].3 < x.3);
                    assert(g[pos as int].3 >= g[b - 1].3 || pos as int == b - 1);
                }
            }
        }
        i = i + 1;
    }
    proof {
        assert(lines@.take(i as int) =~= lines@);
    }
    r
}

/// The position of the first line of `lines` with identifier `id`.
pub fn find_line(lines: &Vec<Line>, id: i64) -> (r: Option<usize>)
    ensures
        match r {
            Some(k) => k < lines@.len() && lines@[k as int].id == id && forall|j: int|
                0 <= j < k ==> #[trigger] lines@[j].id != id,
            None => forall|j: int| 0 <= j < lines@.len() ==> #[trigger] lines@[j].id != id,
        },
{
    let mut k: usize = 0;
    while k < lines.len()
        invariant
            k <= lines@.len(),
            forall|j: int| 0 <= j < k ==> #[trigger] lines@[j].id != id,
        decreases lines@.len() - k,
    {
        if lines[k].id == id {
            return Some(k);
        }
        k = k + 1;
    }
    None
}

/// What the lookup of one line shows of a stop.
pub struct StopEntry {
    pub id: i64,
    pub name: String,
    pub lat: i32,
    pub lon: i32,
}

/// The identifiers of `ids` that resolve in `stops`, in order.
pub open spec fn resolved_ids(ids: Seq<i64>, stops: Map<i64, Stop>) -> Seq<i64>
    decreases ids.len(),
{
    if ids.len() == 0 {
        seq![]
    } else {
        let rest = resolved_ids(ids.drop_last(), stops);
        if stops.contains_key(ids.last()) {
            rest.push(ids.last())
        } else {
            rest
        }
    }
}

/// Whether `e` shows the stop `stops[id]`.
pub open spec fn shows_stop(e: StopEntry, id: i64, stops: Map<i64, Stop>) -> bool {
    &&& e.id == id
    &&& e.name@ == stops[id].name@
    &&& e.lat == stops[id].lat
    &&& e.lon == stops[id].lon
}

/// The stops of `line` in order, skipping references that do not resolve.
pub fn line_stop_entries(line: &Line, stops: &BTreeMap<i64, Stop>) -> (r: Vec<StopEntry>)
    ensures
        r@.len() == resolved_ids(line_stops(*line), stops@).len(),
        forall|k: int|
            0 <= k < r@.len() ==> shows_stop(
                #[trigger] r@[k],
                resolved_ids(line_stops(*line), stops@)[k],
                stops@,
            ),
{
    let ids = line.stop_ids();
    let mut r: Vec<StopEntry> = Vec::new();
    let mut i: usize = 0;
    while i < ids.len()
        invariant
            i <= ids@.len(),
            r@.len() == resolved_ids(ids@.take(i as int), stops@).len(),
            forall|k: int|
                0 <= k < r@.len() ==> shows_stop(
                    #[trigger] r@[k],
                    resolved_ids(ids@.take(i as int), stops@)[k],
                    stops@,
                ),
        decreases ids@.len() - i,
    {
        proof {
            assert(ids@.take(i + 1).drop_last() =~= ids@.take(i as int));
        }
        match stops.get(&ids[i]) {
            Some(s) => {
                r.push(StopEntry { id: ids[i], name: s.name.clone(), lat: s.lat, lon: s.lon });
            },
            None => {},
        }
        i = i + 1;
    }
    proof {
        assert(ids@.take(i as int) =~= ids@);
    }
    r
}

} // verus!
