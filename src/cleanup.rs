//! The one-shot cleanup of a transit dataset: minimum stop count,
//! duplicate removal and the exclusion filter.
use vstd::prelude::*;
use std::collections::BTreeMap;
use crate::duplicates::{deduplicated, lemma_keep_where_resolved, lines_resolved, remove_duplicates};
use crate::filter::{ids_unique, keep_where, lemma_keep_where_ids_unique, lemma_keep_where_idempotent, lemma_select_keep_where, retain_flagged};
use crate::line::{Line, Member, line_stops, names_keyword, stop_refs};
use crate::route::{Stop, all_resolved, stops_wf};

verus! {

/// A line qualifies when it has more than `min_stop_count` stop references.
pub open spec fn qualifies(line: Line, min_stop_count: usize) -> bool {
    line_stops(line).len() > min_stop_count
}

/// Keeps the lines with more than `min_stop_count` stop references.
pub fn retain_qualifying(lines: &mut Vec<Line>, min_stop_count: usize)
    ensures
        final(lines)@ == keep_where(old(lines)@, |l: Line| qualifies(l, min_stop_count)),
{
    let mut keep: Vec<bool> = Vec::new();
    let mut i: usize = 0;
    while i < lines.len()
        invariant
            i <= lines@.len(),
            keep@.len() == i,
            forall|k: int| 0 <= k < i ==> keep@[k] == qualifies(#[trigger] lines@[k], min_stop_count),
        decreases lines@.len() - i,
    {
        keep.push(lines[i].stop_count() > min_stop_count);
        i = i + 1;
    }
    proof {
        lemma_select_keep_where(lines@, keep@, |l: Line| qualifies(l, min_stop_count));
    }
    retain_flagged(lines, &keep);
}

/// A line is excluded when its lower-cased display name holds one of
/// the exclusion keywords.
pub fn is_excluded(line: &Line, exclude_keywords: &Vec<String>) -> (r: bool)
    ensures
        r == names_keyword(*line, exclude_keywords@),
{
    line.names_keyword(exclude_keywords)
}

/// Removes the lines that the exclusion keywords exclude.
pub fn exclude_lines(lines: &mut Vec<Line>, exclude_keywords: &Vec<String>)
    ensures
        final(lines)@ == keep_where(old(lines)@, |l: Line| !names_keyword(l, exclude_keywords@)),
{
    let mut keep: Vec<bool> = Vec::new();
    let mut i: usize = 0;
    while i < lines.len()
        invariant
            i <= lines@.len(),
            keep@.len() == i,
            forall|k: int|
                0 <= k < i ==> keep@[k] == !names_keyword(#[trigger] lines@[k], exclude_keywords@),
        decreases lines@.len() - i,
    {
        keep.push(!is_excluded(&lines[i], exclude_keywords));
        i = i + 1;
    }
    proof {
        lemma_select_keep_where(lines@, keep@, |l: Line| !names_keyword(l, exclude_keywords@));
    }
    retain_flagged(lines, &keep);
}

/// The exclusion filter applied to lines it has already filtered removes
/// none of them.
pub proof fn lemma_exclusion_idempotent(lines: Seq<Line>, exclude_keywords: Seq<String>)
    ensures
        ({
            let p = |l: Line| !names_keyword(l, exclude_keywords);
            keep_where(keep_where(lines, p), p) == keep_where(lines, p)
        }),
{
    lemma_keep_where_idempotent(lines, |l: Line| !names_keyword(l, exclude_keywords));
}

/// The members of `members` less the stop references that do not resolve
/// in `stops`, in order.
pub open spec fn resolved_members(members: Seq<Member>, stops: Map<i64, Stop>) -> Seq<Member>
    decreases members.len(),
{
    if members.len() == 0 {
        seq![]
    } else {
        let rest = resolved_members(members.drop_last(), stops);
        match members.last() {
            Member::Stop(id) => if stops.contains_key(id) {
                rest.push(members.last())
            } else {
                rest
            },
            _ => rest.push(members.last()),
        }
    }
}

/// Drops the stop references that do not resolve in `stops`, keeping the
/// other members in order.
pub fn drop_unresolved_stops(members: &Vec<Member>, stops: &BTreeMap<i64, Stop>) -> (r: Vec<Member>)
    ensures
        r@ == resolved_members(members@, stops@),
        all_resolved(stop_refs(r@), stops@),
{
    let mut r: Vec<Member> = Vec::new();
    let mut i: usize = 0;
    while i < members.len()
        invariant
            i <= members@.len(),
            r@ == resolved_members(members@.take(i as int), stops@),
            all_resolved(stop_refs(r@), stops@),
        decreases members@.len() - i,
    {
        proof {
            assert(members@.take(i + 1).drop_last() =~= members@.take(i as int));
        }
        let m = members[i];
        let keep = match m {
            Member::Stop(id) => stops.contains_key(&id),
            _ => true,
        };
        if keep {
            let ghost before = r@;
            r.push(m);
            proof {
                assert(r@.drop_last() =~= before);
                let refs = stop_refs(r@);
                assert forall|k: int| 0 <= k < refs.len() implies stops@.contains_key(#[trigger] refs[k]) by {
                    if k < stop_refs(before).len() {
                        assert(refs[k] == stop_refs(before)[k]);
                    }
                }
            }
        }
        i = i + 1;
    }
    proof {
        assert(members@.take(i as int) =~= members@);
    }
    r
}

/// Whether every stop reference of every line resolves in `stops`.
pub fn all_lines_resolved(lines: &Vec<Line>, stops: &BTreeMap<i64, Stop>) -> (r: bool)
    ensures
        r == lines_resolved(lines@, stops@),
{
    let mut i: usize = 0;
    while i < lines.len()
        invariant
            i <= lines@.len(),
            forall|k: int| 0 <= k < i ==> all_resolved(line_stops(#[trigger] lines@[k]), stops@),
        decreases lines@.len() - i,
    {
        let ids = lines[i].stop_ids();
        let mut j: usize = 0;
        while j < ids.len()
            invariant
                i < lines@.len(),
                j <= ids@.len(),
                ids@ == line_stops(lines@[i as int]),
                forall|m: int| 0 <= m < j ==> stops@.contains_key(#[trigger] ids@[m]),
            decreases ids@.len() - j,
        {
            if !stops.contains_key(&ids[j]) {
                assert(!stops@.contains_key(ids@[j as int]));
                assert(!all_resolved(line_stops(lines@[i as int]), stops@));
                return false;
            }
            j = j + 1;
        }
        i = i + 1;
    }
    true
}

/// The settings of a cleanup pass.
pub struct CleanupConfig {
    /// Lines need strictly more stop references than this to qualify.
    pub min_stop_count: usize,
    /// Distance under which two stops count as the same place.
    pub tolerance_meters: i32,
    /// A duplicate whose name holds one of these is the one removed.
    pub demote_keywords: Vec<String>,
    /// Lines whose name holds one of these are dropped.
    pub exclude_keywords: Vec<String>,
}

impl CleanupConfig {
    /// Five stops, one hundred meters, and `bypass` as the only keyword
    /// of both lists.
    pub fn standard() -> (r: CleanupConfig)
        ensures
            r.min_stop_count == 5,
            r.tolerance_meters == 100,
            r.demote_keywords@.len() == 1,
            r.demote_keywords@[0]@ == "bypass"@,
            r.exclude_keywords@.len() == 1,
            r.exclude_keywords@[0]@ == "bypass"@,
    {
        CleanupConfig {
            min_stop_count: 5,
            tolerance_meters: 100,
            demote_keywords: vec!["bypass".to_owned()],
            exclude_keywords: vec!["bypass".to_owned()],
        }
    }
}

/// Stops by identifier and the transit lines, in enumeration order.
pub struct Dataset {
    pub stops: BTreeMap<i64, Stop>,
    pub lines: Vec<Line>,
}

/// The lines left by a cleanup pass over `lines`: those that qualify, less
/// the duplicates resolved for removal among them, less the excluded ones.
pub open spec fn cleaned(lines: Seq<Line>, stops: Map<i64, Stop>, config: CleanupConfig) -> Seq<Line> {
    let qualified = keep_where(lines, |l: Line| qualifies(l, config.min_stop_count));
    let kept = deduplicated(qualified, config.tolerance_meters, stops, config.demote_keywords@);
    keep_where(kept, |l: Line| !names_keyword(l, config.exclude_keywords@))
}

/// Runs the cleanup pass over `data` in place; the stops are untouched.
pub fn clean(data: &mut Dataset, config: &CleanupConfig)
    requires
        ids_unique(old(data).lines@),
        stops_wf(old(data).stops@),
        lines_resolved(old(data).lines@, old(data).stops@),
    ensures
        final(data).stops@ == old(data).stops@,
        final(data).lines@ == cleaned(old(data).lines@, old(data).stops@, *config),
{
    let ghost orig = data.lines@;
    retain_qualifying(&mut data.lines, config.min_stop_count);
    proof {
        lemma_keep_where_resolved(orig, |l: Line| qualifies(l, config.min_stop_count), data.stops@);
        lemma_keep_where_ids_unique(orig, |l: Line| qualifies(l, config.min_stop_count));
    }
    remove_duplicates(&mut data.lines, &data.stops, config.tolerance_meters, &config.demote_keywords);
    exclude_lines(&mut data.lines, &config.exclude_keywords);
}

} // verus!
