//! Duplicate search within buckets of equal stop count, and the
//! resolution of each duplicate pair to a survivor.
use vstd::prelude::*;
use std::collections::BTreeMap;
use crate::filter::{ids_unique, keep_where, lemma_select_keep_where, retain_flagged};
use crate::line::{Line, display_name_of, line_stops, names_keyword};
use crate::route::{Stop, all_resolved, same_route, same_route_spec, stops_wf};

verus! {

/// Every stop reference of every line of `s` resolves in `stops`.
pub open spec fn lines_resolved(s: Seq<Line>, stops: Map<i64, Stop>) -> bool {
    forall|i: int| 0 <= i < s.len() ==> all_resolved(line_stops(#[trigger] s[i]), stops)
}

/// The lines at positions `i < j` of `s` are duplicates: they fall in one
/// bucket (equal stop counts) and describe the same route.
pub open spec fn is_duplicate(s: Seq<Line>, i: int, j: int, tolerance_meters: i32, stops: Map<i64, Stop>) -> bool {
    &&& 0 <= i < j < s.len()
    &&& line_stops(s[i]).len() == line_stops(s[j]).len()
    &&& same_route_spec(line_stops(s[i]), line_stops(s[j]), tolerance_meters, stops)
}

proof fn lemma_push_contains<T>(s: Seq<T>, x: T, y: T)
    ensures
        s.push(x).contains(y) <==> (s.contains(y) || y == x),
{
    if s.contains(y) {
        let k = choose|k: int| 0 <= k < s.len() && s[k] == y;
        assert(s.push(x)[k] == y);
    }
    if y == x {
        assert(s.push(x)[s.len() as int] == y);
    }
    if s.push(x).contains(y) {
        let k = choose|k: int| 0 <= k < s.push(x).len() && s.push(x)[k] == y;
        if k < s.len() {
            assert(s[k] == y);
        }
    }
}

/// The stop identifiers of each line, in order.
fn all_stop_ids(lines: &Vec<Line>) -> (r: Vec<Vec<i64>>)
    ensures
        r@.len() == lines@.len(),
        forall|k: int| 0 <= k < lines@.len() ==> (#[trigger] r@[k])@ == line_stops(lines@[k]),
{
    let mut r: Vec<Vec<i64>> = Vec::new();
    let mut i: usize = 0;
    while i < lines.len()
        invariant
            i <= lines@.len(),
            r@.len() == i,
            forall|k: int| 0 <= k < i ==> (#[trigger] r@[k])@ == line_stops(lines@[k]),
        decreases lines@.len() - i,
    {
        r.push(lines[i].stop_ids());
        i = i + 1;
    }
    r
}

/// Whether position `p` stands in one of `buckets`.
pub open spec fn holds_position(buckets: Seq<Vec<usize>>, p: int) -> bool {
    exists|k: int, x: int| 0 <= k < buckets.len() && 0 <= x < buckets[k]@.len() && #[trigger] buckets[k]@[x] == p
}

/// `buckets[k]` holds, in increasing order, positions below `n` whose count
/// is `keys[k]`; the keys are distinct and every position below `n` is held.
pub open spec fn is_bucketing(keys: Seq<usize>, buckets: Seq<Vec<usize>>, counts: Seq<usize>, n: int) -> bool {
    &&& keys.len() == buckets.len()
    &&& forall|k: int, x: int|
        0 <= k < buckets.len() && 0 <= x < buckets[k]@.len() ==> {
            &&& #[trigger] buckets[k]@[x] < n
            &&& counts[buckets[k]@[x] as int] == keys[k]
        }
    &&& forall|k: int, x: int, y: int|
        0 <= k < buckets.len() && 0 <= x < y < buckets[k]@.len() ==> #[trigger] buckets[k]@[x]
            < #[trigger] buckets[k]@[y]
    &&& forall|k1: int, k2: int|
        0 <= k1 < keys.len() && 0 <= k2 < keys.len() && k1 != k2 ==> #[trigger] keys[k1] != #[trigger] keys[k2]
    &&& forall|p: int| 0 <= p < n ==> #[trigger] holds_position(buckets, p)
}

/// Groups the positions of `counts` by their value: one bucket per
/// distinct count, in order of first appearance.
pub fn bucket_by_count(counts: &Vec<usize>) -> (r: (Vec<usize>, Vec<Vec<usize>>))
    ensures
        is_bucketing(r.0@, r.1@, counts@, counts@.len() as int),
{
    let mut keys: Vec<usize> = Vec::new();
    let mut buckets: Vec<Vec<usize>> = Vec::new();
    let mut i: usize = 0;
    while i < counts.len()
        invariant
            i <= counts@.len(),
            is_bucketing(keys@, buckets@, counts@, i as int),
        decreases counts@.len() - i,
    {
        let c = counts[i];
        let mut k: usize = 0;
        while k < keys.len() && keys[k] != c
            invariant
                k <= keys@.len(),
                forall|m: int| 0 <= m < k ==> keys@[m] != c,
            decreases keys@.len() - k,
        {
            k = k + 1;
        }
        let ghost old_keys = keys@;
        let ghost old_b = buckets@;
        if k < keys.len() {
            let mut v = buckets.remove(k);
            let ghost old_v = v@;
            v.push(i);
            let ghost nv = v;
            buckets.insert(k, v);
            proof {
                assert(buckets@ =~= old_b.update(k as int, nv));
                assert forall|kk: int, x: int| 0 <= kk < buckets@.len() && 0 <= x < buckets@[kk]@.len() implies {
                    &&& #[trigger] buckets@[kk]@[x] < i + 1
                    &&& counts@[buckets@[kk]@[x] as int] == keys@[kk]
                } by {
                    if kk == k && x == old_v.len() {
                    } else {
                        assert(buckets@[kk]@[x] == old_b[kk]@[x]);
                    }
                }
                assert forall|kk: int, x: int, y: int|
                    0 <= kk < buckets@.len() && 0 <= x < y < buckets@[kk]@.len() implies #[trigger] buckets@[kk]@[x]
                    < #[trigger] buckets@[kk]@[y] by {
                    if kk == k && y == old_v.len() {
                        assert(old_b[kk]@[x] < i);
                    } else {
                        assert(buckets@[kk]@[x] == old_b[kk]@[x]);
                        assert(buckets@[kk]@[y] == old_b[kk]@[y]);
                    }
                }
                assert forall|p: int| 0 <= p < i + 1 implies #[trigger] holds_position(buckets@, p) by {
                    if p == i {
                        assert(buckets@[k as int]@[old_v.len() as int] == p);
                    } else {
                        assert(holds_position(old_b, p));
                        let (kk, x) = choose|kk: int, x: int|
                            0 <= kk < old_b.len() && 0 <= x < old_b[kk]@.len() && #[trigger] old_b[kk]@[x] == p;
                        assert(buckets@[kk]@[x] == p);
                    }
                }
            }
        } else {
            keys.push(c);
            let mut v: Vec<usize> = Vec::new();
            v.push(i);
            let ghost nv = v;
            buckets.push(v);
            proof {
                assert forall|kk: int, x: int| 0 <= kk < buckets@.len() && 0 <= x < buckets@[kk]@.len() implies {
                    &&& #[trigger] buckets@[kk]@[x] < i + 1
                    &&& counts@[buckets@[kk]@[x] as int] == keys@[kk]
                } by {
                    if kk < old_b.len() {
                        assert(buckets@[kk] == old_b[kk]);
                    }
                }
                assert forall|kk: int, x: int, y: int|
                    0 <= kk < buckets@.len() && 0 <= x < y < buckets@[kk]@.len() implies #[trigger] buckets@[kk]@[x]
                    < #[trigger] buckets@[kk]@[y] by {
                    if kk < old_b.len() {
                        assert(buckets@[kk] == old_b[kk]);
                    }
                }
                assert forall|k1: int, k2: int|
                    0 <= k1 < keys@.len() && 0 <= k2 < keys@.len() && k1 != k2 implies #[trigger] keys@[k1]
                    != #[trigger] keys@[k2] by {
                    if k1 < old_keys.len() && k2 < old_keys.len() {
                        assert(keys@[k1] == old_keys[k1]);
                        assert(keys@[k2] == old_keys[k2]);
                    } else if k1 < old_keys.len() {
                        assert(keys@[k1] == old_keys[k1]);
                    } else {
                        assert(keys@[k2] == old_keys[k2]);
                    }
                }
                assert forall|p: int| 0 <= p < i + 1 implies #[trigger] holds_position(buckets@, p) by {
                    if p == i {
                        assert(buckets@[old_b.len() as int]@[0] == p);
                    } else {
                        assert(holds_position(old_b, p));
                        let (kk, x) = choose|kk: int, x: int|
                            0 <= kk < old_b.len() && 0 <= x < old_b[kk]@.len() && #[trigger] old_b[kk]@[x] == p;
                        assert(buckets@[kk] == old_b[kk]);
                        assert(buckets@[kk]@[x] == p);
                    }
                }
            }
        }
        i = i + 1;
    }
    (keys, buckets)
}

/// `p` is the pair of the `a`-th and `c`-th positions of bucket `k`, `a < c`.
pub open spec fn bucket_pair(buckets: Seq<Vec<usize>>, k: int, a: int, c: int, p: (usize, usize)) -> bool {
    &&& 0 <= k < buckets.len()
    &&& 0 <= a < c < buckets[k]@.len()
    &&& buckets[k]@[a] == p.0
    &&& buckets[k]@[c] == p.1
}

/// `p` is a pair of one of the buckets before `b`.
pub open spec fn earlier_bucket_pair(buckets: Seq<Vec<usize>>, b: int, p: (usize, usize)) -> bool {
    exists|k: int, a: int, c: int| k < b && #[trigger] bucket_pair(buckets, k, a, c, p)
}

/// `p` is a pair of bucket `b` met before the pair at indices `(x, y)`.
pub open spec fn current_bucket_pair(buckets: Seq<Vec<usize>>, b: int, x: int, y: int, p: (usize, usize)) -> bool {
    exists|a: int, c: int| #[trigger] bucket_pair(buckets, b, a, c, p) && (a < x || (a == x && c < y))
}

/// The duplicate pairs among `lines`, as positions `(i, j)` with `i < j`.
/// Lines are bucketed by their stop count; each pair within a bucket is
/// compared once, with the route test at `tolerance_meters`, and lines of
/// different buckets are never compared.
pub fn find_duplicate_pairs(
    lines: &Vec<Line>,
    stops: &BTreeMap<i64, Stop>,
    tolerance_meters: i32,
) -> (r: Vec<(usize, usize)>)
    requires
        stops_wf(stops@),
        lines_resolved(lines@, stops@),
    ensures
        forall|p: (usize, usize)|
            r@.contains(p) <==> is_duplicate(lines@, p.0 as int, p.1 as int, tolerance_meters, stops@),
        forall|k: int|
            0 <= k < r@.len() ==> line_stops(lines@[(#[trigger] r@[k]).0 as int]).len() == line_stops(
                lines@[r@[k].1 as int],
            ).len(),
        r@.no_duplicates(),
{
    let n = lines.len();
    let refs = all_stop_ids(lines);
    let mut counts: Vec<usize> = Vec::new();
    let mut i: usize = 0;
    while i < n
        invariant
            n == lines@.len(),
            refs@.len() == n,
            forall|k: int| 0 <= k < n ==> (#[trigger] refs@[k])@ == line_stops(lines@[k]),
            i <= n,
            counts@.len() == i,
            forall|k: int| 0 <= k < i ==> #[trigger] counts@[k] == line_stops(lines@[k]).len(),
        decreases n - i,
    {
        counts.push(refs[i].len());
        i = i + 1;
    }
    let (keys, buckets) = bucket_by_count(&counts);
    let ghost bs = buckets@;
    let mut pairs: Vec<(usize, usize)> = Vec::new();
    let mut b: usize = 0;
    while b < buckets.len()
        invariant
            n == lines@.len(),
            refs@.len() == n,
            forall|k: int| 0 <= k < n ==> (#[trigger] refs@[k])@ == line_stops(lines@[k]),
            counts@.len() == n,
            forall|k: int| 0 <= k < n ==> #[trigger] counts@[k] == line_stops(lines@[k]).len(),
            bs == buckets@,
            pairs@.no_duplicates(),
            is_bucketing(keys@, bs, counts@, n as int),
            stops_wf(stops@),
            lines_resolved(lines@, stops@),
            b <= bs.len(),
            forall|p: (usize, usize)|
                pairs@.contains(p) <==> (is_duplicate(lines@, p.0 as int, p.1 as int, tolerance_meters, stops@)
                    && earlier_bucket_pair(bs, b as int, p)),
        decreases bs.len() - b,
    {
        let m = &buckets[b];
        let mut x: usize = 0;
        while x < m.len()
            invariant
                n == lines@.len(),
                refs@.len() == n,
                forall|k: int| 0 <= k < n ==> (#[trigger] refs@[k])@ == line_stops(lines@[k]),
                counts@.len() == n,
                forall|k: int| 0 <= k < n ==> #[trigger] counts@[k] == line_stops(lines@[k]).len(),
                bs == buckets@,
                pairs@.no_duplicates(),
                is_bucketing(keys@, bs, counts@, n as int),
                stops_wf(stops@),
                lines_resolved(lines@, stops@),
                b < bs.len(),
                m@ == bs[b as int]@,
                x <= m@.len(),
                forall|p: (usize, usize)|
                    pairs@.contains(p) <==> (is_duplicate(lines@, p.0 as int, p.1 as int, tolerance_meters, stops@)
                        && (earlier_bucket_pair(bs, b as int, p) || current_bucket_pair(bs, b as int, x as int, 0, p))),
            decreases m@.len() - x,
        {
            let mut y: usize = x + 1;
            while y < m.len()
                invariant
                    n == lines@.len(),
                    refs@.len() == n,
                    forall|k: int| 0 <= k < n ==> (#[trigger] refs@[k])@ == line_stops(lines@[k]),
                    counts@.len() == n,
                    forall|k: int| 0 <= k < n ==> #[trigger] counts@[k] == line_stops(lines@[k]).len(),
                    bs == buckets@,
                    pairs@.no_duplicates(),
                    is_bucketing(keys@, bs, counts@, n as int),
                    stops_wf(stops@),
                    lines_resolved(lines@, stops@),
                    b < bs.len(),
                    m@ == bs[b as int]@,
                    x < m@.len(),
                    x + 1 <= y <= m@.len(),
                    forall|p: (usize, usize)|
                        pairs@.contains(p) <==> (is_duplicate(
                            lines@,
                            p.0 as int,
                            p.1 as int,
                            tolerance_meters,
                            stops@,
                        ) && (earlier_bucket_pair(bs, b as int, p) || current_bucket_pair(
                            bs,
                            b as int,
                            x as int,
                            y as int,
                            p,
                        ))),
                decreases m@.len() - y,
            {
                let i = m[x];
                let j = m[y];
                proof {
                    assert(bs[b as int]@[x as int] < bs[b as int]@[y as int]);
                    assert(bs[b as int]@[x as int] < n);
                    assert(bs[b as int]@[y as int] < n);
                    assert(counts@[i as int] == keys@[b as int]);
                    assert(counts@[j as int] == keys@[b as int]);
                    assert(refs@[i as int]@ == line_stops(lines@[i as int]));
                    assert(refs@[j as int]@ == line_stops(lines@[j as int]));
                    assert(all_resolved(line_stops(lines@[i as int]), stops@));
                    assert(all_resolved(line_stops(lines@[j as int]), stops@));
                    assert(bucket_pair(bs, b as int, x as int, y as int, (i, j)));
                }
                let same = same_route(refs[i].as_slice(), refs[j].as_slice(), tolerance_meters, stops);
                let ghost old_pairs = pairs@;
                if same {
                    proof {
                        if old_pairs.contains((i, j)) {
                            if earlier_bucket_pair(bs, b as int, (i, j)) {
                                let (k, a, c) = choose|k: int, a: int, c: int| k < b && #[trigger] bucket_pair(bs, k, a, c, (i, j));
                                assert(counts@[i as int] == keys@[k]);
                                assert(keys@[k] == keys@[b as int]);
                            } else {
                                let (a, c) = choose|a: int, c: int| #[trigger] bucket_pair(bs, b as int, a, c, (i, j))
                                    && (a < x || (a == x && c < y));
                                if a < x {
                                    assert(bs[b as int]@[a] < bs[b as int]@[x as int]);
                                } else {
                                    assert(bs[b as int]@[c] < bs[b as int]@[y as int]);
                                }
                            }
                        }
                    }
                    pairs.push((i, j));
                    proof {
                        assert forall|u: int, v: int|
                            0 <= u < pairs@.len() && 0 <= v < pairs@.len() && u != v implies pairs@[u]
                            != pairs@[v] by {
                            if u < old_pairs.len() && v < old_pairs.len() {
                                assert(old_pairs[u] != old_pairs[v]);
                            } else if u < old_pairs.len() {
                                assert(old_pairs.contains(old_pairs[u]));
                            } else {
                                assert(old_pairs.contains(old_pairs[v]));
                            }
                        }
                    }
                }
                proof {
                    assert forall|p: (usize, usize)| #[trigger] pairs@.contains(p) <==> (is_duplicate(
                        lines@,
                        p.0 as int,
                        p.1 as int,
                        tolerance_meters,
                        stops@,
                    ) && (earlier_bucket_pair(bs, b as int, p) || current_bucket_pair(
                        bs,
                        b as int,
                        x as int,
                        y + 1,
                        p,
                    ))) by {
                        if same {
                            lemma_push_contains(old_pairs, (i, j), p);
                        }
                        if current_bucket_pair(bs, b as int, x as int, y + 1, p) && p != (i, j) {
                            let (a, c) = choose|a: int, c: int| #[trigger] bucket_pair(bs, b as int, a, c, p)
                                && (a < x || (a == x && c < y + 1));
                            if a == x && c == y {
                                assert(p == (i, j));
                            }
                            assert(current_bucket_pair(bs, b as int, x as int, y as int, p));
                        }
                        if current_bucket_pair(bs, b as int, x as int, y as int, p) {
                            let (a, c) = choose|a: int, c: int| #[trigger] bucket_pair(bs, b as int, a, c, p)
                                && (a < x || (a == x && c < y));
                            assert(current_bucket_pair(bs, b as int, x as int, y + 1, p));
                        }
                        if p == (i, j) {
                            assert(current_bucket_pair(bs, b as int, x as int, y + 1, p));
                        }
                    }
                }
                y = y + 1;
            }
            proof {
                assert forall|p: (usize, usize)|
                    current_bucket_pair(bs, b as int, x as int, y as int, p) <==> current_bucket_pair(
                        bs,
                        b as int,
                        x + 1,
                        0,
                        p,
                    ) by {
                    if current_bucket_pair(bs, b as int, x as int, y as int, p) {
                        let (a, c) = choose|a: int, c: int| #[trigger] bucket_pair(bs, b as int, a, c, p)
                            && (a < x || (a == x && c < y));
                        assert(current_bucket_pair(bs, b as int, x + 1, 0, p));
                    }
                    if current_bucket_pair(bs, b as int, x + 1, 0, p) {
                        let (a, c) = choose|a: int, c: int| #[trigger] bucket_pair(bs, b as int, a, c, p)
                            && (a < x + 1 || (a == x + 1 && c < 0));
                        assert(current_bucket_pair(bs, b as int, x as int, y as int, p));
                    }
                }
            }
            x = x + 1;
        }
        proof {
            assert forall|p: (usize, usize)|
                (earlier_bucket_pair(bs, b as int, p) || current_bucket_pair(bs, b as int, x as int, 0, p))
                    <==> earlier_bucket_pair(bs, b + 1, p) by {
                if current_bucket_pair(bs, b as int, x as int, 0, p) {
                    let (a, c) = choose|a: int, c: int| #[trigger] bucket_pair(bs, b as int, a, c, p)
                        && (a < x || (a == x && c < 0));
                    assert(earlier_bucket_pair(bs, b + 1, p));
                }
                if earlier_bucket_pair(bs, b as int, p) {
                    let (k, a, c) = choose|k: int, a: int, c: int| k < b && #[trigger] bucket_pair(bs, k, a, c, p);
                    assert(earlier_bucket_pair(bs, b + 1, p));
                }
                if earlier_bucket_pair(bs, b + 1, p) {
                    let (k, a, c) = choose|k: int, a: int, c: int| k < b + 1 && #[trigger] bucket_pair(bs, k, a, c, p);
                    if k == b {
                        assert(current_bucket_pair(bs, b as int, x as int, 0, p));
                    } else {
                        assert(earlier_bucket_pair(bs, b as int, p));
                    }
                }
            }
        }
        b = b + 1;
    }
    proof {
        assert forall|p: (usize, usize)|
            is_duplicate(lines@, p.0 as int, p.1 as int, tolerance_meters, stops@) implies earlier_bucket_pair(
                bs,
                bs.len() as int,
                p,
            ) by {
            assert(holds_position(bs, p.0 as int));
            assert(holds_position(bs, p.1 as int));
            let (k1, a) = choose|k: int, x: int| 0 <= k < bs.len() && 0 <= x < bs[k]@.len() && #[trigger] bs[k]@[x] == p.0 as int;
            let (k2, c) = choose|k: int, x: int| 0 <= k < bs.len() && 0 <= x < bs[k]@.len() && #[trigger] bs[k]@[x] == p.1 as int;
            assert(counts@[p.0 as int] == keys@[k1]);
            assert(counts@[p.1 as int] == keys@[k2]);
            assert(k1 == k2);
            if c < a {
                assert(bs[k1]@[c] < bs[k1]@[a]);
            }
            assert(a != c);
            assert(bucket_pair(bs, k1, a, c, p));
        }
        assert forall|k: int| 0 <= k < pairs@.len() implies line_stops(
            lines@[(#[trigger] pairs@[k]).0 as int],
        ).len() == line_stops(lines@[pairs@[k].1 as int]).len() by {
            assert(pairs@.contains(pairs@[k]));
        }
    }
    pairs
}

/// The pair `(keep, remove)` of identifiers decided for duplicates `a`
/// (met first) and `b`: `a` is removed when its name holds a demotion
/// keyword and `b`'s does not; otherwise `a` is kept and `b` removed.
pub open spec fn resolution(a: Line, b: Line, demote_keywords: Seq<String>) -> (i64, i64) {
    if names_keyword(a, demote_keywords) && !names_keyword(b, demote_keywords) {
        (b.id, a.id)
    } else {
        (a.id, b.id)
    }
}

/// The decision for a pair depends on the two identifiers, their display
/// names and the keywords alone: the same pair under the same keywords is
/// always resolved the same way.
pub proof fn lemma_resolution_deterministic(
    a1: Line,
    b1: Line,
    a2: Line,
    b2: Line,
    demote_keywords: Seq<String>,
)
    requires
        a1.id == a2.id,
        b1.id == b2.id,
        display_name_of(a1) == display_name_of(a2),
        display_name_of(b1) == display_name_of(b2),
    ensures
        resolution(a1, b1, demote_keywords) == resolution(a2, b2, demote_keywords),
{
}

/// Decides which of two duplicate lines survives, as `(keep, remove)`.
pub fn resolve(line_a: &Line, line_b: &Line, demote_keywords: &Vec<String>) -> (r: (i64, i64))
    ensures
        r == resolution(*line_a, *line_b, demote_keywords@),
{
    if !line_b.names_keyword(demote_keywords) && line_a.names_keyword(demote_keywords) {
        (line_b.id, line_a.id)
    } else {
        (line_a.id, line_b.id)
    }
}

/// Whether some duplicate pair of `s` resolves to removing `id`.
pub open spec fn is_removed(
    s: Seq<Line>,
    id: i64,
    tolerance_meters: i32,
    stops: Map<i64, Stop>,
    demote_keywords: Seq<String>,
) -> bool {
    exists|i: int, j: int|
        #[trigger] is_duplicate(s, i, j, tolerance_meters, stops) && resolution(s[i], s[j], demote_keywords).1
            == id
}

/// The lines of `s` that no duplicate pair of `s` removes.
pub open spec fn deduplicated(
    s: Seq<Line>,
    tolerance_meters: i32,
    stops: Map<i64, Stop>,
    demote_keywords: Seq<String>,
) -> Seq<Line> {
    keep_where(s, |l: Line| !is_removed(s, l.id, tolerance_meters, stops, demote_keywords))
}

/// The identifiers that resolving each pair of `pairs` removes, in order.
pub fn removed_ids(lines: &Vec<Line>, pairs: &Vec<(usize, usize)>, demote_keywords: &Vec<String>) -> (r: Vec<
    i64,
>)
    requires
        forall|k: int|
            0 <= k < pairs@.len() ==> (#[trigger] pairs@[k]).0 < lines@.len() && pairs@[k].1 < lines@.len(),
    ensures
        r@.len() == pairs@.len(),
        forall|k: int|
            0 <= k < pairs@.len() ==> #[trigger] r@[k] == resolution(
                lines@[pairs@[k].0 as int],
                lines@[pairs@[k].1 as int],
                demote_keywords@,
            ).1,
{
    let mut r: Vec<i64> = Vec::new();
    let mut k: usize = 0;
    while k < pairs.len()
        invariant
            k <= pairs@.len(),
            r@.len() == k,
            forall|k: int|
                0 <= k < pairs@.len() ==> (#[trigger] pairs@[k]).0 < lines@.len() && pairs@[k].1
                    < lines@.len(),
            forall|m: int|
                0 <= m < k ==> #[trigger] r@[m] == resolution(
                    lines@[pairs@[m].0 as int],
                    lines@[pairs@[m].1 as int],
                    demote_keywords@,
                ).1,
        decreases pairs@.len() - k,
    {
        let (i, j) = pairs[k];
        let (_, remove) = resolve(&lines[i], &lines[j], demote_keywords);
        r.push(remove);
        k = k + 1;
    }
    r
}

fn contains_id(ids: &Vec<i64>, id: i64) -> (r: bool)
    ensures
        r == ids@.contains(id),
{
    let mut k: usize = 0;
    while k < ids.len()
        invariant
            k <= ids@.len(),
            forall|m: int| 0 <= m < k ==> ids@[m] != id,
        decreases ids@.len() - k,
    {
        if ids[k] == id {
            return true;
        }
        k = k + 1;
    }
    false
}

/// Finds the duplicate pairs of `lines`, resolves each against the lines
/// as they stand, then removes every line that a pair marked for removal.
pub fn remove_duplicates(
    lines: &mut Vec<Line>,
    stops: &BTreeMap<i64, Stop>,
    tolerance_meters: i32,
    demote_keywords: &Vec<String>,
)
    requires
        ids_unique(old(lines)@),
        stops_wf(stops@),
        lines_resolved(old(lines)@, stops@),
    ensures
        final(lines)@ == deduplicated(old(lines)@, tolerance_meters, stops@, demote_keywords@),
{
    let ghost s = lines@;
    let pairs = find_duplicate_pairs(lines, stops, tolerance_meters);
    proof {
        assert forall|k: int| 0 <= k < pairs@.len() implies (#[trigger] pairs@[k]).0 < lines@.len()
            && pairs@[k].1 < lines@.len() by {
            assert(pairs@.contains(pairs@[k]));
        }
    }
    let ids = removed_ids(lines, &pairs, demote_keywords);
    let mut keep: Vec<bool> = Vec::new();
    let mut i: usize = 0;
    while i < lines.len()
        invariant
            lines@ == s,
            i <= s.len(),
            ids@.len() == pairs@.len(),
            forall|p: (usize, usize)|
                pairs@.contains(p) <==> is_duplicate(s, p.0 as int, p.1 as int, tolerance_meters, stops@),
            forall|k: int|
                0 <= k < pairs@.len() ==> #[trigger] ids@[k] == resolution(
                    s[pairs@[k].0 as int],
                    s[pairs@[k].1 as int],
                    demote_keywords@,
                ).1,
            keep@.len() == i,
            forall|k: int|
                0 <= k < i ==> keep@[k] == !is_removed(
                    s,
                    (#[trigger] s[k]).id,
                    tolerance_meters,
                    stops@,
                    demote_keywords@,
                ),
        decreases s.len() - i,
    {
        let id = lines[i].id;
        let found = contains_id(&ids, id);
        proof {
            if found {
                let k = choose|k: int| 0 <= k < ids@.len() && ids@[k] == id;
                let p = pairs@[k];
                assert(pairs@.contains(p));
                assert(is_duplicate(s, p.0 as int, p.1 as int, tolerance_meters, stops@));
                assert(ids@[k] == resolution(s[p.0 as int], s[p.1 as int], demote_keywords@).1);
            }
            if is_removed(s, id, tolerance_meters, stops@, demote_keywords@) {
                let (a, b) = choose|a: int, b: int|
                    #[trigger] is_duplicate(s, a, b, tolerance_meters, stops@) && resolution(
                        s[a],
                        s[b],
                        demote_keywords@,
                    ).1 == id;
                let p = (a as usize, b as usize);
                assert(pairs@.contains(p));
                let k = choose|k: int| 0 <= k < pairs@.len() && pairs@[k] == p;
                assert(ids@[k] == id);
            }
        }
        keep.push(!found);
        i = i + 1;
    }
    proof {
        lemma_select_keep_where(
            s,
            keep@,
            |l: Line| !is_removed(s, l.id, tolerance_meters, stops@, demote_keywords@),
        );
    }
    retain_flagged(lines, &keep);
}

/// Dropping lines keeps every stop reference of the rest resolvable.
pub proof fn lemma_keep_where_resolved(s: Seq<Line>, p: spec_fn(Line) -> bool, stops: Map<i64, Stop>)
    requires
        lines_resolved(s, stops),
    ensures
        lines_resolved(keep_where(s, p), stops),
    decreases s.len(),
{
    if s.len() > 0 {
        lemma_keep_where_resolved(s.drop_last(), p, stops);
        let rest = keep_where(s.drop_last(), p);
        let r = keep_where(s, p);
        assert forall|i: int| 0 <= i < r.len() implies all_resolved(line_stops(#[trigger] r[i]), stops) by {
            if i < rest.len() {
                assert(r[i] == rest[i]);
            } else {
                assert(r[i] == s[s.len() - 1]);
            }
        }
    }
}

} // verus!
