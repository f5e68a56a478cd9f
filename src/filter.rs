//! Order-keeping selection of lines by flags and by conditions.
use vstd::prelude::*;
use crate::line::Line;

verus! {

/// The lines of `s` whose flag in `keep` is set, in order.
pub open spec fn select(s: Seq<Line>, keep: Seq<bool>) -> Seq<Line>
    decreases s.len(),
{
    if s.len() == 0 || keep.len() == 0 {
        seq![]
    } else {
        let rest = select(s.drop_last(), keep.drop_last());
        if keep.last() {
            rest.push(s.last())
        } else {
            rest
        }
    }
}

/// The lines of `s` that satisfy `p`, in order.
pub open spec fn keep_where(s: Seq<Line>, p: spec_fn(Line) -> bool) -> Seq<Line>
    decreases s.len(),
{
    if s.len() == 0 {
        seq![]
    } else {
        let rest = keep_where(s.drop_last(), p);
        if p(s.last()) {
            rest.push(s.last())
        } else {
            rest
        }
    }
}

/// Selecting by flags that record a condition keeps what the condition keeps.
pub proof fn lemma_select_keep_where(s: Seq<Line>, keep: Seq<bool>, p: spec_fn(Line) -> bool)
    requires
        keep.len() == s.len(),
        forall|i: int| 0 <= i < s.len() ==> keep[i] == p(#[trigger] s[i]),
    ensures
        select(s, keep) == keep_where(s, p),
    decreases s.len(),
{
    if s.len() > 0 {
        assert(keep.last() == p(s[s.len() - 1]));
        lemma_select_keep_where(s.drop_last(), keep.drop_last(), p);
    }
}

/// Keeps the lines whose flag in `keep` is set, in their order.
pub fn retain_flagged(lines: &mut Vec<Line>, keep: &Vec<bool>)
    requires
        keep@.len() == old(lines)@.len(),
    ensures
        final(lines)@ == select(old(lines)@, keep@),
{
    let ghost orig = lines@;
    let n = keep.len();
    let mut k: usize = 0;
    let mut w: usize = 0;
    while k < n
        invariant
            n == keep@.len(),
            n == orig.len(),
            k <= n,
            w <= k,
            lines@ == select(orig.take(k as int), keep@.take(k as int)) + orig.skip(k as int),
            w == select(orig.take(k as int), keep@.take(k as int)).len(),
        decreases n - k,
    {
        let ghost before = select(orig.take(k as int), keep@.take(k as int));
        proof {
            assert(orig.take(k + 1).drop_last() =~= orig.take(k as int));
            assert(keep@.take(k + 1).drop_last() =~= keep@.take(k as int));
            assert(lines@[w as int] == orig[k as int]);
        }
        if keep[k] {
            w = w + 1;
            proof {
                assert(lines@ =~= before.push(orig[k as int]) + orig.skip(k + 1));
            }
        } else {
            lines.remove(w);
            proof {
                assert(lines@ =~= before + orig.skip(k + 1));
            }
        }
        k = k + 1;
    }
    proof {
        assert(orig.take(n as int) =~= orig);
        assert(keep@.take(n as int) =~= keep@);
        assert(orig.skip(n as int) =~= Seq::<Line>::empty());
        assert(lines@ =~= select(orig, keep@));
    }
}

proof fn lemma_keep_where_all(s: Seq<Line>, p: spec_fn(Line) -> bool)
    ensures
        forall|i: int| 0 <= i < keep_where(s, p).len() ==> p(#[trigger] keep_where(s, p)[i]),
    decreases s.len(),
{
    if s.len() > 0 {
        lemma_keep_where_all(s.drop_last(), p);
        let rest = keep_where(s.drop_last(), p);
        let r = keep_where(s, p);
        assert forall|i: int| 0 <= i < r.len() implies p(#[trigger] r[i]) by {
            if i < rest.len() {
                assert(r[i] == rest[i]);
            }
        }
    }
}

proof fn lemma_keep_where_unchanged(s: Seq<Line>, p: spec_fn(Line) -> bool)
    requires
        forall|i: int| 0 <= i < s.len() ==> p(#[trigger] s[i]),
    ensures
        keep_where(s, p) == s,
    decreases s.len(),
{
    if s.len() > 0 {
        assert(p(s[s.len() - 1]));
        lemma_keep_where_unchanged(s.drop_last(), p);
        assert(s.drop_last().push(s.last()) =~= s);
    }
}

/// Filtering twice by the same condition removes nothing the second time.
pub proof fn lemma_keep_where_idempotent(s: Seq<Line>, p: spec_fn(Line) -> bool)
    ensures
        keep_where(keep_where(s, p), p) == keep_where(s, p),
{
    lemma_keep_where_all(s, p);
    lemma_keep_where_unchanged(keep_where(s, p), p);
}

/// No two lines of `s` share an identifier.
pub open spec fn ids_unique(s: Seq<Line>) -> bool {
    forall|i: int, j: int| 0 <= i < j < s.len() ==> #[trigger] s[i].id != #[trigger] s[j].id
}

proof fn lemma_keep_where_from(s: Seq<Line>, p: spec_fn(Line) -> bool)
    ensures
        forall|i: int|
            0 <= i < keep_where(s, p).len() ==> exists|j: int| 0 <= j < s.len() && #[trigger] keep_where(s, p)[i] == s[j],
    decreases s.len(),
{
    if s.len() > 0 {
        lemma_keep_where_from(s.drop_last(), p);
        let rest = keep_where(s.drop_last(), p);
        let r = keep_where(s, p);
        assert forall|i: int| 0 <= i < r.len() implies exists|j: int| 0 <= j < s.len() && #[trigger] r[i] == s[j] by {
            if i < rest.len() {
                assert(r[i] == rest[i]);
                let j = choose|j: int| 0 <= j < s.drop_last().len() && rest[i] == s.drop_last()[j];
                assert(r[i] == s[j]);
            } else {
                assert(r[i] == s[s.len() - 1]);
            }
        }
    }
}

/// Dropping lines keeps the identifiers of the rest distinct.
pub proof fn lemma_keep_where_ids_unique(s: Seq<Line>, p: spec_fn(Line) -> bool)
    requires
        ids_unique(s),
    ensures
        ids_unique(keep_where(s, p)),
    decreases s.len(),
{
    if s.len() > 0 {
        let d = s.drop_last();
        assert(ids_unique(d)) by {
            assert forall|i: int, j: int| 0 <= i < j < d.len() implies #[trigger] d[i].id != #[trigger] d[j].id by {
                assert(d[i] == s[i] && d[j] == s[j]);
            }
        }
        lemma_keep_where_ids_unique(d, p);
        lemma_keep_where_from(d, p);
        let rest = keep_where(d, p);
        let r = keep_where(s, p);
        assert forall|i: int, j: int| 0 <= i < j < r.len() implies #[trigger] r[i].id != #[trigger] r[j].id by {
            if j < rest.len() {
                assert(r[i] == rest[i] && r[j] == rest[j]);
            } else {
                assert(r[j] == s[s.len() - 1]);
                assert(r[i] == rest[i]);
                let k = choose|k: int| 0 <= k < d.len() && #[trigger] rest[i] == d[k];
                assert(s[k] == rest[i]);
            }
        }
    }
}

/// Whether no two lines share an identifier.
pub fn distinct_ids(lines: &Vec<Line>) -> (r: bool)
    ensures
        r == ids_unique(lines@),
{
    let n = lines.len();
    let mut j: usize = 0;
    while j < n
        invariant
            n == lines@.len(),
            j <= n,
            forall|a: int, b: int| 0 <= a < b < j ==> #[trigger] lines@[a].id != #[trigger] lines@[b].id,
        decreases n - j,
    {
        let mut i: usize = 0;
        while i < j
            invariant
                n == lines@.len(),
                i <= j,
                j < n,
                forall|a: int, b: int| 0 <= a < b < j ==> #[trigger] lines@[a].id != #[trigger] lines@[b].id,
                forall|a: int| 0 <= a < i ==> #[trigger] lines@[a].id != lines@[j as int].id,
            decreases j - i,
        {
            if lines[i].id == lines[j].id {
                assert(!ids_unique(lines@)) by {
                    assert(lines@[i as int].id == lines@[j as int].id);
                }
                return false;
            }
            i = i + 1;
        }
        j = j + 1;
    }
    true
}

} // verus!
