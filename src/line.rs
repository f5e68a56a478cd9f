//! Transit lines: their members, display names and keyword tests.
use vstd::prelude::*;
use vstd::std_specs::iter::IteratorSpec;

verus! {

/// One member reference of a line.
#[derive(Clone, Copy, PartialEq, Eq, Structural, Debug)]
pub enum Member {
    /// A stop, by identifier.
    Stop(i64),
    /// A path segment, by identifier.
    Way(i64),
    /// Another line or grouping, by identifier.
    Relation(i64),
}

/// A named transit line with its ordered member references.
pub struct Line {
    pub id: i64,
    /// The English name, where the line has one.
    pub name_en: Option<String>,
    /// The default name, where the line has one.
    pub name: Option<String>,
    /// The colour under its British spelling, where the line has one.
    pub colour: Option<String>,
    /// The colour under its American spelling, where the line has one.
    pub color: Option<String>,
    pub members: Vec<Member>,
}

/// The stop identifiers among `members`, in order.
pub open spec fn stop_refs(members: Seq<Member>) -> Seq<i64>
    decreases members.len(),
{
    if members.len() == 0 {
        seq![]
    } else {
        let rest = stop_refs(members.drop_last());
        match members.last() {
            Member::Stop(id) => rest.push(id),
            _ => rest,
        }
    }
}

/// The stop identifiers of a line, in order.
pub open spec fn line_stops(line: Line) -> Seq<i64> {
    stop_refs(line.members@)
}

/// The first of two optional texts that is present, else the empty text.
pub open spec fn first_present(a: Option<String>, b: Option<String>) -> Seq<char> {
    match a {
        Some(s) => s@,
        None => match b {
            Some(s) => s@,
            None => seq![],
        },
    }
}

/// The English name, falling back to the default name, else empty.
pub open spec fn display_name_of(line: Line) -> Seq<char> {
    first_present(line.name_en, line.name)
}

/// The colour under either spelling, else empty.
pub open spec fn color_of(line: Line) -> Seq<char> {
    first_present(line.colour, line.color)
}

/// Whether `needle` occurs in `haystack` as a contiguous run.
pub open spec fn is_substring(needle: Seq<char>, haystack: Seq<char>) -> bool {
    exists|i: int|
        0 <= i && i + needle.len() <= haystack.len() && #[trigger] haystack.subrange(i, i + needle.len())
            == needle
}

/// Whether one of `keywords` occurs in `text`.
pub open spec fn has_keyword(text: Seq<char>, keywords: Seq<String>) -> bool {
    exists|k: int| 0 <= k < keywords.len() && is_substring(#[trigger] keywords[k]@, text)
}

/// The lower-case form of a text, as `str::to_lowercase` gives it.
pub uninterp spec fn lower_of(s: Seq<char>) -> Seq<char>;

/// Whether the lower-cased display name of `line` holds one of `keywords`.
pub open spec fn names_keyword(line: Line, keywords: Seq<String>) -> bool {
    has_keyword(lower_of(display_name_of(line)), keywords)
}

/// Relies on `str::to_lowercase`: the result depends on the characters alone.
#[verifier::external_body]
fn lowercase(s: &str) -> (r: String)
    ensures
        r@ == lower_of(s@),
{
    s.to_lowercase()
}

fn chars_of(s: &str) -> (r: Vec<char>)
    ensures
        r@ == s@,
{
    broadcast use vstd::string::group_string_axioms;

    let mut it = s.chars();
    let mut r: Vec<char> = Vec::new();
    loop
        invariant
            r@ + it.remaining() == s@,
        ensures
            r@ == s@,
        decreases s@.len() - r@.len(),
    {
        let ghost before = it.remaining();
        match it.next() {
            Some(c) => {
                r.push(c);
                proof {
                    assert(r@ + it.remaining() =~= s@) by {
                        assert(before =~= seq![c] + before.drop_first());
                    }
                }
            },
            None => {
                assert(r@ =~= s@);
                break;
            },
        }
    }
    r
}

/// Whether `needle` occurs in `haystack` as a contiguous run of characters.
fn str_contains(haystack: &str, needle: &str) -> (r: bool)
    ensures
        r == is_substring(needle@, haystack@),
{
    let h = chars_of(haystack);
    let n = chars_of(needle);
    if n.len() > h.len() {
        return false;
    }
    let hl = h.len();
    let last = hl - n.len();
    let mut i: usize = 0;
    while i <= last
        invariant
            h@ == haystack@,
            n@ == needle@,
            hl == h@.len(),
            last == h@.len() - n@.len(),
            i <= last + 1,
            forall|k: int| 0 <= k < i ==> #[trigger] h@.subrange(k, k + n@.len()) != n@,
        decreases last + 1 - i,
    {
        let mut j: usize = 0;
        let mut same = true;
        while j < n.len()
            invariant
                i <= last,
                hl == h@.len(),
                h@.len() == last + n@.len(),
                j <= n@.len(),
                same == forall|m: int| 0 <= m < j ==> h@[i + m] == n@[m],
            decreases n@.len() - j,
        {
            if h[i + j] != n[j] {
                same = false;
            }
            j = j + 1;
        }
        if same {
            assert(h@.subrange(i as int, i + n@.len()) =~= n@);
            return true;
        }
        proof {
            let m = choose|m: int| 0 <= m < n@.len() && h@[i + m] != n@[m];
            assert(h@.subrange(i as int, i + n@.len())[m] != n@[m]);
        }
        if i == last {
            return false;
        }
        i = i + 1;
    }
    false
}

/// The first of two optional names that is present, else the empty name:
/// the fallback from an English name to a default one.
pub fn fallback_name(a: &Option<String>, b: &Option<String>) -> (r: String)
    ensures
        r@ == first_present(*a, *b),
{
    match a {
        Some(s) => s.clone(),
        None => match b {
            Some(s) => s.clone(),
            None => String::new(),
        },
    }
}

impl Line {
    /// The stop identifiers among the members, in order.
    pub fn stop_ids(&self) -> (r: Vec<i64>)
        ensures
            r@ == line_stops(*self),
    {
        let mut r: Vec<i64> = Vec::new();
        let mut i: usize = 0;
        while i < self.members.len()
            invariant
                i <= self.members@.len(),
                r@ == stop_refs(self.members@.take(i as int)),
            decreases self.members@.len() - i,
        {
            proof {
                assert(self.members@.take(i + 1).drop_last() =~= self.members@.take(i as int));
            }
            match self.members[i] {
                Member::Stop(id) => r.push(id),
                _ => {},
            }
            i = i + 1;
        }
        proof {
            assert(self.members@.take(i as int) =~= self.members@);
        }
        r
    }

    /// The number of stop references among the members.
    pub fn stop_count(&self) -> (r: usize)
        ensures
            r == line_stops(*self).len(),
    {
        self.stop_ids().len()
    }

    /// The English name, falling back to the default name, else empty.
    pub fn display_name(&self) -> (r: String)
        ensures
            r@ == display_name_of(*self),
    {
        fallback_name(&self.name_en, &self.name)
    }

    /// The colour under either spelling, else empty.
    pub fn display_color(&self) -> (r: String)
        ensures
            r@ == color_of(*self),
    {
        fallback_name(&self.colour, &self.color)
    }

    /// Whether the display name, lower-cased, holds one of `keywords`.
    pub fn names_keyword(&self, keywords: &Vec<String>) -> (r: bool)
        ensures
            r == names_keyword(*self, keywords@),
    {
        let name = self.display_name();
        let folded = lowercase(name.as_str());
        matches_keyword(folded.as_str(), keywords)
    }
}

/// Whether one of `keywords` occurs in the already lower-cased `folded`.
pub fn matches_keyword(folded: &str, keywords: &Vec<String>) -> (r: bool)
    ensures
        r == has_keyword(folded@, keywords@),
{
    let mut i: usize = 0;
    while i < keywords.len()
        invariant
            i <= keywords@.len(),
            forall|k: int| 0 <= k < i ==> !is_substring(#[trigger] keywords@[k]@, folded@),
        decreases keywords@.len() - i,
    {
        if str_contains(folded, keywords[i].as_str()) {
            return true;
        }
        i = i + 1;
    }
    false
}

} // verus!
