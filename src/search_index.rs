use vstd::prelude::*;
use vstd::string::*;

use nucleo_matcher::pattern::{CaseMatching, Normalization, Pattern};
use nucleo_matcher::{Config, Matcher, Utf32String};

use crate::clip::{file_name_of, path_file_name, ClipContent, ClipEntry, ContentModel, EntryModel};
use crate::history::models;

verus! {

broadcast use vstd::string::group_string_axioms;

/// Declares `nucleo_matcher::Matcher`, held opaquely.
#[verifier::external_type_specification]
#[verifier::external_body]
pub struct ExMatcher(Matcher);

/// The score `Pattern::score` gives `text` for the pattern parsed from
/// `query` (smart normalization; case respected, or smart case), or `None`
/// when it does not match.
pub uninterp spec fn fuzzy_score(query: Seq<char>, case_sensitive: bool, text: Seq<char>) -> Option<u32>;

/// Relies on `Matcher::new` with the default configuration.
#[verifier::external_body]
fn default_matcher() -> Matcher {
    Matcher::new(Config::DEFAULT)
}

/// Longest query matched: nucleo adds per-character scores (at most 36 for
/// the first matched character, 26 after it, plus a prefix bonus of 16) in
/// `u16`, so longer needles could overflow.
pub const MAX_QUERY_CHARS: usize = 1024;

/// The part of a query that is matched: its first `MAX_QUERY_CHARS`
/// characters.
pub open spec fn matched_query(q: Seq<char>) -> Seq<char> {
    if q.len() > MAX_QUERY_CHARS { q.take(MAX_QUERY_CHARS as int) } else { q }
}

/// Relies on `Pattern::parse` and `Pattern::score` on a matcher with the
/// default configuration (the only kind this library makes). The matcher
/// panics on haystacks of 2^32 - 1 code points or more, and its `u16` score
/// sums need the query bound.
#[verifier::external_body]
fn score_text(matcher: &mut Matcher, query: &str, case_sensitive: bool, text: &str) -> (r: Option<u32>)
    requires
        text@.len() < u32::MAX,
        query@.len() <= MAX_QUERY_CHARS,
    ensures
        r == fuzzy_score(query@, case_sensitive, text@),
{
    let case_matching = if case_sensitive { CaseMatching::Respect } else { CaseMatching::Smart };
    let pattern = Pattern::parse(query, case_matching, Normalization::Smart);
    let haystack = Utf32String::from(text);
    pattern.score(haystack.slice(..), matcher)
}

/// Search case sensitivity.
#[derive(Debug, Clone, Copy, PartialEq, Eq, Structural)]
pub enum SearchMode {
    /// Case-insensitive unless the query has an upper-case letter.
    SmartCase,
    /// Always case-sensitive.
    CaseSensitive,
}

impl Default for SearchMode {
    fn default() -> (r: SearchMode)
        ensures
            r == SearchMode::SmartCase,
    {
        SearchMode::SmartCase
    }
}

/// The text a search matches an entry against: its name and description
/// (each followed by a space) and then its text, `[image]`, or
/// `[file: <file name>]`.
pub open spec fn searchable(e: EntryModel) -> Seq<char> {
    (match e.name {
        Some(n) => n + " "@,
        None => Seq::empty(),
    }) + (match e.description {
        Some(d) => d + " "@,
        None => Seq::empty(),
    }) + match e.content {
        ContentModel::Text(t) => t,
        ContentModel::Image(_, _) => "[image]"@,
        ContentModel::File(p, _) => "[file: "@ + match file_name_of(p) {
            Some(f) => f,
            None => Seq::empty(),
        } + "]"@,
    }
}

impl ClipEntry {
    /// The text a search matches this entry against (see `searchable`).
    pub fn searchable_text(&self) -> (r: String)
        ensures
            r@ == searchable(self@),
    {
        let mut text = String::new();
        match &self.name {
            Some(name) => {
                text.append(name.as_str());
                text.append(" ");
            },
            None => {},
        }
        match &self.description {
            Some(description) => {
                text.append(description.as_str());
                text.append(" ");
            },
            None => {},
        }
        match &self.content {
            ClipContent::Text(t) => {
                text.append(t.as_str());
            },
            ClipContent::Image { .. } => {
                text.append("[image]");
            },
            ClipContent::File { path, .. } => {
                text.append("[file: ");
                match path_file_name(path) {
                    Some(f) => text.append(f.as_str()),
                    None => {},
                }
                text.append("]");
            },
        }
        proof {
            reveal_strlit(" ");
            assert(text@ =~= searchable(self@));
        }
        text
    }
}

/// `x` placed into a run sorted by descending score, after every pair with
/// a score at least as high.
pub open spec fn insert_desc(s: Seq<(u64, u32)>, x: (u64, u32)) -> Seq<(u64, u32)>
    decreases s.len(),
{
    if s.len() == 0 {
        seq![x]
    } else if s[0].1 < x.1 {
        seq![x] + s
    } else {
        seq![s[0]] + insert_desc(s.drop_first(), x)
    }
}

/// `s` ordered by descending score; pairs with equal scores keep their
/// order.
pub open spec fn sort_desc(s: Seq<(u64, u32)>) -> Seq<(u64, u32)>
    decreases s.len(),
{
    if s.len() == 0 {
        s
    } else {
        insert_desc(sort_desc(s.drop_last()), s.last())
    }
}

/// Scores never rise along the run.
pub open spec fn descending(s: Seq<(u64, u32)>) -> bool {
    forall|i: int, j: int| 0 <= i < j < s.len() ==> s[i].1 >= s[j].1
}

/// The (id, score) of each entry that the query matches, in list order.
/// Entries whose text is too long for the matcher are skipped.
pub open spec fn candidates(s: Seq<EntryModel>, query: Seq<char>, case_sensitive: bool) -> Seq<(u64, u32)>
    decreases s.len(),
{
    if s.len() == 0 {
        Seq::empty()
    } else {
        let rest = candidates(s.drop_last(), query, case_sensitive);
        let t = searchable(s.last());
        if t.len() < u32::MAX {
            match fuzzy_score(query, case_sensitive, t) {
                Some(sc) => rest.push((s.last().id, sc)),
                None => rest,
            }
        } else {
            rest
        }
    }
}

proof fn lemma_insert_desc_split(s: Seq<(u64, u32)>, x: (u64, u32), p: int)
    requires
        0 <= p <= s.len(),
        forall|j: int| 0 <= j < p ==> s[j].1 >= x.1,
        p == s.len() || s[p].1 < x.1,
    ensures
        insert_desc(s, x) == s.take(p) + seq![x] + s.skip(p),
    decreases p,
{
    if p == 0 {
        if s.len() == 0 {
            assert(s.take(0) + seq![x] + s.skip(0) =~= seq![x]);
        } else {
            assert(s.take(0) + seq![x] + s.skip(0) =~= seq![x] + s);
        }
    } else {
        let t = s.drop_first();
        assert forall|j: int| 0 <= j < p - 1 implies t[j].1 >= x.1 by {
            assert(t[j] == s[j + 1]);
        }
        lemma_insert_desc_split(t, x, p - 1);
        assert(seq![s[0]] + (t.take(p - 1) + seq![x] + t.skip(p - 1)) =~= s.take(p) + seq![x] + s.skip(p));
    }
}

proof fn lemma_insert_desc_sorted(s: Seq<(u64, u32)>, x: (u64, u32))
    requires
        descending(s),
    ensures
        descending(insert_desc(s, x)),
        insert_desc(s, x).len() == s.len() + 1,
    decreases s.len(),
{
    if s.len() > 0 && s[0].1 >= x.1 {
        let t = s.drop_first();
        lemma_insert_desc_sorted(t, x);
        let r = insert_desc(s, x);
        let rt = insert_desc(t, x);
        assert(r == seq![s[0]] + rt);
        assert forall|j: int| 0 <= j < rt.len() implies rt[j].1 <= s[0].1 by {
            lemma_insert_desc_member(t, x, j);
        }
    }
}

proof fn lemma_insert_desc_member(s: Seq<(u64, u32)>, x: (u64, u32), j: int)
    requires
        0 <= j < insert_desc(s, x).len(),
    ensures
        insert_desc(s, x)[j] == x || exists|i: int| 0 <= i < s.len() && s[i] == insert_desc(s, x)[j],
    decreases s.len(),
{
    if s.len() > 0 && s[0].1 >= x.1 {
        let t = s.drop_first();
        if j > 0 {
            lemma_insert_desc_member(t, x, j - 1);
            if insert_desc(t, x)[j - 1] != x {
                let i = choose|i: int| 0 <= i < t.len() && t[i] == insert_desc(t, x)[j - 1];
                assert(s[i + 1] == t[i]);
            }
        } else {
            assert(s[0] == insert_desc(s, x)[0]);
        }
    } else if s.len() > 0 {
        if j > 0 {
            assert(s[j - 1] == insert_desc(s, x)[j]);
        }
    }
}

/// A stably sorted run is in descending order of score.
pub proof fn lemma_sort_desc_sorted(s: Seq<(u64, u32)>)
    ensures
        descending(sort_desc(s)),
        sort_desc(s).len() == s.len(),
    decreases s.len(),
{
    if s.len() > 0 {
        lemma_sort_desc_sorted(s.drop_last());
        lemma_insert_desc_sorted(sort_desc(s.drop_last()), s.last());
    }
}

/// Order scored results by descending score, keeping the given order among
/// equal scores.
pub fn rank_by_score(scored: Vec<(u64, u32)>) -> (r: Vec<(u64, u32)>)
    ensures
        r@ == sort_desc(scored@),
        descending(r@),
{
    let mut r: Vec<(u64, u32)> = Vec::new();
    let mut i: usize = 0;
    while i < scored.len()
        invariant
            i <= scored.len(),
            r@ == sort_desc(scored@.take(i as int)),
        decreases scored.len() - i,
    {
        let x = scored[i];
        proof {
            lemma_sort_desc_sorted(scored@.take(i as int));
        }
        let mut p: usize = 0;
        while p < r.len() && r[p].1 >= x.1
            invariant
                p <= r.len(),
                forall|j: int| 0 <= j < p ==> r@[j].1 >= x.1,
            decreases r.len() - p,
        {
            p = p + 1;
        }
        proof {
            lemma_insert_desc_split(r@, x, p as int);
            assert(scored@.take(i + 1).drop_last() =~= scored@.take(i as int));
            assert(scored@.take(i + 1).last() == x);
        }
        r.insert(p, x);
        proof {
            assert(r@ =~= sort_desc(scored@.take(i + 1)));
        }
        i = i + 1;
    }
    proof {
        assert(scored@.take(i as int) =~= scored@);
        lemma_sort_desc_sorted(scored@);
    }
    r
}

/// Fuzzy search over clipboard entries.
pub struct SearchIndex {
    matcher: Matcher,
    mode: SearchMode,
}

impl Default for SearchIndex {
    fn default() -> (r: SearchIndex)
        ensures
            r.spec_mode() == SearchMode::SmartCase,
    {
        SearchIndex::new()
    }
}

impl SearchIndex {
    /// The case mode.
    pub closed spec fn spec_mode(&self) -> SearchMode {
        self.mode
    }

    /// A search index in smart-case mode.
    pub fn new() -> (r: SearchIndex)
        ensures
            r.spec_mode() == SearchMode::SmartCase,
    {
        SearchIndex { matcher: default_matcher(), mode: SearchMode::SmartCase }
    }

    /// Set the case mode.
    pub fn set_mode(&mut self, mode: SearchMode)
        ensures
            final(self).spec_mode() == mode,
    {
        self.mode = mode;
    }

    /// The case mode.
    pub fn mode(&self) -> (r: SearchMode)
        ensures
            r == self.spec_mode(),
    {
        self.mode
    }

    /// Switch between smart-case and case-sensitive.
    pub fn toggle_mode(&mut self)
        ensures
            final(self).spec_mode() == match old(self).spec_mode() {
                SearchMode::SmartCase => SearchMode::CaseSensitive,
                SearchMode::CaseSensitive => SearchMode::SmartCase,
            },
    {
        self.mode = match self.mode {
            SearchMode::SmartCase => SearchMode::CaseSensitive,
            SearchMode::CaseSensitive => SearchMode::SmartCase,
        };
    }

    /// (id, score) of the clips that match `query` (its first
    /// `MAX_QUERY_CHARS` characters), best first (equal scores in list
    /// order). An empty query returns every clip, in list order, with the
    /// highest score.
    pub fn search(&mut self, clips: &[ClipEntry], query: &str) -> (r: Vec<(u64, u32)>)
        ensures
            final(self).spec_mode() == old(self).spec_mode(),
            query@.len() == 0 ==> r@ == models(clips@).map_values(|e: EntryModel| (e.id, u32::MAX)),
            query@.len() > 0 ==> r@ == sort_desc(
                candidates(
                    models(clips@),
                    matched_query(query@),
                    old(self).spec_mode() == SearchMode::CaseSensitive,
                ),
            ),
    {
        let ghost s = models(clips@);
        if query.is_empty() {
            let mut all: Vec<(u64, u32)> = Vec::new();
            let mut i: usize = 0;
            while i < clips.len()
                invariant
                    i <= clips@.len(),
                    s == models(clips@),
                    all@ == s.take(i as int).map_values(|e: EntryModel| (e.id, u32::MAX)),
                decreases clips.len() - i,
            {
                all.push((clips[i].id, u32::MAX));
                proof {
                    assert(all@ =~= s.take(i + 1).map_values(|e: EntryModel| (e.id, u32::MAX)));
                }
                i = i + 1;
            }
            proof {
                assert(s.take(i as int) =~= s);
            }
            return all;
        }
        let case_sensitive = match self.mode {
            SearchMode::SmartCase => false,
            SearchMode::CaseSensitive => true,
        };
        let q: &str = if query.unicode_len() > MAX_QUERY_CHARS {
            query.substring_char(0, MAX_QUERY_CHARS)
        } else {
            query
        };
        let mut scored: Vec<(u64, u32)> = Vec::new();
        let mut i: usize = 0;
        while i < clips.len()
            invariant
                i <= clips@.len(),
                s == models(clips@),
                q@ == matched_query(query@),
                scored@ == candidates(s.take(i as int), q@, case_sensitive),
                self.mode == old(self).mode,
                case_sensitive == (old(self).spec_mode() == SearchMode::CaseSensitive),
            decreases clips.len() - i,
        {
            let text = clips[i].searchable_text();
            proof {
                assert(s.take(i + 1).drop_last() =~= s.take(i as int));
                assert(s.take(i + 1).last() == clips@[i as int]@);
            }
            if text.as_str().unicode_len() < 4294967295usize {
                match score_text(&mut self.matcher, q, case_sensitive, text.as_str()) {
                    Some(score) => {
                        scored.push((clips[i].id, score));
                    },
                    None => {},
                }
            }
            i = i + 1;
        }
        proof {
            assert(s.take(i as int) =~= s);
        }
        rank_by_score(scored)
    }
}

} // verus!
