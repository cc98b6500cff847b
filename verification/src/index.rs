//! The index of registered recordings, and the search in it.
//!
//! An entry is a label with the fingerprints of a recording. Entries are only
//! ever added. A query is scored against each entry by counting the query's
//! fingerprints that occur in the entry; the entry with the highest score is
//! the match if its score reaches a threshold.

use crate::json::{json_record, render_record};
use vstd::prelude::*;

verus! {

/// The threshold that `search_fingerprints` applies.
pub const MIN_SCORE_THRESHOLD: usize = 5;

/// The outcome of a search: the label of the matching entry with its score,
/// or `"Not found"` with the score zero.
#[derive(Debug, PartialEq, Eq)]
pub struct SearchResult {
    pub song_name: String,
    pub score: usize,
}

/// The registered recordings, in the order of their registration, and the
/// score that a match must reach.
pub struct Index {
    entries: Vec<(String, Vec<u64>)>,
    threshold: usize,
}

/// The entries as plain values: each a label and a sequence of fingerprints.
pub open spec fn entries_of(registered: Seq<(String, Vec<u64>)>) -> Seq<(Seq<char>, Seq<u64>)> {
    Seq::new(registered.len(), |i: int| (registered[i].0@, registered[i].1@))
}

/// The number of the first `n` fingerprints of `query` that occur in `entry`.
/// A fingerprint that the query holds several times counts each time.
pub open spec fn hits(entry: Seq<u64>, query: Seq<u64>, n: int) -> int
    decreases n,
{
    if n <= 0 {
        0
    } else {
        hits(entry, query, n - 1) + if entry.contains(query[n - 1]) {
            1int
        } else {
            0int
        }
    }
}

/// The score of a query against an entry.
pub open spec fn score(entry: Seq<u64>, query: Seq<u64>) -> int {
    hits(entry, query, query.len() as int)
}

/// Whether entry `i` is the best match of the query: no entry has a higher
/// score, and those before it have a lower one.
pub open spec fn is_best(entries: Seq<(Seq<char>, Seq<u64>)>, query: Seq<u64>, i: int) -> bool {
    &&& 0 <= i < entries.len()
    &&& forall|j: int| 0 <= j < i ==> score(entries[j].1, query) < score(entries[i].1, query)
    &&& forall|j: int|
        i <= j < entries.len() ==> score(entries[j].1, query) <= score(entries[i].1, query)
}

/// The best match among the first `n` entries: the first of those with the
/// highest score.
pub open spec fn best_among(entries: Seq<(Seq<char>, Seq<u64>)>, query: Seq<u64>, n: int) -> int
    decreases n,
{
    if n <= 1 {
        0
    } else {
        let b = best_among(entries, query, n - 1);
        if score(entries[n - 1].1, query) > score(entries[b].1, query) {
            n - 1
        } else {
            b
        }
    }
}

/// The best match of the query among all entries.
pub open spec fn best_index(entries: Seq<(Seq<char>, Seq<u64>)>, query: Seq<u64>) -> int {
    best_among(entries, query, entries.len() as int)
}

/// The highest score of the query against an entry; zero without entries.
pub open spec fn best_score(entries: Seq<(Seq<char>, Seq<u64>)>, query: Seq<u64>) -> int {
    if entries.len() == 0 {
        0
    } else {
        score(entries[best_index(entries, query)].1, query)
    }
}

/// Whether the query has a match: there are entries, and the highest score
/// reaches the threshold.
pub open spec fn found(
    entries: Seq<(Seq<char>, Seq<u64>)>,
    query: Seq<u64>,
    threshold: int,
) -> bool {
    entries.len() > 0 && best_score(entries, query) >= threshold
}

/// The outcome of a search as plain values: label and score.
pub open spec fn outcome(entries: Seq<(Seq<char>, Seq<u64>)>, query: Seq<u64>, threshold: int) -> (
    Seq<char>,
    int,
) {
    if found(entries, query, threshold) {
        (entries[best_index(entries, query)].0, best_score(entries, query))
    } else {
        ("Not found"@, 0)
    }
}

/// The text of an outcome.
pub open spec fn outcome_text(outcome: (Seq<char>, int)) -> Seq<char> {
    json_record("songName"@, outcome.0, "score"@, outcome.1 as u64)
}

/// A score counts fingerprints of the query: it is at most their number.
pub proof fn lemma_hits_bounds(entry: Seq<u64>, query: Seq<u64>, n: int)
    requires
        0 <= n,
    ensures
        0 <= hits(entry, query, n) <= n,
    decreases n,
{
    if n > 0 {
        lemma_hits_bounds(entry, query, n - 1);
    }
}

/// `best_among` is the first entry of highest score among the first `n`.
pub proof fn lemma_best_among(entries: Seq<(Seq<char>, Seq<u64>)>, query: Seq<u64>, n: int)
    requires
        1 <= n <= entries.len(),
    ensures
        is_best(entries.take(n), query, best_among(entries, query, n)),
    decreases n,
{
    if n > 1 {
        lemma_best_among(entries, query, n - 1);
        let b = best_among(entries, query, n - 1);
        let now = best_among(entries, query, n);
        assert(is_best(entries.take(n - 1), query, b));
        assert forall|j: int| 0 <= j < now implies score(entries.take(n)[j].1, query) < score(
            entries.take(n)[now].1,
            query,
        ) by {
            if j < n - 1 {
                assert(entries.take(n - 1)[j] == entries.take(n)[j]);
            }
        }
        assert forall|j: int| now <= j < n implies score(entries.take(n)[j].1, query) <= score(
            entries.take(n)[now].1,
            query,
        ) by {
            if j < n - 1 {
                assert(entries.take(n - 1)[j] == entries.take(n)[j]);
            }
        }
    }
}

/// The best match is the first entry of highest score.
pub proof fn lemma_best_index(entries: Seq<(Seq<char>, Seq<u64>)>, query: Seq<u64>)
    requires
        entries.len() > 0,
    ensures
        is_best(entries, query, best_index(entries, query)),
{
    lemma_best_among(entries, query, entries.len() as int);
    assert(entries.take(entries.len() as int) =~= entries);
}

/// The score of a sequence of fingerprints against itself is perfect: each of
/// its first `n` fingerprints is a hit.
pub proof fn lemma_self_hits(fingerprints: Seq<u64>, n: int)
    requires
        0 <= n <= fingerprints.len(),
    ensures
        hits(fingerprints, fingerprints, n) == n,
    decreases n,
{
    if n > 0 {
        lemma_self_hits(fingerprints, n - 1);
        assert(fingerprints[n - 1] == fingerprints[n - 1]);
    }
}

/// A query that is the fingerprint sequence of an entry has a perfect score:
/// the highest score is the number of its fingerprints, and the search
/// finds a match with that score whenever it reaches the threshold. The
/// match is that entry unless an earlier one holds all of the query's
/// fingerprints too.
pub proof fn lemma_self_match(
    entries: Seq<(Seq<char>, Seq<u64>)>,
    i: int,
    threshold: int,
)
    requires
        0 <= i < entries.len(),
    ensures
        score(entries[i].1, entries[i].1) == entries[i].1.len(),
        best_score(entries, entries[i].1) == entries[i].1.len(),
        entries[i].1.len() >= threshold ==> found(entries, entries[i].1, threshold) && outcome(
            entries,
            entries[i].1,
            threshold,
        ).1 == entries[i].1.len(),
        best_index(entries, entries[i].1) <= i,
        (forall|j: int| 0 <= j < i ==> score(entries[j].1, entries[i].1) < entries[i].1.len())
            ==> best_index(entries, entries[i].1) == i,
{
    let query = entries[i].1;
    let b = best_index(entries, query);
    lemma_self_hits(query, query.len() as int);
    lemma_best_index(entries, query);
    lemma_hits_bounds(entries[b].1, query, query.len() as int);
}

/// Registering a recording twice gives two entries, and against each of them
/// the recording's own fingerprints have a perfect score; a search with them
/// finds a match with that score whenever it reaches the threshold.
pub proof fn lemma_register_twice(
    entries: Seq<(Seq<char>, Seq<u64>)>,
    label: Seq<char>,
    fingerprints: Seq<u64>,
    threshold: int,
)
    ensures
        ({
            let twice = entries.push((label, fingerprints)).push((label, fingerprints));
            let first = entries.len() as int;
            &&& twice.len() == first + 2
            &&& twice[first] == (label, fingerprints)
            &&& twice[first + 1] == (label, fingerprints)
            &&& score(twice[first].1, fingerprints) == fingerprints.len()
            &&& score(twice[first + 1].1, fingerprints) == fingerprints.len()
            &&& best_score(twice, fingerprints) == fingerprints.len()
            &&& fingerprints.len() >= threshold ==> outcome(twice, fingerprints, threshold).1
                == fingerprints.len()
            &&& fingerprints.len() >= threshold && (forall|j: int|
                0 <= j < entries.len() ==> score(entries[j].1, fingerprints) < fingerprints.len())
                ==> outcome(twice, fingerprints, threshold) == (label, fingerprints.len() as int)
        }),
{
    let twice = entries.push((label, fingerprints)).push((label, fingerprints));
    let first = entries.len() as int;
    lemma_self_match(twice, first, threshold);
    if forall|j: int| 0 <= j < entries.len() ==> score(entries[j].1, fingerprints)
        < fingerprints.len() {
        assert forall|j: int| 0 <= j < first implies score(twice[j].1, twice[first].1)
            < twice[first].1.len() by {
            assert(twice[j] == entries[j]);
        }
    }
}

/// The threshold is the lowest score that gives a match: a highest score one
/// below it gives `"Not found"` with the score zero, and a highest score
/// equal to it gives the best entry with that score, if there is an entry.
pub proof fn lemma_threshold_boundary(
    entries: Seq<(Seq<char>, Seq<u64>)>,
    query: Seq<u64>,
    threshold: int,
)
    ensures
        best_score(entries, query) == threshold - 1 ==> outcome(entries, query, threshold) == (
            "Not found"@,
            0int,
        ),
        entries.len() > 0 && best_score(entries, query) == threshold ==> outcome(
            entries,
            query,
            threshold,
        ) == (entries[best_index(entries, query)].0, threshold),
        found(entries, query, threshold) <==> entries.len() > 0 && best_score(entries, query)
            >= threshold,
{
}

/// Whether `needle` is among `fingerprints`.
fn holds(fingerprints: &Vec<u64>, needle: u64) -> (b: bool)
    ensures
        b == fingerprints@.contains(needle),
{
    let mut k: usize = 0;
    while k < fingerprints.len()
        invariant
            k <= fingerprints@.len(),
            forall|h: int| 0 <= h < k ==> fingerprints@[h] != needle,
        decreases fingerprints@.len() - k,
    {
        if fingerprints[k] == needle {
            return true;
        }
        k = k + 1;
    }
    false
}

/// The score of a query against the fingerprints of an entry: the number of
/// the query's fingerprints that the entry holds. A fingerprint that occurs
/// several times in the query counts each time.
pub fn score_entry(entry: &Vec<u64>, query: &Vec<u64>) -> (s: usize)
    ensures
        s == score(entry@, query@),
        s <= query@.len(),
{
    let mut s: usize = 0;
    let mut k: usize = 0;
    while k < query.len()
        invariant
            k <= query@.len(),
            s == hits(entry@, query@, k as int),
            s <= k,
        decreases query@.len() - k,
    {
        if holds(entry, query[k]) {
            s = s + 1;
        }
        k = k + 1;
    }
    s
}

/// Searches the registered entries for the best match of a query.
///
/// The match is the entry with the highest score, the first of them where
/// several share it, provided that the score reaches `threshold`. Without
/// such an entry the result is `"Not found"` with the score zero.
pub fn find_match(
    registered: &Vec<(String, Vec<u64>)>,
    fingerprints: &Vec<u64>,
    threshold: usize,
) -> (r: SearchResult)
    ensures
        (r.song_name@, r.score as int) == outcome(
            entries_of(registered@),
            fingerprints@,
            threshold as int,
        ),
{
    let ghost entries = entries_of(registered@);
    let mut best: usize = 0;
    let mut best_score: usize = 0;
    let mut i: usize = 0;
    while i < registered.len()
        invariant
            entries == entries_of(registered@),
            i <= registered@.len(),
            i == 0 ==> best == 0 && best_score == 0,
            i > 0 ==> best == best_among(entries, fingerprints@, i as int) && best < i
                && best_score == score(entries[best as int].1, fingerprints@),
        decreases registered@.len() - i,
    {
        let s: usize = score_entry(&registered[i].1, fingerprints);
        if i == 0 || s > best_score {
            best = i;
            best_score = s;
        }
        i = i + 1;
    }
    if registered.len() > 0 && best_score >= threshold {
        SearchResult { song_name: registered[best].0.clone(), score: best_score }
    } else {
        SearchResult { song_name: "Not found".to_owned(), score: 0 }
    }
}

/// Searches the registered entries with the threshold `MIN_SCORE_THRESHOLD`
/// and renders the outcome as JSON text: an object with the members
/// `songName` and `score`.
pub fn search_fingerprints(registered: Vec<(String, Vec<u64>)>, fingerprints: Vec<u64>) -> (text:
    String)
    ensures
        text@ == outcome_text(
            outcome(entries_of(registered@), fingerprints@, MIN_SCORE_THRESHOLD as int),
        ),
{
    let result = find_match(&registered, &fingerprints, MIN_SCORE_THRESHOLD);
    result.to_json()
}

impl SearchResult {
    /// The result as JSON text: an object with the members `songName` and
    /// `score`.
    pub fn to_json(&self) -> (text: String)
        ensures
            text@ == outcome_text((self.song_name@, self.score as int)),
    {
        render_record("songName", self.song_name.as_str(), "score", self.score as u64)
    }
}

impl View for Index {
    type V = Seq<(Seq<char>, Seq<u64>)>;

    closed spec fn view(&self) -> Seq<(Seq<char>, Seq<u64>)> {
        entries_of(self.entries@)
    }
}

impl Index {
    /// The score that a match must reach.
    pub closed spec fn min_score(&self) -> int {
        self.threshold as int
    }

    /// An index without entries.
    pub fn new(threshold: usize) -> (index: Index)
        ensures
            index@ == Seq::<(Seq<char>, Seq<u64>)>::empty(),
            index.min_score() == threshold,
    {
        let index = Index { entries: Vec::new(), threshold };
        proof {
            assert(index@ =~= Seq::<(Seq<char>, Seq<u64>)>::empty());
        }
        index
    }

    /// The number of entries.
    pub fn len(&self) -> (n: usize)
        ensures
            n == self@.len(),
    {
        self.entries.len()
    }

    /// The score that a match must reach.
    pub fn threshold(&self) -> (t: usize)
        ensures
            t == self.min_score(),
    {
        self.threshold
    }

    /// Adds an entry behind those that are there. Nothing is replaced: a
    /// label may be registered several times.
    pub fn register(&mut self, label: String, fingerprints: Vec<u64>)
        ensures
            final(self)@ == old(self)@.push((label@, fingerprints@)),
            final(self).min_score() == old(self).min_score(),
    {
        self.entries.push((label, fingerprints));
        proof {
            assert(self@ =~= old(self)@.push((label@, fingerprints@)));
        }
    }

    /// Searches the index for the best match of a query: see `find_match`.
    pub fn search(&self, fingerprints: &Vec<u64>) -> (r: SearchResult)
        ensures
            (r.song_name@, r.score as int) == outcome(self@, fingerprints@, self.min_score()),
    {
        find_match(&self.entries, fingerprints, self.threshold)
    }
}

} // verus!
