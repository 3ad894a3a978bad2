//! Graph-based question answering: questions are parsed into keywords,
//! keywords matched to concepts, and answers aggregated from the paths
//! between concepts.
//!
//! Weights are fixed-point numbers in units of `1 / UNIT`.

use vstd::prelude::*;
use vstd::string::*;
use crate::brain::{adjacency, relations_touching, Brain, Concept, ConceptView, RelationView};
use crate::response_generator::{pair_views, path_views};
use crate::learner::other_end;
use crate::nlp::{filter_stop_words, jieba_segments, keeps_token, stop_word_set, tokenize, tokens_of};
use crate::table::{Table, lookup, upsert};
use crate::text::{
    contains, contains_string, join, join_strings, lowercase, str_contains, str_eq, to_lowercase,
    to_string, views,
};

verus! {

// ---------------------------------------------------------------------------
// Data types
// ---------------------------------------------------------------------------

/// A query word (or phrase) matched to a concept.
#[derive(Debug, Clone)]
pub struct Match {
    pub word: String,
    pub concept_name: String,
    pub energy: u64,
    pub exact: bool,
}

pub struct MatchView {
    pub word: Seq<char>,
    pub concept_name: Seq<char>,
    pub energy: u64,
    pub exact: bool,
}

impl View for Match {
    type V = MatchView;

    open spec fn view(&self) -> MatchView {
        MatchView { word: self.word@, concept_name: self.concept_name@, energy: self.energy, exact: self.exact }
    }
}

/// A concept associated with the asked one.
#[derive(Debug, Clone)]
pub struct Association {
    pub concept: String,
    pub weight: u64,
}

/// An answer to a question.
#[derive(Debug, Clone)]
pub struct Answer {
    pub answer: String,
    /// Confidence in percent.
    pub confidence: u32,
    pub paths: Vec<Vec<String>>,
    pub concepts: Vec<String>,
    pub associations: Option<Vec<Association>>,
    pub elapsed_ms: u128,
}

/// One step of a path with the weight of the relation it follows.
#[derive(Debug, Clone)]
pub struct PathEdge {
    pub from: String,
    pub to: String,
    pub weight: u64,
}

/// A path between two concepts with its steps and their total weight.
#[derive(Debug, Clone)]
pub struct PathResult {
    pub path: Vec<String>,
    pub path_details: Vec<PathEdge>,
    pub total_weight: u64,
}

// ---------------------------------------------------------------------------
// Query parsing
// ---------------------------------------------------------------------------

/// The word tokens of a text (see `nlp::simple_tokenize`).
pub open spec fn simple_tokens(text: Seq<char>) -> Seq<Seq<char>> {
    if text.len() == 0 {
        Seq::empty()
    } else {
        tokens_of(jieba_segments(Seq::empty(), text), stop_word_set(), true)
    }
}

/// The keywords of a question: its tokens without stop words.
pub open spec fn query_keywords(question: Seq<char>) -> Seq<Seq<char>> {
    simple_tokens(question).filter(|t: Seq<char>| keeps_token(t, stop_word_set()))
}

/// The keywords of a question (see `query_keywords`).
pub fn parse_query(question: &str) -> (r: Vec<String>)
    ensures
        views(r@) == query_keywords(question@),
{
    let tokens = tokenize(question);
    assert(views(tokens@) =~= simple_tokens(question@));
    filter_stop_words(tokens.as_slice())
}

// ---------------------------------------------------------------------------
// Matching words to concepts
// ---------------------------------------------------------------------------

/// The index of the first entry of `s` satisfying `p`.
pub open spec fn first_index<A>(s: Seq<A>, p: spec_fn(A) -> bool) -> Option<int>
    decreases s.len(),
{
    if s.len() == 0 {
        None
    } else {
        match first_index(s.drop_last(), p) {
            Some(k) => Some(k),
            None => if p(s.last()) {
                Some(s.len() - 1)
            } else {
                None
            },
        }
    }
}

pub proof fn lemma_first_index_prefix<A>(s: Seq<A>, p: spec_fn(A) -> bool, m: int)
    requires
        0 <= m <= s.len(),
        first_index(s.take(m), p) is Some,
    ensures
        first_index(s, p) == first_index(s.take(m), p),
    decreases s.len(),
{
    if m == s.len() {
        assert(s.take(m) =~= s);
    } else {
        assert(s.drop_last().take(m) =~= s.take(m));
        lemma_first_index_prefix(s.drop_last(), p, m);
    }
}

pub proof fn lemma_first_index_bound<A>(s: Seq<A>, p: spec_fn(A) -> bool)
    ensures
        match first_index(s, p) {
            Some(k) => 0 <= k < s.len() && p(s[k]),
            None => true,
        },
    decreases s.len(),
{
    if s.len() > 0 {
        lemma_first_index_bound(s.drop_last(), p);
    }
}

/// The matching state: matches so far, the concept names already matched,
/// and which query words are already matched.
#[verifier::ext_equal]
pub struct MatchState {
    pub matches: Seq<MatchView>,
    pub names: Seq<Seq<char>>,
    pub marked: Seq<bool>,
}

/// Concepts whose lowercase name equals `pl` and that are not matched yet.
pub open spec fn phrase_pred(pl: Seq<char>, names: Seq<Seq<char>>) -> spec_fn((Seq<char>, ConceptView)) -> bool {
    |e: (Seq<char>, ConceptView)| lowercase(e.0) == pl && !names.contains(e.0)
}

/// Concepts whose lowercase name contains `lw` and that are not matched yet.
pub open spec fn fuzzy_pred(lw: Seq<char>, names: Seq<Seq<char>>) -> spec_fn((Seq<char>, ConceptView)) -> bool {
    |e: (Seq<char>, ConceptView)| contains(lowercase(e.0), lw) && !names.contains(e.0)
}

/// The words `words[i..j]` joined by spaces.
pub open spec fn phrase_at(words: Seq<Seq<char>>, i: int, j: int) -> Seq<char> {
    join(words.subrange(i, j), " "@)
}

/// Whether none of the words `i..j` is matched yet.
pub open spec fn range_free(marked: Seq<bool>, i: int, j: int) -> bool {
    forall|x: int| i <= x < j ==> !#[trigger] marked[x]
}

/// `marked` with the words `i..j` marked.
pub open spec fn mark_range(marked: Seq<bool>, i: int, j: int) -> Seq<bool> {
    Seq::new(marked.len(), |x: int| marked[x] || (i <= x && x < j))
}

/// The phrase `words[i..i + len]`, when none of its words is matched yet,
/// matched to the first unmatched concept with the same lowercase name.
pub open spec fn phrase_step(
    st: MatchState,
    words: Seq<Seq<char>>,
    cs: Seq<(Seq<char>, ConceptView)>,
    i: int,
    len: int,
) -> MatchState {
    if !range_free(st.marked, i, i + len) {
        st
    } else {
        let ph = phrase_at(words, i, i + len);
        match first_index(cs, phrase_pred(lowercase(ph), st.names)) {
            Some(k) => MatchState {
                matches: st.matches.push(MatchView { word: ph, concept_name: cs[k].0, energy: cs[k].1.energy, exact: true }),
                names: st.names.push(cs[k].0),
                marked: mark_range(st.marked, i, i + len),
            },
            None => st,
        }
    }
}

/// The phrases of length `len` starting at `0..i_end`, in order.
pub open spec fn phrase_row(
    st: MatchState,
    words: Seq<Seq<char>>,
    cs: Seq<(Seq<char>, ConceptView)>,
    len: int,
    i_end: int,
) -> MatchState
    decreases i_end,
{
    if i_end <= 0 {
        st
    } else {
        phrase_step(phrase_row(st, words, cs, len, i_end - 1), words, cs, i_end - 1, len)
    }
}

/// The longest phrase length tried: the number of words, at most four.
pub open spec fn max_phrase_len(n: int) -> int {
    if n < 4 {
        n
    } else {
        4
    }
}

/// The phrases of the `c` longest lengths (from the longest, at most four
/// words, down), each length over all start positions.
pub open spec fn phrase_lengths(
    st: MatchState,
    words: Seq<Seq<char>>,
    cs: Seq<(Seq<char>, ConceptView)>,
    c: int,
) -> MatchState
    decreases c,
{
    if c <= 0 {
        st
    } else {
        let len = max_phrase_len(words.len() as int) - (c - 1);
        phrase_row(phrase_lengths(st, words, cs, c - 1), words, cs, len, words.len() - len + 1)
    }
}

/// Word `idx`, when not part of a matched phrase: matched to the concept
/// of exactly that name when it is not matched yet, else to the first
/// unmatched concept whose lowercase name contains the lowercase word.
pub open spec fn word_step(
    st: MatchState,
    words: Seq<Seq<char>>,
    cs: Seq<(Seq<char>, ConceptView)>,
    idx: int,
) -> MatchState {
    if st.marked[idx] {
        st
    } else {
        let w = words[idx];
        let st1 = match lookup(cs, w) {
            Some(c) => if !st.names.contains(w) {
                MatchState {
                    matches: st.matches.push(MatchView { word: w, concept_name: w, energy: c.energy, exact: true }),
                    names: st.names.push(w),
                    marked: st.marked.update(idx, true),
                }
            } else {
                st
            },
            None => st,
        };
        if st1.marked[idx] {
            st1
        } else {
            match first_index(cs, fuzzy_pred(lowercase(w), st1.names)) {
                Some(k) => MatchState {
                    matches: st1.matches.push(MatchView { word: w, concept_name: cs[k].0, energy: cs[k].1.energy, exact: false }),
                    names: st1.names.push(cs[k].0),
                    marked: st1.marked.update(idx, true),
                },
                None => st1,
            }
        }
    }
}

/// The single words `0..m`, in order.
pub open spec fn word_row(
    st: MatchState,
    words: Seq<Seq<char>>,
    cs: Seq<(Seq<char>, ConceptView)>,
    m: int,
) -> MatchState
    decreases m,
{
    if m <= 0 {
        st
    } else {
        word_step(word_row(st, words, cs, m - 1), words, cs, m - 1)
    }
}

/// The number of phrase lengths tried.
pub open spec fn phrase_length_count(n: int) -> int {
    if max_phrase_len(n) >= 2 {
        max_phrase_len(n) - 1
    } else {
        0
    }
}

/// The concepts matched by query words: phrases of several words first,
/// longest first, compared in lowercase; then the remaining single words,
/// exactly or else by lowercase containment.  A concept is matched at most
/// once and a word belongs to at most one match.
pub open spec fn matching_concepts(words: Seq<Seq<char>>, cs: Seq<(Seq<char>, ConceptView)>) -> Seq<MatchView> {
    let st0 = MatchState { matches: Seq::empty(), names: Seq::empty(), marked: Seq::new(words.len(), |i: int| false) };
    let st1 = phrase_lengths(st0, words, cs, phrase_length_count(words.len() as int));
    word_row(st1, words, cs, words.len() as int).matches
}

/// The index of the first concept satisfying `phrase_pred(pl, names)` (or
/// `fuzzy_pred(pl, names)` when `fuzzy`), given the lowercase names.
fn find_concept(
    cs: &Table<Concept>,
    lowers: &Vec<String>,
    pl: &str,
    names: &Vec<String>,
    fuzzy: bool,
) -> (r: Option<usize>)
    requires
        lowers@.len() == cs@.len(),
        forall|k: int| 0 <= k < cs@.len() ==> #[trigger] lowers@[k]@ == lowercase(cs@[k].0),
    ensures
        match r {
            Some(k) => k < cs@.len() && (if fuzzy {
                first_index(cs@, fuzzy_pred(pl@, views(names@)))
            } else {
                first_index(cs@, phrase_pred(pl@, views(names@)))
            }) == Some(k as int),
            None => (if fuzzy {
                first_index(cs@, fuzzy_pred(pl@, views(names@)))
            } else {
                first_index(cs@, phrase_pred(pl@, views(names@)))
            }) is None,
        },
{
    let ghost p = if fuzzy {
        fuzzy_pred(pl@, views(names@))
    } else {
        phrase_pred(pl@, views(names@))
    };
    let mut k: usize = 0;
    while k < cs.len()
        invariant
            k <= cs@.len(),
            lowers@.len() == cs@.len(),
            forall|j: int| 0 <= j < cs@.len() ==> #[trigger] lowers@[j]@ == lowercase(cs@[j].0),
            p == (if fuzzy { fuzzy_pred(pl@, views(names@)) } else { phrase_pred(pl@, views(names@)) }),
            first_index(cs@.take(k as int), p) is None,
        decreases cs@.len() - k,
    {
        assert(cs@.take(k as int + 1).drop_last() =~= cs@.take(k as int));
        assert(cs@.take(k as int + 1).last() == cs@[k as int]);
        let name = cs.key_at(k);
        let hit = if fuzzy {
            str_contains(lowers[k].as_str(), pl)
        } else {
            str_eq(lowers[k].as_str(), pl)
        };
        if hit && !contains_string(names, name.as_str()) {
            proof {
                lemma_first_index_prefix(cs@, p, k as int + 1);
            }
            return Some(k);
        }
        k = k + 1;
    }
    assert(cs@.take(k as int) =~= cs@);
    None
}

/// The words `words[i..j]` joined by spaces.
fn phrase_of(words: &[String], i: usize, j: usize) -> (r: String)
    requires
        i <= j <= words@.len(),
    ensures
        r@ == phrase_at(views(words@), i as int, j as int),
{
    let mut parts: Vec<String> = Vec::new();
    let mut k: usize = i;
    while k < j
        invariant
            i <= k <= j <= words@.len(),
            views(parts@) == views(words@).subrange(i as int, k as int),
        decreases j - k,
    {
        let ghost before = parts@;
        let w = words[k].clone();
        parts.push(w);
        assert(views(parts@) =~= views(before).push(words@[k as int]@));
        assert(views(words@).subrange(i as int, k as int + 1) =~= views(words@).subrange(i as int, k as int).push(words@[k as int]@));
        k = k + 1;
    }
    join_strings(&parts, " ")
}

/// The lowercase names of the concepts.
fn lowercase_names(cs: &Table<Concept>) -> (r: Vec<String>)
    ensures
        r@.len() == cs@.len(),
        forall|k: int| 0 <= k < cs@.len() ==> #[trigger] r@[k]@ == lowercase(cs@[k].0),
{
    let mut out: Vec<String> = Vec::new();
    let mut k: usize = 0;
    while k < cs.len()
        invariant
            k <= cs@.len(),
            out@.len() == k,
            forall|j: int| 0 <= j < k ==> #[trigger] out@[j]@ == lowercase(cs@[j].0),
        decreases cs@.len() - k,
    {
        out.push(to_lowercase(cs.key_at(k).as_str()));
        k = k + 1;
    }
    out
}

/// The exec matching state.
struct Matching {
    matches: Vec<Match>,
    names: Vec<String>,
    marked: Vec<bool>,
}

impl Matching {
    closed spec fn state(&self) -> MatchState {
        MatchState {
            matches: self.matches@.map_values(|m: Match| m@),
            names: views(self.names@),
            marked: self.marked@,
        }
    }

    /// Records a match of `word` to concept entry `k`, marking words `i..j`.
    fn record(&mut self, word: String, cs: &Table<Concept>, k: usize, exact: bool, i: usize, j: usize)
        requires
            k < cs@.len(),
            i <= j <= old(self).marked@.len(),
        ensures
            final(self).state() == (MatchState {
                matches: old(self).state().matches.push(MatchView { word: word@, concept_name: cs@[k as int].0, energy: cs@[k as int].1.energy, exact }),
                names: old(self).state().names.push(cs@[k as int].0),
                marked: mark_range(old(self).state().marked, i as int, j as int),
            }),
    {
        let name = cs.key_at(k).clone();
        let energy = cs.value_at(k).energy;
        let ghost m0 = self.matches@;
        let ghost n0 = self.names@;
        self.matches.push(Match { word, concept_name: name.clone(), energy, exact });
        self.names.push(name);
        proof {
            assert(self.matches@.map_values(|m: Match| m@) =~= m0.map_values(|m: Match| m@).push(MatchView { word: word@, concept_name: cs@[k as int].0, energy: cs@[k as int].1.energy, exact }));
            assert(views(self.names@) =~= views(n0).push(cs@[k as int].0));
        }
        let ghost m1 = self.matches@;
        let ghost n1 = self.names@;
        let mut x: usize = i;
        let ghost b0 = self.marked@;
        while x < j
            invariant
                i <= x <= j <= self.marked@.len(),
                b0.len() == self.marked@.len(),
                self.matches@ == m1,
                self.names@ == n1,
                forall|y: int| 0 <= y < b0.len() ==> #[trigger] self.marked@[y] == (b0[y] || (i <= y && y < x)),
            decreases j - x,
        {
            self.marked.set(x, true);
            x = x + 1;
        }
        proof {
            assert(self.marked@ =~= mark_range(b0, i as int, j as int));
        }
    }
}

/// The concepts matched by `query_words` (see `matching_concepts`).
pub fn find_matching_concepts(query_words: &[String], brain: &Brain) -> (r: Vec<Match>)
    requires
        brain.wf(),
    ensures
        r@.map_values(|m: Match| m@) == matching_concepts(views(query_words@), brain@.concepts),
{
    let cs = brain.concepts();
    let ghost cv = brain@.concepts;
    let ghost wv = views(query_words@);
    let lowers = lowercase_names(cs);
    let n = query_words.len();
    let mut marked: Vec<bool> = Vec::new();
    let mut z: usize = 0;
    while z < n
        invariant
            z <= n,
            marked@ == Seq::new(z as nat, |i: int| false),
        decreases n - z,
    {
        marked.push(false);
        assert(marked@ =~= Seq::new(z as nat + 1, |i: int| false));
        z = z + 1;
    }
    let mut st = Matching { matches: Vec::new(), names: Vec::new(), marked };
    proof {
        assert(st.state() =~= (MatchState { matches: Seq::empty(), names: Seq::empty(), marked: Seq::new(wv.len(), |i: int| false) }));
    }
    let ghost st0 = st.state();
    let max_len: usize = if n < 4 {
        n
    } else {
        4
    };
    let count: usize = if max_len >= 2 {
        max_len - 1
    } else {
        0
    };
    let mut c: usize = 0;
    while c < count
        invariant
            cs@ == cv,
            cs.wf(),
            wv == views(query_words@),
            n == wv.len(),
            max_len == max_phrase_len(n as int),
            count == phrase_length_count(n as int),
            c <= count,
            lowers@.len() == cv.len(),
            forall|k: int| 0 <= k < cv.len() ==> #[trigger] lowers@[k]@ == lowercase(cv[k].0),
            st.marked@.len() == n,
            st.state() == phrase_lengths(st0, wv, cv, c as int),
        decreases count - c,
    {
        let len = max_len - c;
        let ghost before_row = st.state();
        let mut i: usize = 0;
        while i <= n - len
            invariant
                cs@ == cv,
                wv == views(query_words@),
                n == wv.len(),
                2 <= len <= n,
                i <= n - len + 1,
                lowers@.len() == cv.len(),
                forall|k: int| 0 <= k < cv.len() ==> #[trigger] lowers@[k]@ == lowercase(cv[k].0),
                st.marked@.len() == n,
                st.state() == phrase_row(before_row, wv, cv, len as int, i as int),
            decreases n - len + 1 - i,
        {
            let j = i + len;
            let mut free = true;
            let mut x: usize = i;
            while x < j
                invariant
                    i <= x <= j <= n,
                    st.marked@.len() == n,
                    free == range_free(st.marked@, i as int, x as int),
                decreases j - x,
            {
                if st.marked[x] {
                    free = false;
                }
                x = x + 1;
            }
            let ghost s_before = st.state();
            if free {
                let phrase = phrase_of(query_words, i, j);
                let pl = to_lowercase(phrase.as_str());
                match find_concept(cs, &lowers, pl.as_str(), &st.names, false) {
                    Some(k) => {
                        st.record(phrase, cs, k, true, i, j);
                    },
                    None => {},
                }
            }
            assert(st.state() =~= phrase_step(s_before, wv, cv, i as int, len as int));
            i = i + 1;
        }
        c = c + 1;
    }
    let ghost st1 = st.state();
    let mut idx: usize = 0;
    while idx < n
        invariant
            cs@ == cv,
            cs.wf(),
            wv == views(query_words@),
            n == wv.len(),
            idx <= n,
            lowers@.len() == cv.len(),
            forall|k: int| 0 <= k < cv.len() ==> #[trigger] lowers@[k]@ == lowercase(cv[k].0),
            st.marked@.len() == n,
            st.state() == word_row(st1, wv, cv, idx as int),
        decreases n - idx,
    {
        let ghost s_before = st.state();
        if !st.marked[idx] {
            let w = &query_words[idx];
            assert(wv[idx as int] == w@);
            proof {
                crate::table::lemma_key_index(cv, w@);
            }
            match cs.index_of(w.as_str()) {
                Some(k) => {
                    if !contains_string(&st.names, w.as_str()) {
                        assert(cv[k as int].0 == w@);
                        st.record(w.clone(), cs, k, true, idx, idx + 1);
                        assert(mark_range(s_before.marked, idx as int, idx + 1) =~= s_before.marked.update(idx as int, true));
                    }
                },
                None => {},
            }
            let ghost s_mid = st.state();
            if !st.marked[idx] {
                let lw = to_lowercase(w.as_str());
                match find_concept(cs, &lowers, lw.as_str(), &st.names, true) {
                    Some(k) => {
                        st.record(w.clone(), cs, k, false, idx, idx + 1);
                        assert(mark_range(s_mid.marked, idx as int, idx + 1) =~= s_mid.marked.update(idx as int, true));
                    },
                    None => {},
                }
            }
        }
        assert(st.state() =~= word_step(s_before, wv, cv, idx as int));
        idx = idx + 1;
    }
    st.matches
}

// ---------------------------------------------------------------------------
// Graph traversal
// ---------------------------------------------------------------------------

/// The neighbour lists stored in an adjacency table, as views.
pub open spec fn adjacency_matches(t: Seq<(Seq<char>, Seq<(String, u64)>)>, rels: Seq<(Seq<char>, RelationView)>) -> bool {
    forall|x: Seq<char>| match #[trigger] lookup(t, x) {
        Some(l) => pair_views(l) == adjacency(rels, x),
        None => adjacency(rels, x).len() == 0,
    }
}

/// Appends `(n, w)` to the list under `key`, creating it when missing.
fn append_neighbor(adj: &mut Table<Vec<(String, u64)>>, key: &String, n: &String, w: u64)
    requires
        old(adj).wf(),
    ensures
        final(adj).wf(),
        forall|y: Seq<char>| y != key@ ==> lookup(final(adj)@, y) == lookup(old(adj)@, y),
        lookup(final(adj)@, key@) is Some,
        pair_views(lookup(final(adj)@, key@).unwrap()) == (match lookup(old(adj)@, key@) {
            Some(l) => pair_views(l),
            None => Seq::empty(),
        }).push((n@, w)),
{
    proof {
        crate::table::lemma_key_index(adj@, key@);
    }
    match adj.index_of(key.as_str()) {
        Some(i) => {
            let ghost a0 = adj@;
            let mut l = adj.take_value_at(i, Vec::new());
            let ghost l0 = l@;
            l.push((n.clone(), w));
            assert(pair_views(l@) =~= pair_views(l0).push((n@, w)));
            adj.set_value_at(i, l);
            proof {
                crate::table::lemma_upsert(a0, key@, l@);
                assert(adj@ =~= a0.update(i as int, (key@, l@)));
                assert(adj@ == crate::table::upsert(a0, key@, l@));
            }
        },
        None => {
            let mut l: Vec<(String, u64)> = Vec::new();
            l.push((n.clone(), w));
            assert(pair_views(l@) =~= Seq::<(Seq<char>, u64)>::empty().push((n@, w)));
            proof {
                crate::table::lemma_upsert(adj@, key@, l@);
                assert(adj@.push((key@, l@)) == crate::table::upsert(adj@, key@, l@));
            }
            adj.push_new(key.clone(), l);
        },
    }
}

/// The neighbours of every concept, in relation order: each relation lists
/// its target under its source and its source under its target.
pub fn build_adjacency(brain: &Brain) -> (r: Table<Vec<(String, u64)>>)
    requires
        brain.wf(),
    ensures
        r.wf(),
        adjacency_matches(r@, brain@.relations),
{
    let rs = brain.relations();
    let ghost rv = brain@.relations;
    let mut adj: Table<Vec<(String, u64)>> = Table::new();
    let mut i: usize = 0;
    while i < rs.len()
        invariant
            rs@ == rv,
            i <= rv.len(),
            adj.wf(),
            adjacency_matches(adj@, rv.take(i as int)),
        decreases rv.len() - i,
    {
        let r = rs.value_at(i);
        let ghost a0 = adj@;
        append_neighbor(&mut adj, &r.source, &r.target, r.weight);
        let ghost a1 = adj@;
        append_neighbor(&mut adj, &r.target, &r.source, r.weight);
        proof {
            let t = rv.take(i as int + 1);
            assert(t.drop_last() =~= rv.take(i as int));
            assert(t.last() == rv[i as int]);
            assert forall|x: Seq<char>| match #[trigger] lookup(adj@, x) {
                Some(l) => pair_views(l) == adjacency(t, x),
                None => adjacency(t, x).len() == 0,
            } by {
                assert(match lookup(a0, x) {
                    Some(l) => pair_views(l) == adjacency(rv.take(i as int), x),
                    None => adjacency(rv.take(i as int), x).len() == 0,
                });
                if x == r.source@ {
                    assert(match lookup(a1, x) {
                        Some(l) => pair_views(l) == adjacency(rv.take(i as int), x).push((r.target@, r.weight)),
                        None => false,
                    });
                }
            }
        }
        i = i + 1;
    }
    assert(rv.take(i as int) =~= rv);
    adj
}

/// The paths extending `p` by one neighbour from `adj` that is not on `p`,
/// in the order of `adj`.
pub open spec fn extensions(adj: Seq<(Seq<char>, u64)>, p: Seq<Seq<char>>) -> Seq<Seq<Seq<char>>>
    decreases adj.len(),
{
    if adj.len() == 0 {
        Seq::empty()
    } else {
        let e = extensions(adj.drop_last(), p);
        let n = adj.last().0;
        if p.contains(n) {
            e
        } else {
            e.push(p.push(n))
        }
    }
}

/// The extensions of every path of `ps`, in order.
pub open spec fn extend_level(rels: Seq<(Seq<char>, RelationView)>, ps: Seq<Seq<Seq<char>>>) -> Seq<Seq<Seq<char>>>
    decreases ps.len(),
{
    if ps.len() == 0 {
        Seq::empty()
    } else {
        extend_level(rels, ps.drop_last()) + extensions(adjacency(rels, ps.last().last()), ps.last())
    }
}

/// The simple paths from `start` with `k` steps, in breadth-first order.
pub open spec fn path_level(rels: Seq<(Seq<char>, RelationView)>, start: Seq<char>, k: nat) -> Seq<Seq<Seq<char>>>
    decreases k,
{
    if k == 0 {
        seq![seq![start]]
    } else {
        extend_level(rels, path_level(rels, start, (k - 1) as nat))
    }
}

/// The simple paths from `start` with 1 to `d` steps, shortest first.
pub open spec fn paths_within(rels: Seq<(Seq<char>, RelationView)>, start: Seq<char>, d: nat) -> Seq<Seq<Seq<char>>>
    decreases d,
{
    if d == 0 {
        Seq::empty()
    } else {
        paths_within(rels, start, (d - 1) as nat) + path_level(rels, start, d)
    }
}

proof fn lemma_empty_levels(rels: Seq<(Seq<char>, RelationView)>, start: Seq<char>, k: nat, d: nat)
    requires
        path_level(rels, start, k).len() == 0,
        k <= d,
    ensures
        paths_within(rels, start, d) == paths_within(rels, start, k),
        path_level(rels, start, d).len() == 0,
    decreases d - k,
{
    if d > k {
        lemma_empty_levels(rels, start, k, (d - 1) as nat);
        assert(path_level(rels, start, (d - 1) as nat).len() == 0);
        assert(path_level(rels, start, d) =~= Seq::<Seq<Seq<char>>>::empty());
        assert(paths_within(rels, start, d) =~= paths_within(rels, start, (d - 1) as nat));
    }
}

/// A copy of a vector of strings.
fn copy_strings(v: &Vec<String>) -> (r: Vec<String>)
    ensures
        views(r@) == views(v@),
{
    let mut out: Vec<String> = Vec::new();
    let mut i: usize = 0;
    while i < v.len()
        invariant
            i <= v@.len(),
            views(out@) == views(v@).take(i as int),
        decreases v@.len() - i,
    {
        let ghost before = out@;
        let c = v[i].clone();
        out.push(c);
        assert(views(out@) =~= views(before).push(v@[i as int]@));
        assert(views(v@).take(i as int + 1) =~= views(v@).take(i as int).push(v@[i as int]@));
        i = i + 1;
    }
    assert(views(v@).take(i as int) =~= views(v@));
    out
}

/// The paths of the next level from `level`.
fn next_level(adj: &Table<Vec<(String, u64)>>, level: &Vec<Vec<String>>, Ghost(rels): Ghost<Seq<(Seq<char>, RelationView)>>) -> (r: Vec<Vec<String>>)
    requires
        adj.wf(),
        adjacency_matches(adj@, rels),
        forall|k: int| 0 <= k < level@.len() ==> #[trigger] level@[k]@.len() > 0,
    ensures
        path_views(r@) == extend_level(rels, path_views(level@)),
{
    let ghost lv = path_views(level@);
    let mut out: Vec<Vec<String>> = Vec::new();
    let mut i: usize = 0;
    while i < level.len()
        invariant
            i <= level@.len(),
            lv == path_views(level@),
            adj.wf(),
            adjacency_matches(adj@, rels),
            forall|k: int| 0 <= k < level@.len() ==> #[trigger] level@[k]@.len() > 0,
            path_views(out@) == extend_level(rels, lv.take(i as int)),
        decreases level@.len() - i,
    {
        let p = &level[i];
        let ghost pv = views(p@);
        assert(lv[i as int] == pv);
        assert(lv.take(i as int + 1).drop_last() =~= lv.take(i as int));
        assert(lv.take(i as int + 1).last() == pv);
        let last = &p[p.len() - 1];
        assert(pv.last() == last@);
        let ghost adjl = adjacency(rels, last@);
        let empty: Vec<(String, u64)> = Vec::new();
        let nbrs: &Vec<(String, u64)> = match adj.get(last.as_str()) {
            Some(l) => l,
            None => &empty,
        };
        assert(lookup(adj@, last@) == lookup(adj@, last@));
        assert(pair_views(nbrs@) =~= adjl);
        let ghost base = out@;
        let mut k: usize = 0;
        while k < nbrs.len()
            invariant
                k <= nbrs@.len(),
                pair_views(nbrs@) == adjl,
                pv == views(p@),
                path_views(out@) == path_views(base) + extensions(adjl.take(k as int), pv),
            decreases nbrs@.len() - k,
        {
            let n = &nbrs[k].0;
            assert(adjl[k as int].0 == n@);
            assert(adjl.take(k as int + 1).drop_last() =~= adjl.take(k as int));
            assert(adjl.take(k as int + 1).last() == adjl[k as int]);
            if !contains_string(p, n.as_str()) {
                let mut np = copy_strings(p);
                let ghost np0 = np@;
                np.push(n.clone());
                assert(views(np@) =~= pv.push(n@));
                let ghost before = out@;
                out.push(np);
                assert(path_views(out@) =~= path_views(before).push(pv.push(n@)));
            }
            k = k + 1;
        }
        assert(adjl.take(k as int) =~= adjl);
        i = i + 1;
    }
    assert(lv.take(i as int) =~= lv);
    out
}

/// The simple paths from `start_concept` with 1 to `max_depth` steps, in
/// breadth-first order (see `paths_within`).
pub fn find_paths(start_concept: &str, brain: &Brain, max_depth: usize) -> (r: Vec<Vec<String>>)
    requires
        brain.wf(),
    ensures
        path_views(r@) == paths_within(brain@.relations, start_concept@, max_depth as nat),
{
    let ghost rels = brain@.relations;
    let adj = build_adjacency(brain);
    let mut paths: Vec<Vec<String>> = Vec::new();
    let mut first: Vec<String> = Vec::new();
    first.push(to_string(start_concept));
    let mut level: Vec<Vec<String>> = Vec::new();
    level.push(first);
    assert(path_views(level@) =~= path_level(rels, start_concept@, 0)) by {
        assert(views(level@[0]@) =~= seq![start_concept@]);
    }
    assert(path_views(paths@) =~= paths_within(rels, start_concept@, 0));
    let mut d: usize = 0;
    while d < max_depth && level.len() > 0
        invariant
            d <= max_depth,
            adj.wf(),
            adjacency_matches(adj@, rels),
            rels == brain@.relations,
            path_views(level@) == path_level(rels, start_concept@, d as nat),
            path_views(paths@) == paths_within(rels, start_concept@, d as nat),
            forall|k: int| 0 <= k < level@.len() ==> #[trigger] level@[k]@.len() > 0,
        decreases max_depth - d,
    {
        let next = next_level(&adj, &level, Ghost(rels));
        let ghost p0 = paths@;
        let mut k: usize = 0;
        while k < next.len()
            invariant
                k <= next@.len(),
                path_views(paths@) == path_views(p0) + path_views(next@).take(k as int),
            decreases next@.len() - k,
        {
            let c = copy_strings(&next[k]);
            let ghost before = paths@;
            paths.push(c);
            assert(path_views(paths@) =~= path_views(before).push(views(next@[k as int]@)));
            assert(path_views(next@).take(k as int + 1) =~= path_views(next@).take(k as int).push(views(next@[k as int]@)));
            k = k + 1;
        }
        assert(path_views(next@).take(k as int) =~= path_views(next@));
        proof {
            assert forall|k: int| 0 <= k < next@.len() implies #[trigger] next@[k]@.len() > 0 by {
                lemma_level_paths_nonempty(rels, start_concept@, (d + 1) as nat, k);
                assert(path_views(next@)[k] == views(next@[k]@));
            }
        }
        level = next;
        d = d + 1;
    }
    proof {
        if d < max_depth {
            lemma_empty_levels(rels, start_concept@, d as nat, max_depth as nat);
        }
    }
    paths
}

proof fn lemma_extensions_longer(adj: Seq<(Seq<char>, u64)>, p: Seq<Seq<char>>, k: int)
    requires
        0 <= k < extensions(adj, p).len(),
    ensures
        extensions(adj, p)[k].len() == p.len() + 1,
    decreases adj.len(),
{
    if adj.len() > 0 {
        let e = extensions(adj.drop_last(), p);
        if k < e.len() {
            lemma_extensions_longer(adj.drop_last(), p, k);
        }
    }
}

proof fn lemma_extend_level_lens(rels: Seq<(Seq<char>, RelationView)>, ps: Seq<Seq<Seq<char>>>, len: nat, k: int)
    requires
        forall|j: int| 0 <= j < ps.len() ==> #[trigger] ps[j].len() == len,
        0 <= k < extend_level(rels, ps).len(),
    ensures
        extend_level(rels, ps)[k].len() == len + 1,
    decreases ps.len(),
{
    if ps.len() > 0 {
        let a = extend_level(rels, ps.drop_last());
        if k < a.len() {
            lemma_extend_level_lens(rels, ps.drop_last(), len, k);
        } else {
            lemma_extensions_longer(adjacency(rels, ps.last().last()), ps.last(), k - a.len());
        }
    }
}

proof fn lemma_level_lens(rels: Seq<(Seq<char>, RelationView)>, start: Seq<char>, d: nat)
    ensures
        forall|k: int| 0 <= k < path_level(rels, start, d).len() ==> #[trigger] path_level(rels, start, d)[k].len() == d + 1,
    decreases d,
{
    if d > 0 {
        lemma_level_lens(rels, start, (d - 1) as nat);
        assert forall|k: int| 0 <= k < path_level(rels, start, d).len() implies #[trigger] path_level(rels, start, d)[k].len() == d + 1 by {
            lemma_extend_level_lens(rels, path_level(rels, start, (d - 1) as nat), d, k);
        }
    }
}

proof fn lemma_level_paths_nonempty(rels: Seq<(Seq<char>, RelationView)>, start: Seq<char>, d: nat, k: int)
    requires
        0 <= k < path_level(rels, start, d).len(),
    ensures
        path_level(rels, start, d)[k].len() > 0,
{
    lemma_level_lens(rels, start, d);
}

// ---------------------------------------------------------------------------
// Paths between two concepts
// ---------------------------------------------------------------------------

/// Whether a relation connects `x` and `y` (either way round).
pub open spec fn linked(rels: Seq<(Seq<char>, RelationView)>, x: Seq<char>, y: Seq<char>) -> bool {
    exists|i: int|
        0 <= i < rels.len() && ((#[trigger] rels[i].1.source == x && rels[i].1.target == y) || (rels[i].1.source == y
            && rels[i].1.target == x))
}

/// Whether `p` goes from `a` to `b` along relations without repeating a
/// concept.
pub open spec fn is_simple_path(rels: Seq<(Seq<char>, RelationView)>, p: Seq<Seq<char>>, a: Seq<char>, b: Seq<char>) -> bool {
    &&& p.len() >= 1
    &&& p[0] == a
    &&& p.last() == b
    &&& p.no_duplicates()
    &&& forall|i: int| #![trigger p[i]] 0 <= i < p.len() - 1 ==> linked(rels, p[i], p[i + 1])
}

/// Whether `b` can be reached from `a` along relations (every concept
/// reaches itself).
pub open spec fn reachable(rels: Seq<(Seq<char>, RelationView)>, a: Seq<char>, b: Seq<char>) -> bool {
    exists|p: Seq<Seq<char>>| #[trigger] is_simple_path(rels, p, a, b)
}

/// Whether `y` is among the neighbours of `x`.
pub open spec fn is_neighbor(rels: Seq<(Seq<char>, RelationView)>, x: Seq<char>, y: Seq<char>) -> bool {
    exists|k: int| 0 <= k < adjacency(rels, x).len() && #[trigger] adjacency(rels, x)[k].0 == y
}

pub proof fn lemma_adjacency_linked(rels: Seq<(Seq<char>, RelationView)>, x: Seq<char>, k: int)
    requires
        0 <= k < adjacency(rels, x).len(),
    ensures
        linked(rels, x, adjacency(rels, x)[k].0),
    decreases rels.len(),
{
    let p = adjacency(rels.drop_last(), x);
    let r = rels.last().1;
    let n = rels.len() - 1;
    if k < p.len() {
        lemma_adjacency_linked(rels.drop_last(), x, k);
        let y = p[k].0;
        let i = choose|i: int|
            0 <= i < rels.drop_last().len() && ((#[trigger] rels.drop_last()[i].1.source == x && rels.drop_last()[i].1.target == y) || (
            rels.drop_last()[i].1.source == y && rels.drop_last()[i].1.target == x));
        assert(rels[i] == rels.drop_last()[i]);
        let p1 = if r.source == x { p.push((r.target, r.weight)) } else { p };
        assert(adjacency(rels, x)[k] == p[k]) by {
            assert(p1[k] == p[k]);
        }
    } else {
        assert(rels[n].1 == r);
    }
}

proof fn lemma_adjacency_prefix(rels: Seq<(Seq<char>, RelationView)>, x: Seq<char>, k: int)
    requires
        rels.len() > 0,
        0 <= k < adjacency(rels.drop_last(), x).len(),
    ensures
        k < adjacency(rels, x).len(),
        adjacency(rels, x)[k] == adjacency(rels.drop_last(), x)[k],
{
}

pub proof fn lemma_linked_is_neighbor(rels: Seq<(Seq<char>, RelationView)>, x: Seq<char>, y: Seq<char>)
    requires
        linked(rels, x, y),
    ensures
        is_neighbor(rels, x, y),
    decreases rels.len(),
{
    let i = choose|i: int|
        0 <= i < rels.len() && ((#[trigger] rels[i].1.source == x && rels[i].1.target == y) || (rels[i].1.source == y
            && rels[i].1.target == x));
    let n = rels.len() - 1;
    let p = adjacency(rels.drop_last(), x);
    if i < n {
        assert(rels.drop_last()[i] == rels[i]);
        lemma_linked_is_neighbor(rels.drop_last(), x, y);
        let k = choose|k: int| 0 <= k < p.len() && #[trigger] p[k].0 == y;
        lemma_adjacency_prefix(rels, x, k);
        assert(adjacency(rels, x)[k].0 == y);
    } else {
        let r = rels.last().1;
        let p1 = if r.source == x { p.push((r.target, r.weight)) } else { p };
        if r.source == x && r.target == y {
            assert(adjacency(rels, x)[p.len() as int].0 == y);
        } else {
            assert(adjacency(rels, x)[p1.len() as int].0 == y);
        }
    }
}

/// Whether `a` is visited before `b`.
pub open spec fn visited_before(vs: Seq<Seq<char>>, a: Seq<char>, b: Seq<char>) -> bool {
    exists|i: int, j: int| 0 <= i < j < vs.len() && #[trigger] vs[i] == a && #[trigger] vs[j] == b
}

/// The predecessor links of a search that visited `vs` (in order) from
/// `start`: every concept with a predecessor is not `start`, its predecessor
/// was visited and is linked to it, and visited earlier when the concept
/// itself was visited; every visited concept but `start` has one.
pub open spec fn prev_links(
    rels: Seq<(Seq<char>, RelationView)>,
    prev: Seq<(Seq<char>, Seq<char>)>,
    vs: Seq<Seq<char>>,
    start: Seq<char>,
) -> bool {
    &&& vs.no_duplicates()
    &&& vs.len() > 0 ==> vs[0] == start
    &&& forall|n: Seq<char>| #[trigger] lookup(prev, n) is Some ==> {
        let p = lookup(prev, n).unwrap();
        &&& n != start
        &&& vs.contains(p)
        &&& linked(rels, p, n)
        &&& (vs.contains(n) ==> visited_before(vs, p, n))
    }
    &&& forall|i: int| 0 < i < vs.len() ==> #[trigger] lookup(prev, vs[i]) is Some
}

proof fn lemma_index_before(vs: Seq<Seq<char>>, a: Seq<char>, b: Seq<char>)
    requires
        vs.no_duplicates(),
        visited_before(vs, a, b),
    ensures
        vs.index_of(a) < vs.index_of(b),
{
    let (i, j) = choose|i: int, j: int| 0 <= i < j < vs.len() && #[trigger] vs[i] == a && #[trigger] vs[j] == b;
    vs.index_of_first_ensures(a);
    assert(vs.contains(a));
    assert(vs.contains(b));
    vs.index_of_first_ensures(b);
    assert(vs.index_of(a) == i);
    assert(vs.index_of(b) == j);
}

/// The path from `start` to `end` along the predecessor links, read back
/// from `end`.
fn reconstruct_path(
    end: &str,
    prev: &Table<String>,
    Ghost(rels): Ghost<Seq<(Seq<char>, RelationView)>>,
    Ghost(vs): Ghost<Seq<Seq<char>>>,
    Ghost(start): Ghost<Seq<char>>,
) -> (r: Option<Vec<String>>)
    requires
        prev.wf(),
        prev_links(rels, prev@, vs, start),
        vs.contains(end@),
    ensures
        match r {
            Some(p) => is_simple_path(rels, views(p@), start, end@) && is_prev_chain(prev@, views(p@), end@),
            None => false,
        },
{
    proof {
        vs.index_of_first_ensures(end@);
    }
    let mut rev: Vec<String> = Vec::new();
    let mut current = to_string(end);
    rev.push(to_string(end));
    loop
        invariant
            prev.wf(),
            prev_links(rels, prev@, vs, start),
            vs.contains(current@),
            rev@.len() > 0,
            views(rev@).last() == current@,
            views(rev@)[0] == end@,
            forall|a: int| 0 <= a < rev@.len() ==> vs.contains(#[trigger] views(rev@)[a]),
            forall|a: int, b: int| 0 <= a < b < rev@.len() ==> vs.index_of(#[trigger] views(rev@)[a]) > vs.index_of(#[trigger] views(rev@)[b]),
            forall|a: int| #![trigger views(rev@)[a]] 0 <= a < rev@.len() - 1 ==> linked(rels, views(rev@)[a + 1], views(rev@)[a]),
            forall|a: int| #![trigger views(rev@)[a]] 0 <= a < rev@.len() - 1 ==> lookup(prev@, views(rev@)[a]) == Some(views(rev@)[a + 1]),
        ensures
            current@ == start,
            lookup(prev@, current@) is None,
            forall|a: int| #![trigger views(rev@)[a]] 0 <= a < rev@.len() - 1 ==> lookup(prev@, views(rev@)[a]) == Some(views(rev@)[a + 1]),
            rev@.len() > 0,
            views(rev@).last() == current@,
            views(rev@)[0] == end@,
            forall|a: int| 0 <= a < rev@.len() ==> vs.contains(#[trigger] views(rev@)[a]),
            forall|a: int, b: int| 0 <= a < b < rev@.len() ==> vs.index_of(#[trigger] views(rev@)[a]) > vs.index_of(#[trigger] views(rev@)[b]),
            forall|a: int| #![trigger views(rev@)[a]] 0 <= a < rev@.len() - 1 ==> linked(rels, views(rev@)[a + 1], views(rev@)[a]),
        decreases vs.index_of(current@),
    {
        proof {
            vs.index_of_first_ensures(current@);
        }
        match prev.get(current.as_str()) {
            Some(p) => {
                let p = p.clone();
                proof {
                    lemma_index_before(vs, p@, current@);
                    vs.index_of_first_ensures(p@);
                }
                let ghost before = rev@;
                rev.push(p.clone());
                assert(views(rev@) =~= views(before).push(p@));
                current = p;
            },
            None => {
                proof {
                    let i = vs.index_of(current@);
                    if i > 0 {
                        assert(lookup(prev@, vs[i]) is Some);
                    }
                    assert(current@ == start);
                }
                break;
            },
        }
    }
    let ghost rv = views(rev@);
    let mut path: Vec<String> = Vec::new();
    let mut k: usize = rev.len();
    while k > 0
        invariant
            k <= rev@.len(),
            rv == views(rev@),
            views(path@) == rv.subrange(k as int, rv.len() as int).reverse(),
        decreases k,
    {
        let ghost before = path@;
        path.push(rev[k - 1].clone());
        assert(views(path@) =~= views(before).push(rv[k - 1]));
        assert(rv.subrange(k - 1, rv.len() as int).reverse() =~= rv.subrange(k as int, rv.len() as int).reverse().push(rv[k - 1]));
        k = k - 1;
    }
    proof {
        let pv = views(path@);
        assert(rv.subrange(0, rv.len() as int) =~= rv);
        assert(pv =~= rv.reverse());
        assert(pv.no_duplicates()) by {
            assert forall|a: int, b: int| 0 <= a < pv.len() && 0 <= b < pv.len() && a != b implies pv[a] != pv[b] by {
                let a2 = rv.len() - 1 - a;
                let b2 = rv.len() - 1 - b;
                assert(pv[a] == rv[a2]);
                assert(pv[b] == rv[b2]);
                if a2 < b2 {
                    assert(vs.index_of(rv[a2]) > vs.index_of(rv[b2]));
                } else {
                    assert(vs.index_of(rv[b2]) > vs.index_of(rv[a2]));
                }
            }
        }
        assert forall|i: int| #![trigger pv[i]] 0 <= i < pv.len() - 1 implies linked(rels, pv[i], pv[i + 1]) by {
            let a = rv.len() - 2 - i;
            assert(pv[i] == rv[a + 1]);
            assert(pv[i + 1] == rv[a]);
            assert(linked(rels, rv[a + 1], rv[a]));
        }
        assert(pv[0] == rv.last());
        assert(pv.last() == rv[0]);
        assert forall|i: int| 0 < i < pv.len() implies lookup(prev@, #[trigger] pv[i]) == Some(pv[i - 1]) by {
            let a = rv.len() - 1 - i;
            assert(pv[i] == rv[a]);
            assert(pv[i - 1] == rv[a + 1]);
        }
    }
    Some(path)
}

/// Whether some queue entry is for `n`.
pub open spec fn queue_has(q: Seq<(Seq<char>, u64)>, n: Seq<char>) -> bool {
    exists|k: int| 0 <= k < q.len() && #[trigger] q[k].0 == n
}

/// Every neighbour of `v` was visited or has a distance.
pub open spec fn neighbors_seen(
    rels: Seq<(Seq<char>, RelationView)>,
    vs: Seq<Seq<char>>,
    dist: Seq<(Seq<char>, u64)>,
    v: Seq<char>,
) -> bool {
    forall|y: Seq<char>| #[trigger] is_neighbor(rels, v, y) ==> vs.contains(y) || lookup(dist, y) is Some
}

/// The invariant of the search from `start`: visited concepts `vs`,
/// distances `dist`, predecessors `prev`, queue `q`; the neighbours of every
/// visited concept have been seen, except the last one's when `open_last`.
pub open spec fn search_core(
    rels: Seq<(Seq<char>, RelationView)>,
    start: Seq<char>,
    vs: Seq<Seq<char>>,
    dist: Seq<(Seq<char>, u64)>,
    prev: Seq<(Seq<char>, Seq<char>)>,
    q: Seq<(Seq<char>, u64)>,
    open_last: bool,
) -> bool {
    &&& prev_links(rels, prev, vs, start)
    &&& vs.len() == 0 ==> q.len() == 1 && q[0].0 == start && prev.len() == 0
    &&& lookup(dist, start) is Some
    &&& forall|n: Seq<char>| #[trigger] queue_has(q, n) ==> n == start || lookup(prev, n) is Some
    &&& forall|n: Seq<char>| #[trigger] lookup(dist, n) is Some ==> vs.contains(n) || queue_has(q, n)
    &&& forall|n: Seq<char>| #[trigger] lookup(prev, n) is Some ==> lookup(dist, n) is Some
    &&& forall|i: int| 0 <= i < vs.len() && !(open_last && i == vs.len() - 1) ==> #[trigger] neighbors_seen(rels, vs, dist, vs[i])
}

/// The search invariant together with what is known of `end`: it is the last
/// visited concept once found, and not visited before.
pub open spec fn search_inv(
    rels: Seq<(Seq<char>, RelationView)>,
    start: Seq<char>,
    end: Seq<char>,
    vs: Seq<Seq<char>>,
    dist: Seq<(Seq<char>, u64)>,
    prev: Seq<(Seq<char>, Seq<char>)>,
    q: Seq<(Seq<char>, u64)>,
    found: bool,
) -> bool {
    &&& search_core(rels, start, vs, dist, prev, q, found)
    &&& found ==> vs.len() > 0 && vs.last() == end
    &&& !found ==> !vs.contains(end)
}

proof fn lemma_closed_path(
    rels: Seq<(Seq<char>, RelationView)>,
    vs: Seq<Seq<char>>,
    p: Seq<Seq<char>>,
    i: int,
)
    requires
        0 <= i < p.len(),
        vs.contains(p[0]),
        forall|j: int| #![trigger p[j]] 0 <= j < p.len() - 1 ==> linked(rels, p[j], p[j + 1]),
        forall|v: Seq<char>, y: Seq<char>| vs.contains(v) && #[trigger] linked(rels, v, y) ==> vs.contains(y),
    ensures
        vs.contains(p[i]),
    decreases i,
{
    if i > 0 {
        lemma_closed_path(rels, vs, p, i - 1);
        assert(linked(rels, p[i - 1], p[i]));
    }
}

/// The sort keys of queue entries: their distances.
pub open spec fn queue_keys(q: Seq<(String, u64)>) -> Seq<i128> {
    q.map_values(|e: (String, u64)| e.1 as i128)
}

/// The queue sorted by descending distance, equal ones in queue order.
fn sort_queue(pq: &Vec<(String, u64)>) -> (r: Vec<(String, u64)>)
    ensures
        exists|order: Seq<usize>|
            #[trigger] crate::sort::is_stable_desc_order(queue_keys(pq@), order)
            && pair_views(r@) == order.map_values(|i: usize| pair_views(pq@)[i as int]),
        forall|n: Seq<char>| #[trigger] queue_has(pair_views(r@), n) == queue_has(pair_views(pq@), n),
        pair_views(r@) == sorted_queue(pair_views(pq@)),
{
    let ghost keysv = queue_keys(pq@);
    let ghost pv = pair_views(pq@);
    let mut keys: Vec<i128> = Vec::new();
    let mut i: usize = 0;
    while i < pq.len()
        invariant
            i <= pq@.len(),
            keysv == queue_keys(pq@),
            keys@ == keysv.take(i as int),
        decreases pq@.len() - i,
    {
        keys.push(pq[i].1 as i128);
        assert(keys@ =~= keysv.take(i as int + 1));
        i = i + 1;
    }
    assert(keys@ =~= keysv);
    let order = crate::sort::stable_desc_order(&keys);
    let ghost f = |i: usize| pv[i as int];
    let mut out: Vec<(String, u64)> = Vec::new();
    let mut k: usize = 0;
    while k < order.len()
        invariant
            k <= order@.len(),
            crate::sort::is_stable_desc_order(keys@, order@),
            keys@.len() == pq@.len(),
            pv == pair_views(pq@),
            f == (|i: usize| pv[i as int]),
            pair_views(out@) == order@.take(k as int).map_values(f),
        decreases order@.len() - k,
    {
        let idx = order[k];
        assert(idx < pq@.len());
        let e = (pq[idx].0.clone(), pq[idx].1);
        let ghost before = out@;
        out.push(e);
        assert(pair_views(out@) =~= pair_views(before).push(f(idx)));
        assert(order@.take(k as int + 1).map_values(f) =~= order@.take(k as int).map_values(f).push(f(idx)));
        k = k + 1;
    }
    assert(order@.take(k as int) =~= order@);
    proof {
        let rv = pair_views(out@);
        assert forall|n: Seq<char>| #[trigger] queue_has(rv, n) == queue_has(pv, n) by {
            if queue_has(rv, n) {
                let a = choose|a: int| 0 <= a < rv.len() && #[trigger] rv[a].0 == n;
                assert(rv[a] == pv[order@[a] as int]);
            }
            if queue_has(pv, n) {
                let j = choose|j: int| 0 <= j < pv.len() && #[trigger] pv[j].0 == n;
                assert(crate::sort::lists_index(order@, j));
                let a = choose|a: int| 0 <= a < order@.len() && #[trigger] order@[a] == j;
                assert(rv[a] == pv[j]);
            }
        }
        let dk = distance_keys(pv);
        assert(dk =~= keysv);
        let o2 = choose|o: Seq<usize>| crate::sort::is_stable_desc_order(distance_keys(pv), o);
        assert(crate::sort::is_stable_desc_order(dk, order@));
        crate::sort::lemma_stable_desc_order_unique(dk, order@, o2);
        assert(rv =~= o2.map_values(|i: usize| pv[i as int]));
    }
    out
}

/// Relaxes the neighbours of the last visited concept `cur`: each unvisited
/// neighbour whose distance through `cur` beats its known one (or that has
/// none) gets that distance and `cur` as predecessor, and is queued.
fn relax_neighbors(
    nbrs: &Vec<(String, u64)>,
    cur: &String,
    visited: &Vec<String>,
    dist: &mut Table<u64>,
    prev: &mut Table<String>,
    pq: &mut Vec<(String, u64)>,
    Ghost(rels): Ghost<Seq<(Seq<char>, RelationView)>>,
    Ghost(start): Ghost<Seq<char>>,
)
    requires
        old(dist).wf(),
        old(prev).wf(),
        pair_views(nbrs@) == adjacency(rels, cur@),
        views(visited@).len() > 0,
        views(visited@).last() == cur@,
        search_core(rels, start, views(visited@), old(dist)@, old(prev)@, pair_views(old(pq)@), true),
    ensures
        final(dist).wf(),
        final(prev).wf(),
        search_core(rels, start, views(visited@), final(dist)@, final(prev)@, pair_views(final(pq)@), false),
        ({
            let s0 = SearchState {
                visited: views(visited@),
                dist: old(dist)@,
                prev: old(prev)@,
                queue: pair_views(old(pq)@),
                found: false,
            };
            let s1 = relax_upto(s0, cur@, adjacency(rels, cur@), adjacency(rels, cur@).len() as int);
            &&& s1.visited == views(visited@)
            &&& s1.found == false
            &&& final(dist)@ == s1.dist
            &&& final(prev)@ == s1.prev
            &&& pair_views(final(pq)@) == s1.queue
        }),
{
    let ghost vs = views(visited@);
    let ghost adjl = adjacency(rels, cur@);
    let ghost s0 = SearchState { visited: vs, dist: dist@, prev: prev@, queue: pair_views(pq@), found: false };
    let mut k: usize = 0;
    while k < nbrs.len()
        invariant
            s0.visited == vs,
            relax_upto(s0, cur@, adjl, k as int).visited == vs,
            relax_upto(s0, cur@, adjl, k as int).found == false,
            relax_upto(s0, cur@, adjl, k as int).dist == dist@,
            relax_upto(s0, cur@, adjl, k as int).prev == prev@,
            relax_upto(s0, cur@, adjl, k as int).queue == pair_views(pq@),
            k <= nbrs@.len(),
            dist.wf(),
            prev.wf(),
            vs == views(visited@),
            vs.len() > 0,
            vs.last() == cur@,
            pair_views(nbrs@) == adjl,
            adjl == adjacency(rels, cur@),
            search_core(rels, start, vs, dist@, prev@, pair_views(pq@), true),
            forall|kk: int| 0 <= kk < k ==> vs.contains(#[trigger] adjl[kk].0) || lookup(dist@, adjl[kk].0) is Some,
        decreases nbrs@.len() - k,
    {
        let n = &nbrs[k].0;
        let w = nbrs[k].1;
        assert(adjl[k as int] == (n@, w));
        if !contains_string(visited, n.as_str()) {
            proof {
                assert(vs[vs.len() - 1] == cur@);
                if vs.len() - 1 > 0 {
                    assert(lookup(prev@, vs[vs.len() - 1]) is Some);
                } else {
                    assert(cur@ == start);
                }
                lemma_adjacency_linked(rels, cur@, k as int);
                crate::table::lemma_key_index(dist@, n@);
            }
            let cd = match dist.get(cur.as_str()) {
                Some(d) => *d,
                None => 0,
            };
            let nd = cd.saturating_add(w);
            let better = match dist.get(n.as_str()) {
                Some(dn) => nd > *dn,
                None => true,
            };
            if better {
                let ghost d0 = dist@;
                let ghost p0 = prev@;
                let ghost q0 = pair_views(pq@);
                proof {
                    crate::table::lemma_upsert(d0, n@, nd);
                    crate::table::lemma_upsert(p0, n@, cur@);
                }
                dist.insert(n.clone(), nd);
                prev.insert(n.clone(), cur.clone());
                pq.push((n.clone(), nd));
                proof {
                    let q1 = pair_views(pq@);
                    assert(q1 =~= q0.push((n@, nd)));
                    assert(q1[q0.len() as int].0 == n@);
                    assert(queue_has(q1, n@));
                    assert forall|m: Seq<char>| #[trigger] queue_has(q0, m) implies queue_has(q1, m) by {
                        let j = choose|j: int| 0 <= j < q0.len() && #[trigger] q0[j].0 == m;
                        assert(q1[j].0 == m);
                    }
                    assert forall|m: Seq<char>| #[trigger] queue_has(q1, m) implies m == start || lookup(prev@, m) is Some by {
                        let j = choose|j: int| 0 <= j < q1.len() && #[trigger] q1[j].0 == m;
                        if j < q0.len() {
                            assert(q0[j].0 == m);
                            assert(queue_has(q0, m));
                        }
                    }
                    assert forall|i: int| 0 <= i < vs.len() && !(true && i == vs.len() - 1) implies #[trigger] neighbors_seen(rels, vs, dist@, vs[i]) by {
                        assert(neighbors_seen(rels, vs, d0, vs[i]));
                    }
                    assert(!vs.contains(n@));
                    assert(vs[0] == start);
                    assert(vs.contains(start));
                    assert(vs[vs.len() - 1] == cur@);
                    assert(vs.contains(cur@));
                    assert forall|m: Seq<char>| #[trigger] lookup(prev@, m) is Some implies ({
                        let p = lookup(prev@, m).unwrap();
                        &&& m != start
                        &&& vs.contains(p)
                        &&& linked(rels, p, m)
                        &&& (vs.contains(m) ==> visited_before(vs, p, m))
                    }) by {
                        if m != n@ {
                            assert(lookup(prev@, m) == lookup(p0, m));
                            assert(lookup(p0, m) is Some);
                        } else {
                            assert(lookup(prev@, m) == Some(cur@));
                        }
                    }
                    assert forall|i: int| 0 < i < vs.len() implies #[trigger] lookup(prev@, vs[i]) is Some by {
                        assert(lookup(p0, vs[i]) is Some);
                        if vs[i] != n@ {
                            assert(lookup(prev@, vs[i]) == lookup(p0, vs[i]));
                        }
                    }
                    assert forall|m: Seq<char>| #[trigger] lookup(dist@, m) is Some implies vs.contains(m) || queue_has(q1, m) by {
                        if m != n@ {
                            assert(lookup(dist@, m) == lookup(d0, m));
                            assert(lookup(d0, m) is Some);
                            if queue_has(q0, m) {
                                assert(queue_has(q1, m));
                            }
                        }
                    }
                    assert forall|m: Seq<char>| #[trigger] lookup(prev@, m) is Some implies lookup(dist@, m) is Some by {
                        if m != n@ {
                            assert(lookup(prev@, m) == lookup(p0, m));
                            assert(lookup(p0, m) is Some);
                            assert(lookup(dist@, m) == lookup(d0, m));
                        }
                    }
                    if start != n@ {
                        assert(lookup(dist@, start) == lookup(d0, start));
                    }
                    assert(prev_links(rels, prev@, vs, start));
                    assert(search_core(rels, start, vs, dist@, prev@, q1, true));
                }
            }
        }
        k = k + 1;
    }
    proof {
        assert forall|y: Seq<char>| #[trigger] is_neighbor(rels, cur@, y) implies vs.contains(y) || lookup(dist@, y) is Some by {
            let kk = choose|kk: int| 0 <= kk < adjl.len() && #[trigger] adjl[kk].0 == y;
        }
        assert(neighbors_seen(rels, vs, dist@, vs[vs.len() - 1]));
    }
}

/// The concepts a search from `start` can visit: the endpoints of the
/// relations and `start`.
pub open spec fn endpoints(rels: Seq<(Seq<char>, RelationView)>, start: Seq<char>) -> Seq<Seq<char>> {
    rels.map_values(|e: (Seq<char>, RelationView)| e.1.source) + rels.map_values(
        |e: (Seq<char>, RelationView)| e.1.target,
    ) + seq![start]
}

proof fn lemma_visited_bound(rels: Seq<(Seq<char>, RelationView)>, start: Seq<char>, vs: Seq<Seq<char>>)
    requires
        vs.no_duplicates(),
        forall|i: int| 0 <= i < vs.len() ==> endpoints(rels, start).contains(#[trigger] vs[i]),
    ensures
        vs.len() <= endpoints(rels, start).to_set().len(),
{
    let u = endpoints(rels, start);
    vs.unique_seq_to_set();
    vstd::seq_lib::seq_to_set_is_finite(u);
    assert forall|x: Seq<char>| vs.to_set().contains(x) implies u.to_set().contains(x) by {
        let i = choose|i: int| 0 <= i < vs.len() && vs[i] == x;
        assert(u.contains(vs[i]));
    }
    vstd::set_lib::lemma_len_subset(vs.to_set(), u.to_set());
}

proof fn lemma_linked_endpoint(rels: Seq<(Seq<char>, RelationView)>, start: Seq<char>, p: Seq<char>, n: Seq<char>)
    requires
        linked(rels, p, n),
    ensures
        endpoints(rels, start).contains(n),
{
    let u = endpoints(rels, start);
    let i = choose|i: int|
        0 <= i < rels.len() && ((#[trigger] rels[i].1.source == p && rels[i].1.target == n) || (rels[i].1.source == n
            && rels[i].1.target == p));
    if rels[i].1.source == n {
        assert(u[i] == n);
    } else {
        assert(u[rels.len() + i] == n);
    }
}

// ---------------------------------------------------------------------------
// The search, step by step
// ---------------------------------------------------------------------------

/// The state of the best-first search: the visited concepts in order, the
/// distances and predecessors found, the queue, and whether the target was
/// reached.
pub struct SearchState {
    pub visited: Seq<Seq<char>>,
    pub dist: Seq<(Seq<char>, u64)>,
    pub prev: Seq<(Seq<char>, Seq<char>)>,
    pub queue: Seq<(Seq<char>, u64)>,
    pub found: bool,
}

/// The state before the search from `start`: only `start`, at distance 0,
/// queued.
pub open spec fn search_start(start: Seq<char>) -> SearchState {
    SearchState {
        visited: Seq::empty(),
        dist: seq![(start, 0u64)],
        prev: Seq::empty(),
        queue: seq![(start, 0u64)],
        found: false,
    }
}

/// Whether the search is over: the target was reached or the queue is empty.
pub open spec fn search_done(s: SearchState) -> bool {
    s.found || s.queue.len() == 0
}

/// The state after looking at neighbour `n` of `cur` across a relation of
/// weight `w`: when `n` is not visited and the distance through `cur`
/// (saturating) beats its known one, or it has none, `n` gets that distance
/// and `cur` as predecessor and is queued.
pub open spec fn relax_one(s: SearchState, cur: Seq<char>, n: Seq<char>, w: u64) -> SearchState {
    if s.visited.contains(n) {
        s
    } else {
        let cd = match lookup(s.dist, cur) {
            Some(d) => d,
            None => 0u64,
        };
        let nd = crate::brain::sat_add(cd, w);
        let better = match lookup(s.dist, n) {
            Some(dn) => nd > dn,
            None => true,
        };
        if better {
            SearchState {
                dist: upsert(s.dist, n, nd),
                prev: upsert(s.prev, n, cur),
                queue: s.queue.push((n, nd)),
                ..s
            }
        } else {
            s
        }
    }
}

/// The state after looking at the first `k` neighbours in `adj`.
pub open spec fn relax_upto(s: SearchState, cur: Seq<char>, adj: Seq<(Seq<char>, u64)>, k: int) -> SearchState
    decreases k,
{
    if k <= 0 {
        s
    } else {
        relax_one(relax_upto(s, cur, adj, k - 1), cur, adj[k - 1].0, adj[k - 1].1)
    }
}

/// The sort keys of queue entries: their distances.
pub open spec fn distance_keys(q: Seq<(Seq<char>, u64)>) -> Seq<i128> {
    q.map_values(|e: (Seq<char>, u64)| e.1 as i128)
}

/// The queue sorted by descending distance, equal ones in queue order.
pub open spec fn sorted_queue(q: Seq<(Seq<char>, u64)>) -> Seq<(Seq<char>, u64)> {
    let order = choose|o: Seq<usize>| crate::sort::is_stable_desc_order(distance_keys(q), o);
    order.map_values(|i: usize| q[i as int])
}

/// One step of the search towards `end`: take the first queue entry, the
/// one of greatest distance; skip it when visited; otherwise visit it, and
/// stop if it is `end`, else look at its neighbours in order and sort the
/// queue.
pub open spec fn search_step(rels: Seq<(Seq<char>, RelationView)>, end: Seq<char>, s: SearchState) -> SearchState {
    if search_done(s) {
        s
    } else {
        let cur = s.queue[0].0;
        let t = SearchState { queue: s.queue.drop_first(), ..s };
        if t.visited.contains(cur) {
            t
        } else if cur == end {
            SearchState { visited: t.visited.push(cur), found: true, ..t }
        } else {
            let adj = adjacency(rels, cur);
            let u = relax_upto(SearchState { visited: t.visited.push(cur), ..t }, cur, adj, adj.len() as int);
            SearchState { queue: sorted_queue(u.queue), ..u }
        }
    }
}

/// The state after `k` steps of the search.
pub open spec fn search_run(rels: Seq<(Seq<char>, RelationView)>, end: Seq<char>, s: SearchState, k: nat) -> SearchState
    decreases k,
{
    if k == 0 {
        s
    } else {
        search_run(rels, end, search_step(rels, end, s), (k - 1) as nat)
    }
}

/// Whether `p` is the chain of predecessor links ending at `end`: it starts
/// at a concept without a predecessor, and each further concept's
/// predecessor is the one before it.
pub open spec fn is_prev_chain(prev: Seq<(Seq<char>, Seq<char>)>, p: Seq<Seq<char>>, end: Seq<char>) -> bool {
    &&& p.len() > 0
    &&& p.last() == end
    &&& lookup(prev, p[0]) is None
    &&& forall|i: int| 0 < i < p.len() ==> lookup(prev, #[trigger] p[i]) == Some(p[i - 1])
}

/// What `dijkstra` returns: after the search ends, nothing when `end` has no
/// predecessor and is not `start`, else the chain of predecessors ending at
/// `end`.
pub open spec fn dijkstra_result(
    rels: Seq<(Seq<char>, RelationView)>,
    start: Seq<char>,
    end: Seq<char>,
) -> Option<Seq<Seq<char>>> {
    let k = choose|k: nat| search_done(search_run(rels, end, search_start(start), k));
    let s = search_run(rels, end, search_start(start), k);
    if lookup(s.prev, end) is None && end != start {
        None
    } else {
        Some(choose|p: Seq<Seq<char>>| is_prev_chain(s.prev, p, end))
    }
}

pub proof fn lemma_search_run_step(rels: Seq<(Seq<char>, RelationView)>, end: Seq<char>, s: SearchState, k: nat)
    ensures
        search_run(rels, end, s, k + 1) == search_step(rels, end, search_run(rels, end, s, k)),
    decreases k,
{
    if k == 0 {
        assert(search_run(rels, end, search_step(rels, end, s), 0) == search_step(rels, end, s));
    } else {
        lemma_search_run_step(rels, end, search_step(rels, end, s), (k - 1) as nat);
    }
}

/// Once the search is over, further steps change nothing.
proof fn lemma_search_run_stays(rels: Seq<(Seq<char>, RelationView)>, end: Seq<char>, s: SearchState, k1: nat, k2: nat)
    requires
        k1 <= k2,
        search_done(search_run(rels, end, s, k1)),
    ensures
        search_run(rels, end, s, k2) == search_run(rels, end, s, k1),
    decreases k2 - k1,
{
    if k1 < k2 {
        lemma_search_run_stays(rels, end, s, k1, (k2 - 1) as nat);
        lemma_search_run_step(rels, end, s, (k2 - 1) as nat);
    }
}

/// Two numbers of steps after which the search is over give the same state.
pub proof fn lemma_search_run_done(rels: Seq<(Seq<char>, RelationView)>, end: Seq<char>, s: SearchState, k1: nat, k2: nat)
    requires
        search_done(search_run(rels, end, s, k1)),
        search_done(search_run(rels, end, s, k2)),
    ensures
        search_run(rels, end, s, k1) == search_run(rels, end, s, k2),
{
    if k1 <= k2 {
        lemma_search_run_stays(rels, end, s, k1, k2);
    } else {
        lemma_search_run_stays(rels, end, s, k2, k1);
    }
}

/// There is one chain of predecessor links ending at a concept.
pub proof fn lemma_prev_chain_unique(prev: Seq<(Seq<char>, Seq<char>)>, p: Seq<Seq<char>>, q: Seq<Seq<char>>, end: Seq<char>)
    requires
        is_prev_chain(prev, p, end),
        is_prev_chain(prev, q, end),
    ensures
        p == q,
{
    if p.len() < q.len() {
        lemma_prev_chain_tail(prev, p, q, end, p.len() - 1);
        assert(lookup(prev, q[q.len() - p.len()]) is Some);
    } else if q.len() < p.len() {
        lemma_prev_chain_tail(prev, p, q, end, q.len() - 1);
        assert(lookup(prev, p[p.len() - q.len()]) is Some);
    }
    assert(p.len() == q.len());
    assert forall|i: int| 0 <= i < p.len() implies #[trigger] p[i] == q[i] by {
        lemma_prev_chain_tail(prev, p, q, end, p.len() - 1 - i);
    }
    assert(p =~= q);
}

proof fn lemma_prev_chain_tail(prev: Seq<(Seq<char>, Seq<char>)>, p: Seq<Seq<char>>, q: Seq<Seq<char>>, end: Seq<char>, j: int)
    requires
        is_prev_chain(prev, p, end),
        is_prev_chain(prev, q, end),
        0 <= j < p.len(),
        j < q.len(),
    ensures
        p[p.len() - 1 - j] == q[q.len() - 1 - j],
    decreases j,
{
    if j > 0 {
        lemma_prev_chain_tail(prev, p, q, end, j - 1);
        let a = p.len() - j;
        let b = q.len() - j;
        assert(lookup(prev, p[a]) == Some(p[a - 1]));
        assert(lookup(prev, q[b]) == Some(q[b - 1]));
    }
}

/// A path from `start` to `end` found by a best-first search over the
/// relations that follows the heaviest links: the queue is kept sorted by
/// descending distance (the sum of the weights along the way, saturating at
/// `u64::MAX`) and its first entry, the one of greatest distance, is taken
/// next; the path is read back along the predecessor links.  There is a path
/// exactly when `end` is `start` or can be reached from it.
pub fn dijkstra(start: &str, end: &str, brain: &Brain) -> (r: Option<Vec<String>>)
    requires
        brain.wf(),
    ensures
        match r {
            Some(p) => is_simple_path(brain@.relations, views(p@), start@, end@),
            None => !reachable(brain@.relations, start@, end@),
        },
        match r {
            Some(p) => dijkstra_result(brain@.relations, start@, end@) == Some(views(p@)),
            None => dijkstra_result(brain@.relations, start@, end@) is None,
        },
{
    let ghost rels = brain@.relations;
    let adj = build_adjacency(brain);
    let mut dist: Table<u64> = Table::new();
    dist.insert(to_string(start), 0);
    let mut prev: Table<String> = Table::new();
    let mut visited: Vec<String> = Vec::new();
    let mut pq: Vec<(String, u64)> = Vec::new();
    pq.push((to_string(start), 0));
    let mut found = false;
    proof {
        crate::table::lemma_upsert(Seq::<(Seq<char>, u64)>::empty(), start@, 0u64);
        assert(views(visited@) =~= Seq::<Seq<char>>::empty());
        let q = pair_views(pq@);
        assert(q[0].0 == start@);
        assert forall|n: Seq<char>| #[trigger] lookup(dist@, n) is Some implies views(visited@).contains(n) || queue_has(q, n) by {
            if n != start@ {
                assert(lookup(dist@, n) == lookup(Seq::<(Seq<char>, u64)>::empty(), n));
            }
        }
        assert forall|n: Seq<char>| #[trigger] queue_has(q, n) implies n == start@ || lookup(prev@, n) is Some by {
            let k = choose|k: int| 0 <= k < q.len() && #[trigger] q[k].0 == n;
        }
    }
    let ghost bound = endpoints(rels, start@).to_set().len();
    let ghost init = search_start(start@);
    let ghost mut it: nat = 0;
    proof {
        assert(dist@ =~= init.dist);
        assert(pair_views(pq@) =~= init.queue);
        assert(prev@ =~= init.prev);
        assert(views(visited@) =~= init.visited);
    }
    while pq.len() > 0 && !found
        invariant
            init == search_start(start@),
            search_run(rels, end@, init, it).visited == views(visited@),
            search_run(rels, end@, init, it).dist == dist@,
            search_run(rels, end@, init, it).prev == prev@,
            search_run(rels, end@, init, it).queue == pair_views(pq@),
            search_run(rels, end@, init, it).found == found,
            rels == brain@.relations,
            bound == endpoints(rels, start@).to_set().len(),
            forall|i: int| 0 <= i < visited@.len() ==> endpoints(rels, start@).contains(#[trigger] views(visited@)[i]),
            visited@.len() <= bound,
            adj.wf(),
            adjacency_matches(adj@, rels),
            dist.wf(),
            prev.wf(),
            search_inv(rels, start@, end@, views(visited@), dist@, prev@, pair_views(pq@), found),
        decreases (if found { 0int } else { 1int }), bound - visited@.len(), pq@.len(),
    {
        let ghost vs0 = views(visited@);
        let ghost q0 = pair_views(pq@);
        let ghost st = search_run(rels, end@, init, it);
        proof {
            lemma_search_run_step(rels, end@, init, it);
        }
        let (cur, _weight) = pq.remove(0);
        let ghost q1 = pair_views(pq@);
        proof {
            assert(q1 =~= q0.drop_first());
            assert(q0[0].0 == cur@);
            assert(queue_has(q0, cur@));
            assert forall|n: Seq<char>| #[trigger] queue_has(q1, n) implies queue_has(q0, n) by {
                let k = choose|k: int| 0 <= k < q1.len() && #[trigger] q1[k].0 == n;
                assert(q0[k + 1].0 == n);
            }
        }
        if contains_string(&visited, cur.as_str()) {
            proof {
                assert forall|n: Seq<char>| #[trigger] lookup(dist@, n) is Some implies vs0.contains(n) || queue_has(q1, n) by {
                    if queue_has(q0, n) && !vs0.contains(n) {
                        let k = choose|k: int| 0 <= k < q0.len() && #[trigger] q0[k].0 == n;
                        if k > 0 {
                            assert(q1[k - 1].0 == n);
                        }
                    }
                }
            }
        } else {
            let ghost d0 = dist@;
            let ghost p0 = prev@;
            visited.push(cur.clone());
            let ghost vs1 = views(visited@);
            proof {
                assert(vs1 =~= vs0.push(cur@));
                if vs0.len() > 0 {
                    assert(vs0[0] == start@);
                    assert(vs0.contains(start@));
                    assert(cur@ != start@);
                    assert(lookup(p0, cur@) is Some);
                }
                assert(vs1.no_duplicates());
                if cur@ == start@ {
                    assert(endpoints(rels, start@)[endpoints(rels, start@).len() - 1] == start@);
                } else {
                    assert(lookup(p0, cur@) is Some);
                    lemma_linked_endpoint(rels, start@, lookup(p0, cur@).unwrap(), cur@);
                }
                assert forall|i: int| 0 <= i < vs1.len() implies endpoints(rels, start@).contains(#[trigger] vs1[i]) by {
                    if i < vs0.len() {
                        assert(vs1[i] == vs0[i]);
                    }
                }
                lemma_visited_bound(rels, start@, vs1);
                assert forall|n: Seq<char>| #[trigger] lookup(p0, n) is Some implies ({
                    let p = lookup(p0, n).unwrap();
                    &&& n != start@
                    &&& vs1.contains(p)
                    &&& linked(rels, p, n)
                    &&& (vs1.contains(n) ==> visited_before(vs1, p, n))
                }) by {
                    let p = lookup(p0, n).unwrap();
                    assert(vs0.contains(p));
                    let i = choose|i: int| 0 <= i < vs0.len() && vs0[i] == p;
                    assert(vs1[i] == p);
                    if vs1.contains(n) {
                        if n == cur@ {
                            assert(vs1[vs0.len() as int] == n);
                        } else {
                            let j = choose|j: int| 0 <= j < vs1.len() && vs1[j] == n;
                            assert(vs0[j] == n);
                            assert(vs0.contains(n));
                            let (a, b) = choose|a: int, b: int| 0 <= a < b < vs0.len() && #[trigger] vs0[a] == p && #[trigger] vs0[b] == n;
                            assert(vs1[a] == p && vs1[b] == n);
                        }
                    }
                }
                assert forall|i: int| 0 < i < vs1.len() implies #[trigger] lookup(p0, vs1[i]) is Some by {
                    if i < vs0.len() {
                        assert(vs1[i] == vs0[i]);
                    }
                }
                assert forall|n: Seq<char>| #[trigger] lookup(d0, n) is Some implies vs1.contains(n) || queue_has(q1, n) by {
                    if queue_has(q0, n) && !vs0.contains(n) {
                        let k = choose|k: int| 0 <= k < q0.len() && #[trigger] q0[k].0 == n;
                        if k > 0 {
                            assert(q1[k - 1].0 == n);
                        } else {
                            assert(vs1[vs0.len() as int] == n);
                        }
                    }
                    if vs0.contains(n) {
                        let j = choose|j: int| 0 <= j < vs0.len() && vs0[j] == n;
                        assert(vs1[j] == n);
                    }
                }
                assert forall|i: int| 0 <= i < vs1.len() && !(true && i == vs1.len() - 1) implies #[trigger] neighbors_seen(rels, vs1, d0, vs1[i]) by {
                    assert(vs1[i] == vs0[i]);
                    assert(neighbors_seen(rels, vs0, d0, vs0[i]));
                    assert forall|y: Seq<char>| #[trigger] is_neighbor(rels, vs1[i], y) implies vs1.contains(y) || lookup(d0, y) is Some by {
                        if vs0.contains(y) {
                            let j = choose|j: int| 0 <= j < vs0.len() && vs0[j] == y;
                            assert(vs1[j] == y);
                        }
                    }
                }
                assert(search_core(rels, start@, vs1, d0, p0, q1, true));
            }
            if str_eq(cur.as_str(), end) {
                found = true;
            } else {
                proof {
                    assert forall|j: int| 0 <= j < vs1.len() implies vs1[j] != end@ by {
                        if j < vs0.len() {
                            assert(vs1[j] == vs0[j]);
                        }
                    }
                    assert(!vs1.contains(end@));
                    assert(vs1[vs1.len() - 1] == cur@);
                    if vs1.len() - 1 > 0 {
                        assert(lookup(p0, vs1[vs1.len() - 1]) is Some);
                    }
                }
                let empty: Vec<(String, u64)> = Vec::new();
                let nbrs: &Vec<(String, u64)> = match adj.get(cur.as_str()) {
                    Some(l) => l,
                    None => &empty,
                };
                assert(lookup(adj@, cur@) == lookup(adj@, cur@));
                assert(pair_views(nbrs@) =~= adjacency(rels, cur@));
                relax_neighbors(nbrs, &cur, &visited, &mut dist, &mut prev, &mut pq, Ghost(rels), Ghost(start@));
                let ghost q2 = pair_views(pq@);
                let sorted = sort_queue(&pq);
                pq = sorted;
                proof {
                    let q3 = pair_views(pq@);
                    assert forall|n: Seq<char>| #[trigger] queue_has(q3, n) implies n == start@ || lookup(prev@, n) is Some by {
                        assert(queue_has(q2, n));
                    }
                    assert forall|n: Seq<char>| #[trigger] lookup(dist@, n) is Some implies vs1.contains(n) || queue_has(q3, n) by {
                        if queue_has(q2, n) {
                            assert(queue_has(q3, n));
                        }
                    }
                    if vs1.len() == 0 {
                        assert(false);
                    }
                }
            }
        }
        proof {
            let nx = search_step(rels, end@, st);
            assert(nx.visited == views(visited@));
            assert(nx.dist == dist@);
            assert(nx.prev == prev@);
            assert(nx.queue == pair_views(pq@));
            assert(nx.found == found);
            it = it + 1;
        }
    }
    proof {
        crate::table::lemma_key_index(prev@, end@);
        let k = choose|k: nat| search_done(search_run(rels, end@, search_start(start@), k));
        assert(search_done(search_run(rels, end@, init, it)));
        lemma_search_run_done(rels, end@, init, k, it);
    }
    if !prev.contains_key(end) && !str_eq(end, start) {
        proof {
            let vs = views(visited@);
            let q = pair_views(pq@);
            if found {
                assert(vs[vs.len() - 1] == end@);
                if vs.len() - 1 > 0 {
                    assert(lookup(prev@, vs[vs.len() - 1]) is Some);
                }
                assert(false);
            }
            assert(q.len() == 0);
            assert(vs.len() > 0);
            assert(vs[0] == start@);
            assert forall|v: Seq<char>, y: Seq<char>| vs.contains(v) && #[trigger] linked(rels, v, y) implies vs.contains(y) by {
                let i = choose|i: int| 0 <= i < vs.len() && vs[i] == v;
                assert(neighbors_seen(rels, vs, dist@, vs[i]));
                lemma_linked_is_neighbor(rels, v, y);
                if lookup(dist@, y) is Some {
                    assert(!queue_has(q, y));
                }
            }
            if reachable(rels, start@, end@) {
                let p = choose|p: Seq<Seq<char>>| #[trigger] is_simple_path(rels, p, start@, end@);
                assert(vs.contains(p[0]));
                lemma_closed_path(rels, vs, p, p.len() - 1);
                assert(vs.contains(end@));
            }
        }
        return None;
    }
    proof {
        let vs = views(visited@);
        if !found {
            let q = pair_views(pq@);
            assert(q.len() == 0);
            if lookup(prev@, end@) is Some {
                assert(lookup(dist@, end@) is Some);
                assert(!queue_has(q, end@));
            } else {
                assert(end@ == start@);
                assert(!queue_has(q, start@));
            }
            assert(false);
        }
        assert(vs[vs.len() - 1] == end@);
    }
    let r = reconstruct_path(end, &prev, Ghost(rels), Ghost(views(visited@)), Ghost(start@));
    proof {
        let k = choose|k: nat| search_done(search_run(rels, end@, search_start(start@), k));
        let sk = search_run(rels, end@, search_start(start@), k);
        assert(sk.prev == prev@);
        let p = views(r->0@);
        assert(is_prev_chain(sk.prev, p, end@));
        let c = choose|c: Seq<Seq<char>>| is_prev_chain(sk.prev, c, end@);
        lemma_prev_chain_unique(sk.prev, c, p, end@);
    }
    r
}

// ---------------------------------------------------------------------------
// Path details
// ---------------------------------------------------------------------------

/// Relations connecting `x` and `y`, either way round.
pub open spec fn link_pred(x: Seq<char>, y: Seq<char>) -> spec_fn((Seq<char>, RelationView)) -> bool {
    |e: (Seq<char>, RelationView)| (e.1.source == x && e.1.target == y) || (e.1.source == y && e.1.target == x)
}

/// The first relation (in graph order) connecting `x` and `y`.
pub open spec fn first_link(rels: Seq<(Seq<char>, RelationView)>, x: Seq<char>, y: Seq<char>) -> Option<RelationView> {
    match first_index(rels, link_pred(x, y)) {
        Some(k) => Some(rels[k].1),
        None => None,
    }
}

/// The steps `p[i] -> p[i + 1]` for `i < m` that a relation connects, with
/// the weight of the first such relation.
pub open spec fn edge_details(rels: Seq<(Seq<char>, RelationView)>, p: Seq<Seq<char>>, m: int) -> Seq<(Seq<char>, Seq<char>, u64)>
    decreases m,
{
    if m <= 0 {
        Seq::empty()
    } else {
        let d = edge_details(rels, p, m - 1);
        match first_link(rels, p[m - 1], p[m]) {
            Some(r) => d.push((p[m - 1], p[m], r.weight)),
            None => d,
        }
    }
}

/// The sum of the weights of the steps, saturating at `u64::MAX`.
pub open spec fn weight_total(ds: Seq<(Seq<char>, Seq<char>, u64)>) -> u64
    decreases ds.len(),
{
    if ds.len() == 0 {
        0
    } else {
        crate::brain::sat_add(weight_total(ds.drop_last()), ds.last().2)
    }
}

/// The views of path steps.
pub open spec fn edge_views(v: Seq<PathEdge>) -> Seq<(Seq<char>, Seq<char>, u64)> {
    v.map_values(|e: PathEdge| (e.from@, e.to@, e.weight))
}

/// What `find_best_path` promises of a result for `a` and `b`: a simple path
/// between them, its steps with their weights, and their total.
pub open spec fn valid_path_result(
    rels: Seq<(Seq<char>, RelationView)>,
    a: Seq<char>,
    b: Seq<char>,
    path: Seq<Seq<char>>,
    details: Seq<(Seq<char>, Seq<char>, u64)>,
    total: u64,
) -> bool {
    &&& is_simple_path(rels, path, a, b)
    &&& details == edge_details(rels, path, path.len() - 1)
    &&& total == weight_total(details)
}

/// The index of the first relation connecting `x` and `y`.
fn first_link_index(rs: &Table<crate::brain::Relation>, x: &str, y: &str) -> (r: Option<usize>)
    ensures
        match r {
            Some(k) => k < rs@.len() && first_index(rs@, link_pred(x@, y@)) == Some(k as int),
            None => first_index(rs@, link_pred(x@, y@)) is None,
        },
{
    let ghost p = link_pred(x@, y@);
    let mut k: usize = 0;
    while k < rs.len()
        invariant
            k <= rs@.len(),
            p == link_pred(x@, y@),
            first_index(rs@.take(k as int), p) is None,
        decreases rs@.len() - k,
    {
        assert(rs@.take(k as int + 1).drop_last() =~= rs@.take(k as int));
        assert(rs@.take(k as int + 1).last() == rs@[k as int]);
        let r = rs.value_at(k);
        if (str_eq(r.source.as_str(), x) && str_eq(r.target.as_str(), y)) || (str_eq(r.source.as_str(), y)
            && str_eq(r.target.as_str(), x)) {
            proof {
                lemma_first_index_prefix(rs@, p, k as int + 1);
            }
            return Some(k);
        }
        k = k + 1;
    }
    assert(rs@.take(k as int) =~= rs@);
    None
}

/// The steps of `path` with their weights and total (see `edge_details`).
fn path_details_of(path: &Vec<String>, brain: &Brain) -> (r: (Vec<PathEdge>, u64))
    requires
        brain.wf(),
        path@.len() >= 1,
    ensures
        edge_views(r.0@) == edge_details(brain@.relations, views(path@), path@.len() - 1),
        r.1 == weight_total(edge_views(r.0@)),
{
    let rs = brain.relations();
    let ghost pv = views(path@);
    let mut details: Vec<PathEdge> = Vec::new();
    let mut total: u64 = 0;
    let mut i: usize = 0;
    while i < path.len() - 1
        invariant
            1 <= path@.len(),
            i <= path@.len() - 1,
            rs@ == brain@.relations,
            pv == views(path@),
            edge_views(details@) == edge_details(brain@.relations, pv, i as int),
            total == weight_total(edge_views(details@)),
        decreases path@.len() - 1 - i,
    {
        assert(pv[i as int] == path@[i as int]@);
        assert(pv[i as int + 1] == path@[i as int + 1]@);
        match first_link_index(rs, path[i].as_str(), path[i + 1].as_str()) {
            Some(k) => {
                let w = rs.value_at(k).weight;
                let ghost before = details@;
                details.push(PathEdge { from: path[i].clone(), to: path[i + 1].clone(), weight: w });
                assert(edge_views(details@) =~= edge_views(before).push((pv[i as int], pv[i as int + 1], w)));
                assert(edge_views(details@).drop_last() =~= edge_views(before));
                total = crate::brain::add_sat(total, w);
            },
            None => {},
        }
        i = i + 1;
    }
    (details, total)
}

/// A path between `node_a` and `node_b` (see `dijkstra`) with its steps,
/// their weights and total; none when `node_b` cannot be reached.
pub fn find_best_path(node_a: &str, node_b: &str, brain: &Brain) -> (r: Option<PathResult>)
    requires
        brain.wf(),
    ensures
        match r {
            Some(res) => valid_path_result(brain@.relations, node_a@, node_b@, views(res.path@), edge_views(res.path_details@), res.total_weight),
            None => !reachable(brain@.relations, node_a@, node_b@),
        },
        match r {
            Some(res) => best_path_view(brain@.relations, node_a@, node_b@) == Some(result_view(res)),
            None => best_path_view(brain@.relations, node_a@, node_b@) is None,
        },
{
    let path = match dijkstra(node_a, node_b, brain) {
        Some(p) => p,
        None => return None,
    };
    let (details, total) = path_details_of(&path, brain);
    Some(PathResult { path, path_details: details, total_weight: total })
}

// ---------------------------------------------------------------------------
// Answers
// ---------------------------------------------------------------------------

pub struct AnswerView {
    pub answer: Seq<char>,
    pub confidence: u32,
    pub paths: Seq<Seq<Seq<char>>>,
    pub concepts: Seq<Seq<char>>,
    pub associations: Option<Seq<(Seq<char>, u64)>>,
    pub elapsed_ms: u128,
}

/// The views of associations.
pub open spec fn association_views(v: Seq<Association>) -> Seq<(Seq<char>, u64)> {
    v.map_values(|a: Association| (a.concept@, a.weight))
}

impl View for Answer {
    type V = AnswerView;

    open spec fn view(&self) -> AnswerView {
        AnswerView {
            answer: self.answer@,
            confidence: self.confidence,
            paths: path_views(self.paths@),
            concepts: views(self.concepts@),
            associations: match self.associations {
                Some(a) => Some(association_views(a@)),
                None => None,
            },
            elapsed_ms: self.elapsed_ms,
        }
    }
}

/// An answer with just a text.
pub open spec fn text_answer(text: Seq<char>) -> AnswerView {
    AnswerView {
        answer: text,
        confidence: 0,
        paths: Seq::empty(),
        concepts: Seq::empty(),
        associations: None,
        elapsed_ms: 0,
    }
}

fn make_text_answer(text: String) -> (r: Answer)
    ensures
        r@ == text_answer(text@),
{
    let r = Answer {
        answer: text,
        confidence: 0,
        paths: Vec::new(),
        concepts: Vec::new(),
        associations: None,
        elapsed_ms: 0,
    };
    assert(r@.paths =~= Seq::<Seq<Seq<char>>>::empty());
    assert(r@.concepts =~= Seq::<Seq<char>>::empty());
    r
}

/// A weight as a percentage (weight * 100, rounded down), capped at
/// `u32::MAX`.
pub open spec fn percent(w: u64) -> u32 {
    if w / 10_000 > u32::MAX {
        u32::MAX
    } else {
        (w / 10_000) as u32
    }
}

fn to_percent(w: u64) -> (r: u32)
    ensures
        r == percent(w),
{
    let p = w / 10_000;
    if p > u32::MAX as u64 {
        u32::MAX
    } else {
        p as u32
    }
}

/// `s` with `x` appended unless it is already there.
pub open spec fn add_distinct(s: Seq<Seq<char>>, x: Seq<char>) -> Seq<Seq<char>> {
    if s.contains(x) {
        s
    } else {
        s.push(x)
    }
}

/// The concepts (in order of first appearance) and connecting relations
/// (source, target, weight of the first relation linking each step) of the
/// first `m` steps of path `p`, added to `st`.
pub open spec fn gather_path(
    rels: Seq<(Seq<char>, RelationView)>,
    st: (Seq<Seq<char>>, Seq<(Seq<char>, Seq<char>, u64)>),
    p: Seq<Seq<char>>,
    m: int,
) -> (Seq<Seq<char>>, Seq<(Seq<char>, Seq<char>, u64)>)
    decreases m,
{
    if m <= 0 {
        st
    } else {
        let s1 = gather_path(rels, st, p, m - 1);
        let c1 = add_distinct(add_distinct(s1.0, p[m - 1]), p[m]);
        match first_link(rels, p[m - 1], p[m]) {
            Some(r) => (c1, s1.1.push((r.source, r.target, r.weight))),
            None => (c1, s1.1),
        }
    }
}

/// The concepts and relations of the first `k` paths.
pub open spec fn gather_paths(
    rels: Seq<(Seq<char>, RelationView)>,
    ps: Seq<Seq<Seq<char>>>,
    k: int,
) -> (Seq<Seq<char>>, Seq<(Seq<char>, Seq<char>, u64)>)
    decreases k,
{
    if k <= 0 {
        (Seq::empty(), Seq::empty())
    } else {
        gather_path(rels, gather_paths(rels, ps, k - 1), ps[k - 1], ps[k - 1].len() - 1)
    }
}

/// The relations touching one of `main`, told from there: the other concept
/// with the weight.
pub open spec fn related_to(rels: Seq<(Seq<char>, Seq<char>, u64)>, main: Seq<Seq<char>>) -> Seq<(Seq<char>, u64)>
    decreases rels.len(),
{
    if rels.len() == 0 {
        Seq::empty()
    } else {
        let p = related_to(rels.drop_last(), main);
        let e = rels.last();
        if main.contains(e.0) {
            p.push((e.1, e.2))
        } else if main.contains(e.1) {
            p.push((e.0, e.2))
        } else {
            p
        }
    }
}

/// The sum of the weights of relation triples.
pub open spec fn triple_weight_sum(rels: Seq<(Seq<char>, Seq<char>, u64)>) -> nat
    decreases rels.len(),
{
    if rels.len() == 0 {
        0
    } else {
        triple_weight_sum(rels.drop_last()) + rels.last().2 as nat
    }
}

/// The description of concept `name`, if any.
pub open spec fn description_of(cs: Seq<(Seq<char>, ConceptView)>, name: Seq<char>) -> Option<Seq<char>> {
    match lookup(cs, name) {
        Some(c) => c.description,
        None => None,
    }
}

/// The answer aggregated from paths: nothing found when there are none;
/// otherwise the first five concepts met along the paths, an answer about
/// the single one (with its description) or a paragraph about the first,
/// and a confidence of the mean weight of the relations met (0.5 when none).
pub open spec fn aggregate_view(
    rels: Seq<(Seq<char>, RelationView)>,
    cs: Seq<(Seq<char>, ConceptView)>,
    paths: Seq<Seq<Seq<char>>>,
    question: Seq<char>,
) -> AnswerView {
    if paths.len() == 0 {
        text_answer("我暂时没有找到与\""@ + question + "\"相关的信息。\n\n你可以使用 `./seed init \"概念名\"` 来帮助我学习新知识。"@)
    } else {
        let st = gather_paths(rels, paths, paths.len() as int);
        let main = crate::response_generator::first_n(st.0, 5);
        let answer = if main.len() == 1 {
            crate::response_generator::described_concept_text(main[0], related_to(st.1, main), description_of(cs, main[0]))
        } else {
            crate::response_generator::paragraph(st.1, main[0])
        };
        AnswerView {
            answer,
            confidence: if st.1.len() == 0 {
                50
            } else {
                percent((triple_weight_sum(st.1) / st.1.len()) as u64)
            },
            paths: crate::response_generator::first_n(paths, 5),
            concepts: main,
            associations: None,
            elapsed_ms: 0,
        }
    }
}

proof fn lemma_triple_sum_bound(rels: Seq<(Seq<char>, Seq<char>, u64)>)
    ensures
        triple_weight_sum(rels) <= rels.len() * (u64::MAX as nat),
    decreases rels.len(),
{
    if rels.len() > 0 {
        lemma_triple_sum_bound(rels.drop_last());
    }
}

proof fn lemma_mean_fits(sum: nat, n: nat)
    requires
        n > 0,
        sum <= n * (u64::MAX as nat),
    ensures
        sum / n <= u64::MAX,
{
    assert(sum / n <= u64::MAX) by (nonlinear_arith)
        requires
            n > 0,
            sum <= n * (u64::MAX as nat),
    ;
}

proof fn lemma_total_fits(k: nat, n: nat)
    requires
        k <= n,
        n <= usize::MAX,
    ensures
        k * (u64::MAX as nat) < u128::MAX,
{
    assert(k * (u64::MAX as nat) <= (usize::MAX as nat) * (u64::MAX as nat)) by (nonlinear_arith)
        requires
            k <= n,
            n <= usize::MAX,
    ;
}

/// Copies of the first `n` paths.
fn first_paths(paths: &[Vec<String>], n: usize) -> (r: Vec<Vec<String>>)
    ensures
        path_views(r@) == crate::response_generator::first_n(path_views(paths@), n as int),
{
    let m: usize = if paths.len() < n {
        paths.len()
    } else {
        n
    };
    let mut out: Vec<Vec<String>> = Vec::new();
    let mut i: usize = 0;
    while i < m
        invariant
            i <= m,
            m <= paths@.len(),
            path_views(out@) == path_views(paths@).take(i as int),
        decreases m - i,
    {
        let c = copy_strings(&paths[i]);
        let ghost before = out@;
        out.push(c);
        assert(path_views(out@) =~= path_views(before).push(views(paths@[i as int]@)));
        assert(path_views(paths@).take(i as int + 1) =~= path_views(paths@).take(i as int).push(views(paths@[i as int]@)));
        i = i + 1;
    }
    assert(path_views(paths@).take(m as int) =~= crate::response_generator::first_n(path_views(paths@), n as int));
    out
}

/// The concepts and relations met along `paths` (see `gather_paths`).
fn gather(paths: &[Vec<String>], brain: &Brain) -> (r: (Vec<String>, Vec<(String, String, u64)>))
    requires
        brain.wf(),
        forall|k: int| 0 <= k < paths@.len() ==> #[trigger] paths@[k]@.len() >= 1,
    ensures
        (views(r.0@), crate::response_generator::triple_views(r.1@)) == gather_paths(brain@.relations, path_views(paths@), paths@.len() as int),
{
    let rs = brain.relations();
    let ghost rels = brain@.relations;
    let ghost ps = path_views(paths@);
    let mut concepts: Vec<String> = Vec::new();
    let mut found: Vec<(String, String, u64)> = Vec::new();
    let mut k: usize = 0;
    assert(views(concepts@) =~= Seq::<Seq<char>>::empty());
    assert(crate::response_generator::triple_views(found@) =~= Seq::<(Seq<char>, Seq<char>, u64)>::empty());
    while k < paths.len()
        invariant
            k <= paths@.len(),
            rs@ == rels,
            ps == path_views(paths@),
            forall|j: int| 0 <= j < paths@.len() ==> #[trigger] paths@[j]@.len() >= 1,
            (views(concepts@), crate::response_generator::triple_views(found@)) == gather_paths(rels, ps, k as int),
        decreases paths@.len() - k,
    {
        let p = &paths[k];
        let ghost pv = views(p@);
        assert(ps[k as int] == pv);
        let ghost st0 = (views(concepts@), crate::response_generator::triple_views(found@));
        let mut i: usize = 0;
        while i < p.len() - 1
            invariant
                p@.len() >= 1,
                i <= p@.len() - 1,
                rs@ == rels,
                pv == views(p@),
                (views(concepts@), crate::response_generator::triple_views(found@)) == gather_path(rels, st0, pv, i as int),
            decreases p@.len() - 1 - i,
        {
            assert(pv[i as int] == p@[i as int]@);
            assert(pv[i as int + 1] == p@[i as int + 1]@);
            if !contains_string(&concepts, p[i].as_str()) {
                let ghost before = concepts@;
                concepts.push(p[i].clone());
                assert(views(concepts@) =~= views(before).push(pv[i as int]));
            }
            if !contains_string(&concepts, p[i + 1].as_str()) {
                let ghost before = concepts@;
                concepts.push(p[i + 1].clone());
                assert(views(concepts@) =~= views(before).push(pv[i as int + 1]));
            }
            match first_link_index(rs, p[i].as_str(), p[i + 1].as_str()) {
                Some(j) => {
                    let r = rs.value_at(j);
                    let ghost before = found@;
                    found.push((r.source.clone(), r.target.clone(), r.weight));
                    assert(crate::response_generator::triple_views(found@) =~= crate::response_generator::triple_views(before).push((r@.source, r@.target, r@.weight)));
                },
                None => {},
            }
            i = i + 1;
        }
        k = k + 1;
    }
    (concepts, found)
}

/// The relations of `found` touching one of `main` (see `related_to`).
fn related_of(found: &Vec<(String, String, u64)>, main: &Vec<String>) -> (r: Vec<(String, u64)>)
    ensures
        crate::response_generator::pair_views(r@) == related_to(crate::response_generator::triple_views(found@), views(main@)),
{
    let ghost fv = crate::response_generator::triple_views(found@);
    let mut out: Vec<(String, u64)> = Vec::new();
    let mut i: usize = 0;
    while i < found.len()
        invariant
            i <= found@.len(),
            fv == crate::response_generator::triple_views(found@),
            crate::response_generator::pair_views(out@) == related_to(fv.take(i as int), views(main@)),
        decreases found@.len() - i,
    {
        assert(fv.take(i as int + 1).drop_last() =~= fv.take(i as int));
        assert(fv.take(i as int + 1).last() == fv[i as int]);
        let (s, t, w) = (&found[i].0, &found[i].1, found[i].2);
        let ghost before = out@;
        if contains_string(main, s.as_str()) {
            out.push((t.clone(), w));
            assert(crate::response_generator::pair_views(out@) =~= crate::response_generator::pair_views(before).push((t@, w)));
        } else if contains_string(main, t.as_str()) {
            out.push((s.clone(), w));
            assert(crate::response_generator::pair_views(out@) =~= crate::response_generator::pair_views(before).push((s@, w)));
        }
        i = i + 1;
    }
    assert(fv.take(i as int) =~= fv);
    out
}

/// The answer aggregated from `paths` (see `aggregate_view`).
pub fn aggregate_answer(paths: &[Vec<String>], brain: &Brain, question: &str) -> (r: Answer)
    requires
        brain.wf(),
        forall|k: int| 0 <= k < paths@.len() ==> #[trigger] paths@[k]@.len() >= 1,
        paths@.len() > 0 ==> exists|k: int| 0 <= k < paths@.len() && #[trigger] paths@[k]@.len() >= 2,
    ensures
        r@ == aggregate_view(brain@.relations, brain@.concepts, path_views(paths@), question@),
{
    if paths.len() == 0 {
        let mut t = to_string("我暂时没有找到与\"");
        t.append(question);
        t.append("\"相关的信息。\n\n你可以使用 `./seed init \"概念名\"` 来帮助我学习新知识。");
        return make_text_answer(t);
    }
    let ghost rels = brain@.relations;
    let ghost ps = path_views(paths@);
    let (all_concepts, all_relations) = gather(paths, brain);
    let ghost st = gather_paths(rels, ps, ps.len() as int);
    proof {
        let k = choose|k: int| 0 <= k < paths@.len() && #[trigger] paths@[k]@.len() >= 2;
        assert(ps[k].len() == paths@[k]@.len());
        lemma_gather_nonempty(rels, ps);
    }
    let mut main: Vec<String> = Vec::new();
    let mut i: usize = 0;
    let m: usize = if all_concepts.len() < 5 {
        all_concepts.len()
    } else {
        5
    };
    while i < m
        invariant
            i <= m,
            m <= all_concepts@.len(),
            views(main@) == views(all_concepts@).take(i as int),
        decreases m - i,
    {
        let ghost before = main@;
        main.push(all_concepts[i].clone());
        assert(views(main@) =~= views(before).push(all_concepts@[i as int]@));
        assert(views(all_concepts@).take(i as int + 1) =~= views(all_concepts@).take(i as int).push(all_concepts@[i as int]@));
        i = i + 1;
    }
    assert(views(main@) =~= crate::response_generator::first_n(st.0, 5));
    assert(views(main@)[0] == main@[0]@);
    let related = related_of(&all_relations, &main);
    let answer = if main.len() == 1 {
        let desc: Option<String> = match brain.get_concept(main[0].as_str()) {
            Some(c) => c.description,
            None => None,
        };
        let d: Option<&str> = match &desc {
            Some(x) => Some(x.as_str()),
            None => None,
        };
        crate::response_generator::generate_described_concept_answer(main[0].as_str(), related.as_slice(), d)
    } else {
        crate::response_generator::generate_paragraph(all_relations.as_slice(), main[0].as_str())
    };
    let confidence = if all_relations.len() == 0 {
        50
    } else {
        let ghost tv = crate::response_generator::triple_views(all_relations@);
        let mut sum: u128 = 0;
        let mut k: usize = 0;
        while k < all_relations.len()
            invariant
                k <= all_relations@.len(),
                tv == crate::response_generator::triple_views(all_relations@),
                sum == triple_weight_sum(tv.take(k as int)),
            decreases all_relations@.len() - k,
        {
            proof {
                assert(tv.take(k as int + 1).drop_last() =~= tv.take(k as int));
                lemma_triple_sum_bound(tv.take(k as int + 1));
                lemma_total_fits((k + 1) as nat, tv.len());
            }
            sum = sum + all_relations[k].2 as u128;
            k = k + 1;
        }
        assert(tv.take(k as int) =~= tv);
        proof {
            lemma_triple_sum_bound(tv);
            lemma_mean_fits(triple_weight_sum(tv), tv.len());
        }
        to_percent((sum / all_relations.len() as u128) as u64)
    };
    let kept = first_paths(paths, 5);
    Answer {
        answer,
        confidence,
        paths: kept,
        concepts: main,
        associations: None,
        elapsed_ms: 0,
    }
}

proof fn lemma_gather_path_grows(
    rels: Seq<(Seq<char>, RelationView)>,
    st: (Seq<Seq<char>>, Seq<(Seq<char>, Seq<char>, u64)>),
    p: Seq<Seq<char>>,
    m: int,
)
    ensures
        gather_path(rels, st, p, m).0.len() >= st.0.len(),
        m >= 1 ==> gather_path(rels, st, p, m).0.len() >= 1,
    decreases m,
{
    if m > 0 {
        lemma_gather_path_grows(rels, st, p, m - 1);
    }
}

proof fn lemma_gather_grows(rels: Seq<(Seq<char>, RelationView)>, ps: Seq<Seq<Seq<char>>>, k: int, j: int)
    requires
        0 <= j < k <= ps.len(),
        ps[j].len() >= 2,
    ensures
        gather_paths(rels, ps, k).0.len() >= 1,
    decreases k,
{
    lemma_gather_path_grows(rels, gather_paths(rels, ps, k - 1), ps[k - 1], ps[k - 1].len() - 1);
    if j < k - 1 {
        lemma_gather_grows(rels, ps, k - 1, j);
    }
}

proof fn lemma_gather_nonempty(rels: Seq<(Seq<char>, RelationView)>, ps: Seq<Seq<Seq<char>>>)
    requires
        exists|k: int| 0 <= k < ps.len() && #[trigger] ps[k].len() >= 2,
    ensures
        gather_paths(rels, ps, ps.len() as int).0.len() >= 1,
{
    let j = choose|k: int| 0 <= k < ps.len() && #[trigger] ps[k].len() >= 2;
    lemma_gather_grows(rels, ps, ps.len() as int, j);
}

/// `s` without consecutive repeats (`Vec::dedup`).
pub open spec fn dedup<A>(s: Seq<A>) -> Seq<A>
    decreases s.len(),
{
    if s.len() == 0 {
        s
    } else {
        let d = dedup(s.drop_last());
        if d.len() > 0 && d.last() == s.last() {
            d
        } else {
            d.push(s.last())
        }
    }
}

/// The paths of up to two steps from each matched concept, in match order,
/// each concept once.
pub open spec fn match_paths(
    rels: Seq<(Seq<char>, RelationView)>,
    ms: Seq<MatchView>,
    k: int,
) -> (Seq<Seq<Seq<char>>>, Seq<Seq<char>>)
    decreases k,
{
    if k <= 0 {
        (Seq::empty(), Seq::empty())
    } else {
        let st = match_paths(rels, ms, k - 1);
        let name = ms[k - 1].concept_name;
        if st.1.contains(name) {
            st
        } else {
            (st.0 + paths_within(rels, name, 2), st.1.push(name))
        }
    }
}

/// The answer to a question by path aggregation: no keywords, no matched
/// concept, or the answer aggregated from the paths around the matched
/// concepts.
pub open spec fn query_view(
    rels: Seq<(Seq<char>, RelationView)>,
    cs: Seq<(Seq<char>, ConceptView)>,
    question: Seq<char>,
) -> AnswerView {
    let words = query_keywords(question);
    if words.len() == 0 {
        text_answer("请告诉我你想了解什么？"@)
    } else {
        let ms = matching_concepts(words, cs);
        if ms.len() == 0 {
            text_answer("我还不了解\""@ + words[0] + "\"相关的知识。要我学习一下吗？"@)
        } else {
            aggregate_view(rels, cs, dedup(match_paths(rels, ms, ms.len() as int).0), question)
        }
    }
}

/// Whether two vectors of strings are equal.
fn same_strings(a: &Vec<String>, b: &Vec<String>) -> (r: bool)
    ensures
        r == (views(a@) == views(b@)),
{
    if a.len() != b.len() {
        assert(views(a@).len() != views(b@).len());
        return false;
    }
    let mut i: usize = 0;
    while i < a.len()
        invariant
            i <= a@.len(),
            a@.len() == b@.len(),
            forall|k: int| 0 <= k < i ==> a@[k]@ == b@[k]@,
        decreases a@.len() - i,
    {
        if !str_eq(a[i].as_str(), b[i].as_str()) {
            assert(views(a@)[i as int] != views(b@)[i as int]);
            return false;
        }
        i = i + 1;
    }
    assert(views(a@) =~= views(b@));
    true
}

proof fn lemma_paths_within_long(rels: Seq<(Seq<char>, RelationView)>, start: Seq<char>, d: nat, k: int)
    requires
        0 <= k < paths_within(rels, start, d).len(),
    ensures
        paths_within(rels, start, d)[k].len() >= 2,
    decreases d,
{
    if d > 0 {
        let a = paths_within(rels, start, (d - 1) as nat);
        if k < a.len() {
            lemma_paths_within_long(rels, start, (d - 1) as nat, k);
        } else {
            lemma_level_lens(rels, start, d);
            assert(path_level(rels, start, d)[k - a.len()].len() == d + 1);
        }
    }
}

/// The answer to `question` by path aggregation (see `query_view`).
pub fn query(question: &str, brain: &Brain) -> (r: Answer)
    requires
        brain.wf(),
    ensures
        r@ == query_view(brain@.relations, brain@.concepts, question@),
{
    let ghost rels = brain@.relations;
    let query_words = parse_query(question);
    if query_words.len() == 0 {
        return make_text_answer(to_string("请告诉我你想了解什么？"));
    }
    let matches = find_matching_concepts(query_words.as_slice(), brain);
    let ghost ms = matches@.map_values(|m: Match| m@);
    if matches.len() == 0 {
        let mut t = to_string("我还不了解\"");
        t.append(query_words[0].as_str());
        t.append("\"相关的知识。要我学习一下吗？");
        assert(views(query_words@)[0] == query_words@[0]@);
        return make_text_answer(t);
    }
    let mut all_paths: Vec<Vec<String>> = Vec::new();
    let mut processed: Vec<String> = Vec::new();
    let mut i: usize = 0;
    assert(path_views(all_paths@) =~= Seq::<Seq<Seq<char>>>::empty());
    assert(views(processed@) =~= Seq::<Seq<char>>::empty());
    while i < matches.len()
        invariant
            brain.wf(),
            rels == brain@.relations,
            i <= matches@.len(),
            ms == matches@.map_values(|m: Match| m@),
            (path_views(all_paths@), views(processed@)) == match_paths(rels, ms, i as int),
            forall|k: int| 0 <= k < all_paths@.len() ==> #[trigger] all_paths@[k]@.len() >= 2,
        decreases matches@.len() - i,
    {
        let name = &matches[i].concept_name;
        assert(ms[i as int].concept_name == name@);
        if !contains_string(&processed, name.as_str()) {
            let found = find_paths(name.as_str(), brain, 2);
            let ghost a0 = all_paths@;
            let mut k: usize = 0;
            while k < found.len()
                invariant
                    k <= found@.len(),
                    path_views(all_paths@) == path_views(a0) + path_views(found@).take(k as int),
                    path_views(found@) == paths_within(rels, name@, 2),
                    forall|j: int| 0 <= j < all_paths@.len() ==> #[trigger] all_paths@[j]@.len() >= 2,
                decreases found@.len() - k,
            {
                let c = copy_strings(&found[k]);
                proof {
                    lemma_paths_within_long(rels, name@, 2, k as int);
                    assert(path_views(found@)[k as int] == views(found@[k as int]@));
                }
                let ghost before = all_paths@;
                all_paths.push(c);
                assert(path_views(all_paths@) =~= path_views(before).push(views(found@[k as int]@)));
                assert(path_views(found@).take(k as int + 1) =~= path_views(found@).take(k as int).push(views(found@[k as int]@)));
                k = k + 1;
            }
            assert(path_views(found@).take(k as int) =~= path_views(found@));
            let ghost p0 = processed@;
            processed.push(name.clone());
            assert(views(processed@) =~= views(p0).push(name@));
        }
        i = i + 1;
    }
    // Remove consecutive repeats.
    let ghost ap = path_views(all_paths@);
    let mut deduped: Vec<Vec<String>> = Vec::new();
    let mut k: usize = 0;
    while k < all_paths.len()
        invariant
            k <= all_paths@.len(),
            ap == path_views(all_paths@),
            path_views(deduped@) == dedup(ap.take(k as int)),
            forall|j: int| 0 <= j < all_paths@.len() ==> #[trigger] all_paths@[j]@.len() >= 2,
            forall|j: int| 0 <= j < deduped@.len() ==> #[trigger] deduped@[j]@.len() >= 2,
        decreases all_paths@.len() - k,
    {
        assert(ap.take(k as int + 1).drop_last() =~= ap.take(k as int));
        assert(ap.take(k as int + 1).last() == views(all_paths@[k as int]@));
        let repeat = deduped.len() > 0 && same_strings(&deduped[deduped.len() - 1], &all_paths[k]);
        if !repeat {
            let c = copy_strings(&all_paths[k]);
            let ghost before = deduped@;
            deduped.push(c);
            assert(path_views(deduped@) =~= path_views(before).push(views(all_paths@[k as int]@)));
        } else {
            assert(path_views(deduped@).last() == views(deduped@[deduped@.len() - 1]@));
        }
        k = k + 1;
    }
    assert(ap.take(k as int) =~= ap);
    proof {
        if deduped@.len() > 0 {
            assert(deduped@[0]@.len() >= 2);
        }
    }
    aggregate_answer(deduped.as_slice(), brain, question)
}

/// The concepts connected to `concept`, each with the weight of the
/// connecting relation, in relation order.
pub open spec fn connections(rels: Seq<(Seq<char>, RelationView)>, concept: Seq<char>) -> Seq<(Seq<char>, u64)> {
    relations_touching(rels, concept).map_values(|r: RelationView| (other_end(r, concept), r.weight))
}

/// The sort keys of (name, weight) pairs.
pub open spec fn pair_keys(v: Seq<(Seq<char>, u64)>) -> Seq<i128> {
    v.map_values(|e: (Seq<char>, u64)| e.1 as i128)
}

/// The answer about one concept from its five strongest connections.
pub open spec fn single_answer_view(concept: Seq<char>, top: Seq<(Seq<char>, u64)>, description: Option<Seq<char>>) -> AnswerView {
    AnswerView {
        answer: crate::response_generator::described_concept_text(concept, top, description),
        confidence: if top.len() > 0 {
            percent(top[0].1)
        } else {
            0
        },
        paths: Seq::empty(),
        concepts: seq![concept],
        associations: Some(top),
        elapsed_ms: 0,
    }
}

/// What is answered about a single concept: its connections sorted by
/// descending weight (ties in relation order), the first five of them.
pub open spec fn single_answer_ok(
    rels: Seq<(Seq<char>, RelationView)>,
    cs: Seq<(Seq<char>, ConceptView)>,
    concept: Seq<char>,
    v: AnswerView,
) -> bool {
    let conns = connections(rels, concept);
    exists|order: Seq<usize>|
        #[trigger] crate::sort::is_stable_desc_order(pair_keys(conns), order)
        && v == single_answer_view(
            concept,
            crate::response_generator::first_n(order.map_values(|i: usize| conns[i as int]), 5),
            description_of(cs, concept),
        )
}

/// The answer about `concept` (see `single_answer_ok`).
pub fn answer_single_concept(concept: &str, brain: &Brain) -> (r: Answer)
    requires
        brain.wf(),
    ensures
        single_answer_ok(brain@.relations, brain@.concepts, concept@, r@),
{
    let ghost rels = brain@.relations;
    let description: Option<String> = match brain.get_concept(concept) {
        Some(c) => c.description,
        None => None,
    };
    let relations = brain.get_relations_for_concept(concept);
    let ghost conns = connections(rels, concept@);
    let ghost rt = relations_touching(rels, concept@);
    let mut conn: Vec<(String, u64)> = Vec::new();
    let mut i: usize = 0;
    while i < relations.len()
        invariant
            i <= relations@.len(),
            relations@.map_values(|x: crate::brain::Relation| x@) == rt,
            conns == rt.map_values(|r: RelationView| (other_end(r, concept@), r.weight)),
            crate::response_generator::pair_views(conn@) == conns.take(i as int),
        decreases relations@.len() - i,
    {
        let r = &relations[i];
        assert(rt[i as int] == r@);
        let t = if str_eq(r.source.as_str(), concept) {
            r.target.clone()
        } else {
            r.source.clone()
        };
        let ghost before = conn@;
        conn.push((t, r.weight));
        assert(crate::response_generator::pair_views(conn@) =~= crate::response_generator::pair_views(before).push(conns[i as int]));
        assert(conns.take(i as int + 1) =~= conns.take(i as int).push(conns[i as int]));
        i = i + 1;
    }
    assert(conns.take(i as int) =~= conns);
    let mut keys: Vec<i128> = Vec::new();
    let mut k: usize = 0;
    while k < conn.len()
        invariant
            k <= conn@.len(),
            crate::response_generator::pair_views(conn@) == conns,
            keys@ == pair_keys(conns).take(k as int),
        decreases conn@.len() - k,
    {
        assert(conns[k as int].1 == conn@[k as int].1);
        keys.push(conn[k].1 as i128);
        assert(keys@ =~= pair_keys(conns).take(k as int + 1));
        k = k + 1;
    }
    assert(keys@ =~= pair_keys(conns));
    let order = crate::sort::stable_desc_order(&keys);
    let n: usize = if order.len() < 5 {
        order.len()
    } else {
        5
    };
    let ghost f = |i: usize| conns[i as int];
    let mut top: Vec<(String, u64)> = Vec::new();
    let mut t: usize = 0;
    while t < n
        invariant
            t <= n,
            n <= order@.len(),
            crate::sort::is_stable_desc_order(keys@, order@),
            keys@.len() == conns.len(),
            crate::response_generator::pair_views(conn@) == conns,
            f == (|i: usize| conns[i as int]),
            crate::response_generator::pair_views(top@) == order@.take(t as int).map_values(f),
        decreases n - t,
    {
        let idx = order[t];
        assert(idx < conns.len());
        let e = (conn[idx].0.clone(), conn[idx].1);
        let ghost before = top@;
        top.push(e);
        assert(crate::response_generator::pair_views(top@) =~= crate::response_generator::pair_views(before).push(f(idx)));
        assert(order@.take(t as int + 1).map_values(f) =~= order@.take(t as int).map_values(f).push(f(idx)));
        t = t + 1;
    }
    let ghost topv = crate::response_generator::pair_views(top@);
    assert(topv =~= crate::response_generator::first_n(order@.map_values(f), 5));
    let d: Option<&str> = match &description {
        Some(x) => Some(x.as_str()),
        None => None,
    };
    let answer = crate::response_generator::generate_described_concept_answer(concept, top.as_slice(), d);
    let confidence = if top.len() > 0 {
        to_percent(top[0].1)
    } else {
        0
    };
    let mut assoc: Vec<Association> = Vec::new();
    let mut a: usize = 0;
    while a < top.len()
        invariant
            a <= top@.len(),
            topv == crate::response_generator::pair_views(top@),
            association_views(assoc@) == topv.take(a as int),
        decreases top@.len() - a,
    {
        let ghost before = assoc@;
        assoc.push(Association { concept: top[a].0.clone(), weight: top[a].1 });
        assert(association_views(assoc@) =~= association_views(before).push(topv[a as int]));
        assert(topv.take(a as int + 1) =~= topv.take(a as int).push(topv[a as int]));
        a = a + 1;
    }
    assert(topv.take(a as int) =~= topv);
    let mut concepts: Vec<String> = Vec::new();
    concepts.push(to_string(concept));
    let r = Answer {
        answer,
        confidence,
        paths: Vec::new(),
        concepts,
        associations: Some(assoc),
        elapsed_ms: 0,
    };
    proof {
        assert(r@.paths =~= Seq::<Seq<Seq<char>>>::empty());
        assert(r@.concepts =~= seq![concept@]);
        assert(r@ == single_answer_view(concept@, topv, description_of(brain@.concepts, concept@)));
        assert(crate::sort::is_stable_desc_order(pair_keys(conns), order@));
    }
    r
}

/// The pairs `(i, j)` with `i < j < n` and `i < i_end`, in order.
pub open spec fn index_pairs(n: int, i_end: int) -> Seq<(int, int)>
    decreases i_end,
{
    if i_end <= 0 {
        Seq::empty()
    } else {
        let i = i_end - 1;
        index_pairs(n, i_end - 1) + Seq::new(if n - i - 1 > 0 { (n - i - 1) as nat } else { 0nat }, |t: int| (i, i + 1 + t))
    }
}

/// A path result: path, steps with weights, total weight.
pub type PathResultView = (Seq<Seq<char>>, Seq<(Seq<char>, Seq<char>, u64)>, u64);

/// What `find_best_path` gives for `a` and `b`: the path `dijkstra` finds,
/// its steps and their total weight.
pub open spec fn best_path_view(rels: Seq<(Seq<char>, RelationView)>, a: Seq<char>, b: Seq<char>) -> Option<PathResultView> {
    match dijkstra_result(rels, a, b) {
        Some(p) => Some((p, edge_details(rels, p, p.len() - 1), weight_total(edge_details(rels, p, p.len() - 1)))),
        None => None,
    }
}

/// Whether `o` is the path result for `a` and `b`: the one `find_best_path`
/// gives, a valid one when `b` can be reached from `a`, none otherwise.
pub open spec fn pair_result(rels: Seq<(Seq<char>, RelationView)>, a: Seq<char>, b: Seq<char>, o: Option<PathResultView>) -> bool {
    &&& o == best_path_view(rels, a, b)
    &&& match o {
        Some(v) => valid_path_result(rels, a, b, v.0, v.1, v.2),
        None => !reachable(rels, a, b),
    }
}

/// Whether `res` holds, for each pair of entities in `pairs`, its path
/// result (see `pair_result`).
pub open spec fn pair_results_ok(
    rels: Seq<(Seq<char>, RelationView)>,
    ents: Seq<Seq<char>>,
    pairs: Seq<(int, int)>,
    res: Seq<Option<PathResultView>>,
) -> bool {
    &&& res.len() == pairs.len()
    &&& forall|k: int| 0 <= k < res.len() ==> pair_result(rels, ents[pairs[k].0], ents[pairs[k].1], #[trigger] res[k])
}

/// The results that are present, in order.
pub open spec fn somes<A>(res: Seq<Option<A>>) -> Seq<A>
    decreases res.len(),
{
    if res.len() == 0 {
        Seq::empty()
    } else {
        match res.last() {
            Some(v) => somes(res.drop_last()).push(v),
            None => somes(res.drop_last()),
        }
    }
}

/// The sort keys of path results by total weight.
pub open spec fn total_keys(found: Seq<PathResultView>) -> Seq<i128> {
    found.map_values(|v: PathResultView| v.2 as i128)
}

/// A total weight per step as a percentage, rounded down, capped.
pub open spec fn percent_per_step(total: u64, steps: nat) -> u32 {
    if (total as nat / 10_000) / steps > u32::MAX {
        u32::MAX
    } else {
        ((total as nat / 10_000) / steps) as u32
    }
}

/// The note that no link between the first two entities is known.
pub open spec fn no_link_text(ents: Seq<Seq<char>>) -> Seq<char> {
    "\""@ + ents[0] + "\"和\""@ + (if ents.len() > 1 { ents[1] } else { "其他概念"@ })
        + "\"是两个不同的概念。目前我还没有发现它们之间的直接关联。\n\n如果你能告诉我更多关于它们的关系，我可以更好地理解。"@
}

/// The answer about several entities from the path results found, sorted
/// by `order`: the best path told by `multi_concept_text`, its weight per
/// concept as confidence, the first three paths.
pub open spec fn multi_view(ents: Seq<Seq<char>>, found: Seq<PathResultView>, order: Seq<usize>) -> AnswerView {
    if found.len() == 0 {
        AnswerView {
            answer: no_link_text(ents),
            confidence: 0,
            paths: Seq::empty(),
            concepts: ents,
            associations: None,
            elapsed_ms: 0,
        }
    } else {
        let best = found[order[0] as int];
        AnswerView {
            answer: crate::response_generator::multi_concept_text(ents, best.0, best.1),
            confidence: if best.0.len() > 0 { percent_per_step(best.2, best.0.len()) } else { 0 },
            paths: crate::response_generator::first_n(order.map_values(|i: usize| found[i as int].0), 3),
            concepts: ents,
            associations: None,
            elapsed_ms: 0,
        }
    }
}

/// What is answered about several entities: a best path for each pair that
/// has one (pairs in order), the results sorted by descending total weight
/// (ties in pair order), and `multi_view` of them.
pub open spec fn multi_answer_ok(rels: Seq<(Seq<char>, RelationView)>, ents: Seq<Seq<char>>, v: AnswerView) -> bool {
    exists|res: Seq<Option<PathResultView>>, order: Seq<usize>|
        #[trigger] pair_results_ok(rels, ents, index_pairs(ents.len() as int, ents.len() as int), res)
        && #[trigger] crate::sort::is_stable_desc_order(total_keys(somes(res)), order)
        && v == multi_view(ents, somes(res), order)
}

proof fn lemma_linked_first_link(rels: Seq<(Seq<char>, RelationView)>, x: Seq<char>, y: Seq<char>)
    requires
        linked(rels, x, y),
    ensures
        first_link(rels, x, y) is Some,
    decreases rels.len(),
{
    let i = choose|i: int|
        0 <= i < rels.len() && ((#[trigger] rels[i].1.source == x && rels[i].1.target == y) || (rels[i].1.source == y
            && rels[i].1.target == x));
    if i < rels.len() - 1 {
        assert(rels.drop_last()[i] == rels[i]);
        lemma_linked_first_link(rels.drop_last(), x, y);
    }
}

proof fn lemma_index_pairs_row(n: int, i: int)
    requires
        0 <= i < n,
    ensures
        index_pairs(n, i + 1).len() == index_pairs(n, i).len() + (n - i - 1),
        forall|t: int| 0 <= t < n - i - 1 ==> #[trigger] index_pairs(n, i + 1)[index_pairs(n, i).len() + t] == (i, i + 1 + t),
        forall|t: int| 0 <= t < index_pairs(n, i).len() ==> #[trigger] index_pairs(n, i + 1)[t] == index_pairs(n, i)[t],
{
}

/// The view of a path result.
pub open spec fn result_view(p: PathResult) -> PathResultView {
    (views(p.path@), edge_views(p.path_details@), p.total_weight)
}

/// Whether a present path result of exactly one step has its step.
pub open spec fn has_steps_if_direct(o: Option<PathResultView>) -> bool {
    match o {
        Some(v) => v.0.len() == 2 ==> v.1.len() >= 1,
        None => true,
    }
}

proof fn lemma_somes_keep(res: Seq<Option<PathResultView>>, k: int)
    requires
        forall|j: int| 0 <= j < res.len() ==> #[trigger] has_steps_if_direct(res[j]),
        0 <= k < somes(res).len(),
    ensures
        has_steps_if_direct(Some(somes(res)[k])),
    decreases res.len(),
{
    let p = somes(res.drop_last());
    assert(has_steps_if_direct(res[res.len() - 1]));
    if k < p.len() {
        assert forall|j: int| 0 <= j < res.drop_last().len() implies #[trigger] has_steps_if_direct(res.drop_last()[j]) by {
            assert(res.drop_last()[j] == res[j]);
        }
        lemma_somes_keep(res.drop_last(), k);
    }
}

/// A copy of a slice of strings.
fn copy_slice(v: &[String]) -> (r: Vec<String>)
    ensures
        views(r@) == views(v@),
{
    let mut out: Vec<String> = Vec::new();
    let mut i: usize = 0;
    while i < v.len()
        invariant
            i <= v@.len(),
            views(out@) == views(v@).take(i as int),
        decreases v@.len() - i,
    {
        let ghost before = out@;
        let c = v[i].clone();
        out.push(c);
        assert(views(out@) =~= views(before).push(v@[i as int]@));
        assert(views(v@).take(i as int + 1) =~= views(v@).take(i as int).push(v@[i as int]@));
        i = i + 1;
    }
    assert(views(v@).take(i as int) =~= views(v@));
    out
}

/// The answer about several entities (see `multi_answer_ok`).
pub fn answer_multi_concept(entities: &[String], brain: &Brain) -> (r: Answer)
    requires
        brain.wf(),
        entities@.len() >= 1,
    ensures
        multi_answer_ok(brain@.relations, views(entities@), r@),
{
    let ghost rels = brain@.relations;
    let ghost ents = views(entities@);
    let n = entities.len();
    let mut all_paths: Vec<PathResult> = Vec::new();
    let ghost mut res: Seq<Option<PathResultView>> = Seq::empty();
    let mut i: usize = 0;
    while i < n
        invariant
            brain.wf(),
            rels == brain@.relations,
            ents == views(entities@),
            n == ents.len(),
            i <= n,
                        pair_results_ok(rels, ents, index_pairs(n as int, i as int), res),
            all_paths@.map_values(|p: PathResult| result_view(p)) == somes(res),
        decreases n - i,
    {
        let ghost res_i = res;
        proof {
            lemma_index_pairs_row(n as int, i as int);
        }
        let mut j: usize = i + 1;
        while j < n
            invariant
                brain.wf(),
                rels == brain@.relations,
                ents == views(entities@),
                n == ents.len(),
                i < j <= n,
                                res.len() == index_pairs(n as int, i as int).len() + (j - i - 1),
                forall|k: int| 0 <= k < res_i.len() ==> #[trigger] res[k] == res_i[k],
                res_i.len() == index_pairs(n as int, i as int).len(),
                pair_results_ok(rels, ents, index_pairs(n as int, i as int), res_i),
                forall|k: int| res_i.len() <= k < res.len() ==> pair_result(rels, ents[i as int], ents[i + 1 + (k - res_i.len())], #[trigger] res[k]),
                all_paths@.map_values(|p: PathResult| result_view(p)) == somes(res),
            decreases n - j,
        {
            assert(ents[i as int] == entities@[i as int]@);
            assert(ents[j as int] == entities@[j as int]@);
            let ghost before = res;
            match find_best_path(entities[i].as_str(), entities[j].as_str(), brain) {
                Some(pr) => {
                    let ghost v = result_view(pr);
                    let ghost a0 = all_paths@;
                    all_paths.push(pr);
                    proof {
                        res = res.push(Some(v));
                        assert(res.drop_last() =~= before);
                        assert(all_paths@.map_values(|p: PathResult| result_view(p)) =~= a0.map_values(|p: PathResult| result_view(p)).push(v));
                    }
                },
                None => {
                    proof {
                        res = res.push(None);
                        assert(res.drop_last() =~= before);
                    }
                },
            }
            proof {
                assert forall|k: int| res_i.len() <= k < res.len() implies pair_result(rels, ents[i as int], ents[i + 1 + (k - res_i.len())], #[trigger] res[k]) by {
                    if k < res.len() - 1 {
                        assert(res[k] == before[k]);
                    } else {
                        assert(k - res_i.len() == j - i - 1);
                    }
                }
            }
            j = j + 1;
        }
        proof {
            lemma_index_pairs_row(n as int, i as int);
            let pairs = index_pairs(n as int, i as int + 1);
            assert(pairs.len() == res.len());
            assert forall|k: int| 0 <= k < res.len() implies pair_result(rels, ents[pairs[k].0], ents[pairs[k].1], #[trigger] res[k]) by {
                if k < res_i.len() {
                    assert(res[k] == res_i[k]);
                    assert(pairs[k] == index_pairs(n as int, i as int)[k]);
                } else {
                    let t = k - res_i.len();
                    assert(index_pairs(n as int, i as int + 1)[index_pairs(n as int, i as int).len() + t] == (i as int, i as int + 1 + t));
                    assert(pairs[k] == (i as int, i as int + 1 + t));
                }
            }
        }
        i = i + 1;
    }
    let ghost found = somes(res);
    let mut keys: Vec<i128> = Vec::new();
    let mut k: usize = 0;
    while k < all_paths.len()
        invariant
            k <= all_paths@.len(),
            all_paths@.map_values(|p: PathResult| result_view(p)) == found,
            keys@ == total_keys(found).take(k as int),
        decreases all_paths@.len() - k,
    {
        assert(found[k as int] == result_view(all_paths@[k as int]));
        assert(found[k as int].2 == all_paths@[k as int].total_weight);
        keys.push(all_paths[k].total_weight as i128);
        assert(keys@ =~= total_keys(found).take(k as int + 1));
        k = k + 1;
    }
    assert(keys@ =~= total_keys(found));
    let order = crate::sort::stable_desc_order(&keys);
    if all_paths.len() == 0 {
        let mut t = to_string("\"");
        t.append(entities[0].as_str());
        t.append("\"和\"");
        if n > 1 {
            t.append(entities[1].as_str());
        } else {
            t.append("其他概念");
        }
        t.append("\"是两个不同的概念。目前我还没有发现它们之间的直接关联。\n\n如果你能告诉我更多关于它们的关系，我可以更好地理解。");
        let concepts = copy_slice(entities);
        let r = Answer {
            answer: t,
            confidence: 0,
            paths: Vec::new(),
            concepts,
            associations: None,
            elapsed_ms: 0,
        };
        proof {
            assert(ents[0] == entities@[0]@);
            if n > 1 {
                assert(ents[1] == entities@[1]@);
            }
            assert(r@.paths =~= Seq::<Seq<Seq<char>>>::empty());
            assert(r@ == multi_view(ents, found, order@));
        }
        return r;
    }
    let best_index = order[0];
    assert(best_index < all_paths@.len());
    let best = &all_paths[best_index];
    let ghost bv = found[best_index as int];
    assert(bv == result_view(*best));
    let mut details: Vec<(String, String, u64)> = Vec::new();
    let mut d: usize = 0;
    while d < best.path_details.len()
        invariant
            d <= best.path_details@.len(),
            crate::response_generator::triple_views(details@) == edge_views(best.path_details@).take(d as int),
        decreases best.path_details@.len() - d,
    {
        let e = &best.path_details[d];
        let ghost before = details@;
        details.push((e.from.clone(), e.to.clone(), e.weight));
        assert(crate::response_generator::triple_views(details@) =~= crate::response_generator::triple_views(before).push((e.from@, e.to@, e.weight)));
        assert(edge_views(best.path_details@).take(d as int + 1) =~= edge_views(best.path_details@).take(d as int).push((e.from@, e.to@, e.weight)));
        d = d + 1;
    }
    assert(edge_views(best.path_details@).take(d as int) =~= edge_views(best.path_details@));
    proof {
        assert forall|k: int| 0 <= k < res.len() implies #[trigger] has_steps_if_direct(res[k]) by {
            let pairs = index_pairs(n as int, n as int);
            match res[k] {
                Some(v) => {
                    assert(valid_path_result(rels, ents[pairs[k].0], ents[pairs[k].1], v.0, v.1, v.2));
                    if v.0.len() == 2 {
                        assert(linked(rels, v.0[0], v.0[1]));
                        lemma_linked_first_link(rels, v.0[0], v.0[1]);
                        assert(edge_details(rels, v.0, 0) =~= Seq::<(Seq<char>, Seq<char>, u64)>::empty());
                    }
                },
                None => {},
            }
        }
        lemma_somes_keep(res, best_index as int);
        assert(has_steps_if_direct(Some(bv)));
    }
    let answer = crate::response_generator::generate_multi_concept_answer(entities, best.path.as_slice(), details.as_slice());
    let confidence = if best.path.len() > 0 {
        let p = (best.total_weight / 10_000) / (best.path.len() as u64);
        if p > u32::MAX as u64 {
            u32::MAX
        } else {
            p as u32
        }
    } else {
        0
    };
    let m: usize = if order.len() < 3 {
        order.len()
    } else {
        3
    };
    let ghost g = |i: usize| found[i as int].0;
    let mut paths: Vec<Vec<String>> = Vec::new();
    let mut t: usize = 0;
    while t < m
        invariant
            t <= m,
            m <= order@.len(),
            crate::sort::is_stable_desc_order(keys@, order@),
            keys@.len() == all_paths@.len(),
            all_paths@.map_values(|p: PathResult| result_view(p)) == found,
            g == (|i: usize| found[i as int].0),
            path_views(paths@) == order@.take(t as int).map_values(g),
        decreases m - t,
    {
        let idx = order[t];
        assert(idx < all_paths@.len());
        assert(found[idx as int] == result_view(all_paths@[idx as int]));
        assert(found[idx as int].0 == views(all_paths@[idx as int].path@));
        let c = copy_strings(&all_paths[idx].path);
        let ghost before = paths@;
        paths.push(c);
        assert(path_views(paths@) =~= path_views(before).push(g(idx)));
        assert(order@.take(t as int + 1).map_values(g) =~= order@.take(t as int).map_values(g).push(g(idx)));
        t = t + 1;
    }
    let concepts = copy_slice(entities);
    let r = Answer {
        answer,
        confidence,
        paths,
        concepts,
        associations: None,
        elapsed_ms: 0,
    };
    proof {
        assert(path_views(r.paths@) =~= crate::response_generator::first_n(order@.map_values(g), 3));
        assert(r@ == multi_view(ents, found, order@));
    }
    r
}

/// The matched concept names, each once, in order of first match.
pub open spec fn distinct_names(ms: Seq<MatchView>) -> Seq<Seq<char>>
    decreases ms.len(),
{
    if ms.len() == 0 {
        Seq::empty()
    } else {
        add_distinct(distinct_names(ms.drop_last()), ms.last().concept_name)
    }
}

/// The note that a question was not understood.
pub open spec fn not_understood_text(question: Seq<char>) -> Seq<char> {
    "我暂时不太理解\""@ + question
        + "\"的含义。\n\n你可以试着问我一些其他问题，或者使用以下命令帮助我学习：\n• ./seed init \"概念名\" - 从网络学习\n• ./seed learn-file <文件> - 从文件学习"@
}

/// What `ask` answers: a note when no concept matches; about the concept
/// when one concept matches; about the relations between the concepts when
/// several match.
pub open spec fn ask_ok(
    rels: Seq<(Seq<char>, RelationView)>,
    cs: Seq<(Seq<char>, ConceptView)>,
    question: Seq<char>,
    v: AnswerView,
) -> bool {
    let ms = matching_concepts(query_keywords(question), cs);
    if ms.len() == 0 {
        v == text_answer(not_understood_text(question))
    } else {
        let ents = distinct_names(ms);
        if ents.len() == 1 {
            single_answer_ok(rels, cs, ents[0], v)
        } else {
            multi_answer_ok(rels, ents, v)
        }
    }
}

proof fn lemma_distinct_names_nonempty(ms: Seq<MatchView>)
    requires
        ms.len() > 0,
    ensures
        distinct_names(ms).len() >= 1,
    decreases ms.len(),
{
    if ms.len() > 1 {
        lemma_distinct_names_nonempty(ms.drop_last());
    }
}

/// The answer to `question` about the concepts it names (see `ask_ok`).
pub fn ask(question: &str, brain: &Brain) -> (r: Answer)
    requires
        brain.wf(),
    ensures
        ask_ok(brain@.relations, brain@.concepts, question@, r@),
{
    let query_words = parse_query(question);
    let matches = find_matching_concepts(query_words.as_slice(), brain);
    let ghost ms = matches@.map_values(|m: Match| m@);
    if matches.len() == 0 {
        let mut t = to_string("我暂时不太理解\"");
        t.append(question);
        t.append("\"的含义。\n\n你可以试着问我一些其他问题，或者使用以下命令帮助我学习：\n• ./seed init \"概念名\" - 从网络学习\n• ./seed learn-file <文件> - 从文件学习");
        return make_text_answer(t);
    }
    let mut entities: Vec<String> = Vec::new();
    let mut i: usize = 0;
    while i < matches.len()
        invariant
            i <= matches@.len(),
            ms == matches@.map_values(|m: Match| m@),
            views(entities@) == distinct_names(ms.take(i as int)),
        decreases matches@.len() - i,
    {
        assert(ms.take(i as int + 1).drop_last() =~= ms.take(i as int));
        assert(ms.take(i as int + 1).last() == matches@[i as int]@);
        let name = &matches[i].concept_name;
        if !contains_string(&entities, name.as_str()) {
            let ghost before = entities@;
            entities.push(name.clone());
            assert(views(entities@) =~= views(before).push(name@));
        }
        i = i + 1;
    }
    assert(ms.take(i as int) =~= ms);
    proof {
        lemma_distinct_names_nonempty(ms);
    }
    if entities.len() == 1 {
        assert(views(entities@)[0] == entities@[0]@);
        return answer_single_concept(entities[0].as_str(), brain);
    }
    answer_multi_concept(entities.as_slice(), brain)
}

} // verus!
