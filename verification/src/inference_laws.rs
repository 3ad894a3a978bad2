//! Properties of question answering.

use vstd::prelude::*;
use crate::brain::{RelationView, ConceptView, UNIT};
use crate::brain::adjacency;
use crate::inference::{
    extend_level, extensions, is_simple_path, linked, path_level, paths_within,
    aggregate_view, first_link, gather_path, gather_paths, link_pred, percent,
    query_view, triple_weight_sum, query_keywords, simple_tokens, matching_concepts,
    MatchState, MatchView, phrase_step, phrase_row, phrase_lengths, word_step, word_row, phrase_at,
    phrase_pred, fuzzy_pred, range_free, mark_range, first_index, lemma_first_index_bound,
    max_phrase_len, phrase_length_count, ask_ok, distinct_names, add_distinct, AnswerView, connections,
    pair_keys, single_answer_view, description_of, pair_results_ok, index_pairs, total_keys, somes, multi_view,
    PathResultView, pair_result,
};
use crate::table::{key_index, lemma_key_index, lookup};
use crate::text::lowercase;
use crate::nlp::{jieba_segments, keeps_token, stop_word_set};
use crate::nlp_laws::{law_tokens_distinct_and_good, lemma_filter_no_duplicates};

verus! {

/// Whether every relation weighs at most 1.0.
pub open spec fn weights_at_most_one(rels: Seq<(Seq<char>, RelationView)>) -> bool {
    forall|i: int| 0 <= i < rels.len() ==> #[trigger] rels[i].1.weight <= UNIT
}

/// Whether every relation triple weighs at most 1.0.
pub open spec fn triples_at_most_one(ts: Seq<(Seq<char>, Seq<char>, u64)>) -> bool {
    forall|i: int| 0 <= i < ts.len() ==> #[trigger] ts[i].2 <= UNIT
}

proof fn lemma_first_link_weight(rels: Seq<(Seq<char>, RelationView)>, x: Seq<char>, y: Seq<char>)
    requires
        weights_at_most_one(rels),
    ensures
        first_link(rels, x, y) matches Some(r) ==> r.weight <= UNIT,
{
    crate::inference::lemma_first_index_bound(rels, link_pred(x, y));
}

proof fn lemma_gather_path_weights(
    rels: Seq<(Seq<char>, RelationView)>,
    st: (Seq<Seq<char>>, Seq<(Seq<char>, Seq<char>, u64)>),
    p: Seq<Seq<char>>,
    m: int,
)
    requires
        weights_at_most_one(rels),
        triples_at_most_one(st.1),
    ensures
        triples_at_most_one(gather_path(rels, st, p, m).1),
    decreases m,
{
    if m > 0 {
        lemma_gather_path_weights(rels, st, p, m - 1);
        let s1 = gather_path(rels, st, p, m - 1);
        lemma_first_link_weight(rels, p[m - 1], p[m]);
        match first_link(rels, p[m - 1], p[m]) {
            Some(r) => {
                let t = s1.1.push((r.source, r.target, r.weight));
                assert forall|i: int| 0 <= i < t.len() implies #[trigger] t[i].2 <= UNIT by {
                    if i < s1.1.len() {
                        assert(t[i] == s1.1[i]);
                    }
                }
            },
            None => {},
        }
    }
}

proof fn lemma_gather_paths_weights(rels: Seq<(Seq<char>, RelationView)>, ps: Seq<Seq<Seq<char>>>, k: int)
    requires
        weights_at_most_one(rels),
    ensures
        triples_at_most_one(gather_paths(rels, ps, k).1),
    decreases k,
{
    if k > 0 {
        lemma_gather_paths_weights(rels, ps, k - 1);
        lemma_gather_path_weights(rels, gather_paths(rels, ps, k - 1), ps[k - 1], ps[k - 1].len() - 1);
    }
}

proof fn lemma_triple_sum_at_most(ts: Seq<(Seq<char>, Seq<char>, u64)>)
    requires
        triples_at_most_one(ts),
    ensures
        triple_weight_sum(ts) <= ts.len() * (UNIT as nat),
    decreases ts.len(),
{
    if ts.len() > 0 {
        let d = ts.drop_last();
        assert(triples_at_most_one(d)) by {
            assert forall|i: int| 0 <= i < d.len() implies #[trigger] d[i].2 <= UNIT by {
                assert(d[i] == ts[i]);
            }
        }
        lemma_triple_sum_at_most(d);
        assert(ts.last().2 == ts[ts.len() - 1].2);
    }
}

/// The confidence of an aggregated answer is a percentage: at most 100 when
/// no relation weighs more than 1.0.
pub proof fn law_aggregate_confidence_at_most_100(
    rels: Seq<(Seq<char>, RelationView)>,
    cs: Seq<(Seq<char>, ConceptView)>,
    paths: Seq<Seq<Seq<char>>>,
    question: Seq<char>,
)
    requires
        weights_at_most_one(rels),
    ensures
        aggregate_view(rels, cs, paths, question).confidence <= 100,
{
    if paths.len() > 0 {
        let st = gather_paths(rels, paths, paths.len() as int);
        lemma_gather_paths_weights(rels, paths, paths.len() as int);
        if st.1.len() > 0 {
            lemma_triple_sum_at_most(st.1);
            let s = triple_weight_sum(st.1);
            let n = st.1.len();
            assert(s / n <= UNIT) by (nonlinear_arith)
                requires
                    n > 0,
                    s <= n * 1_000_000,
                    UNIT == 1_000_000,
            ;
            assert(percent((s / n) as u64) <= 100);
        }
    }
}

/// The confidence `query` answers with is a percentage: at most 100 when no
/// relation weighs more than 1.0.
pub proof fn law_query_confidence_at_most_100(
    rels: Seq<(Seq<char>, RelationView)>,
    cs: Seq<(Seq<char>, ConceptView)>,
    question: Seq<char>,
)
    requires
        weights_at_most_one(rels),
    ensures
        query_view(rels, cs, question).confidence <= 100,
{
    let words = crate::inference::query_keywords(question);
    if words.len() > 0 {
        let ms = crate::inference::matching_concepts(words, cs);
        if ms.len() > 0 {
            law_aggregate_confidence_at_most_100(
                rels,
                cs,
                crate::inference::dedup(crate::inference::match_paths(rels, ms, ms.len() as int).0),
                question,
            );
        }
    }
}

/// The keywords of a question are its tokens without stop words: each at
/// least two bytes long, none a stop word, and none twice.
pub proof fn law_query_keywords_distinct(question: Seq<char>)
    ensures
        query_keywords(question).no_duplicates(),
        forall|i: int| 0 <= i < query_keywords(question).len() ==> keeps_token(#[trigger] query_keywords(question)[i], stop_word_set()),
{
    let f = |t: Seq<char>| keeps_token(t, stop_word_set());
    let s = simple_tokens(question);
    if question.len() > 0 {
        let segs = jieba_segments(Seq::empty(), question);
        law_tokens_distinct_and_good(segs, stop_word_set(), true);
    }
    assert forall|i: int, j: int| 0 <= i < s.len() && 0 <= j < s.len() && i != j implies s[i] != s[j] by {
        if i > j {
            assert(s[j] != s[i]);
        }
    }
    lemma_filter_no_duplicates(s, f);
    assert(query_keywords(question) == s.filter(f));
    assert forall|i: int| 0 <= i < s.filter(f).len() implies keeps_token(#[trigger] s.filter(f)[i], stop_word_set()) by {
        s.lemma_filter_pred(f, i);
    }
}

/// A question without keywords, or whose keywords match no concept, is
/// answered by a text alone: confidence 0, no paths and no concepts.
pub proof fn law_query_without_matches(
    rels: Seq<(Seq<char>, RelationView)>,
    cs: Seq<(Seq<char>, ConceptView)>,
    question: Seq<char>,
)
    requires
        query_keywords(question).len() == 0 || matching_concepts(query_keywords(question), cs).len() == 0,
    ensures
        query_view(rels, cs, question).confidence == 0,
        query_view(rels, cs, question).paths.len() == 0,
        query_view(rels, cs, question).concepts.len() == 0,
{
}

/// How many positions of `m` are marked.
pub open spec fn count_marked(m: Seq<bool>) -> nat
    decreases m.len(),
{
    if m.len() == 0 {
        0
    } else {
        count_marked(m.drop_last()) + if m.last() {
            1nat
        } else {
            0nat
        }
    }
}

proof fn lemma_count_marked_bound(m: Seq<bool>)
    ensures
        count_marked(m) <= m.len(),
    decreases m.len(),
{
    if m.len() > 0 {
        lemma_count_marked_bound(m.drop_last());
    }
}

proof fn lemma_count_marked_mono(m: Seq<bool>, m2: Seq<bool>)
    requires
        m.len() == m2.len(),
        forall|i: int| 0 <= i < m.len() && #[trigger] m[i] ==> m2[i],
    ensures
        count_marked(m2) >= count_marked(m),
    decreases m.len(),
{
    if m.len() > 0 {
        let d = m.drop_last();
        let d2 = m2.drop_last();
        assert forall|i: int| 0 <= i < d.len() && #[trigger] d[i] implies d2[i] by {
            assert(m[i]);
        }
        lemma_count_marked_mono(d, d2);
        assert(m.last() ==> m2.last()) by {
            if m.last() {
                assert(m[m.len() - 1]);
            }
        }
    }
}

proof fn lemma_count_marked_grows(m: Seq<bool>, m2: Seq<bool>, x: int)
    requires
        m.len() == m2.len(),
        forall|i: int| 0 <= i < m.len() && #[trigger] m[i] ==> m2[i],
        0 <= x < m.len(),
        !m[x],
        m2[x],
    ensures
        count_marked(m2) >= count_marked(m) + 1,
    decreases m.len(),
{
    let d = m.drop_last();
    let d2 = m2.drop_last();
    assert forall|i: int| 0 <= i < d.len() && #[trigger] d[i] implies d2[i] by {
        assert(m[i]);
    }
    if x == m.len() - 1 {
        lemma_count_marked_mono(d, d2);
    } else {
        assert(d[x] == m[x] && d2[x] == m2[x]);
        lemma_count_marked_grows(d, d2, x);
        assert(m.last() ==> m2.last()) by {
            if m.last() {
                assert(m[m.len() - 1]);
            }
        }
    }
}

/// What a match says: its concept is one of `cs`, and its concept's name
/// equals its word in lowercase when it is exact, else contains it in
/// lowercase.
pub open spec fn match_holds(m: MatchView, cs: Seq<(Seq<char>, ConceptView)>) -> bool {
    &&& exists|k: int| 0 <= k < cs.len() && #[trigger] cs[k].0 == m.concept_name
    &&& m.exact ==> lowercase(m.concept_name) == lowercase(m.word)
    &&& !m.exact ==> crate::text::contains(lowercase(m.concept_name), lowercase(m.word))
}

/// The invariant of matching over `n` words.
spec fn match_state_ok(st: MatchState, n: int, cs: Seq<(Seq<char>, ConceptView)>) -> bool {
    &&& st.marked.len() == n
    &&& st.names.len() == st.matches.len()
    &&& forall|i: int| 0 <= i < st.names.len() ==> #[trigger] st.names[i] == st.matches[i].concept_name
    &&& st.names.no_duplicates()
    &&& forall|i: int| 0 <= i < st.matches.len() ==> match_holds(#[trigger] st.matches[i], cs)
    &&& st.matches.len() <= count_marked(st.marked)
    &&& forall|i: int| 0 <= i < st.matches.len() && !(#[trigger] st.matches[i]).exact && lookup(cs, st.matches[i].word) is Some
        ==> st.names.contains(st.matches[i].word)
}

proof fn lemma_push_match(st: MatchState, n: int, cs: Seq<(Seq<char>, ConceptView)>, m: MatchView, marked: Seq<bool>, x: int)
    requires
        match_state_ok(st, n, cs),
        match_holds(m, cs),
        !st.names.contains(m.concept_name),
        !m.exact && lookup(cs, m.word) is Some ==> st.names.contains(m.word),
        marked.len() == n,
        forall|i: int| 0 <= i < n && #[trigger] st.marked[i] ==> marked[i],
        0 <= x < n,
        !st.marked[x],
        marked[x],
    ensures
        match_state_ok(MatchState { matches: st.matches.push(m), names: st.names.push(m.concept_name), marked }, n, cs),
{
    let t = MatchState { matches: st.matches.push(m), names: st.names.push(m.concept_name), marked };
    lemma_count_marked_grows(st.marked, marked, x);
    assert forall|i: int| 0 <= i < t.names.len() implies #[trigger] t.names[i] == t.matches[i].concept_name by {
        if i < st.names.len() {
            assert(t.names[i] == st.names[i] && t.matches[i] == st.matches[i]);
        }
    }
    assert forall|i: int, j: int| 0 <= i < t.names.len() && 0 <= j < t.names.len() && i != j implies t.names[i] != t.names[j] by {
        if i < st.names.len() && j < st.names.len() {
            assert(t.names[i] == st.names[i] && t.names[j] == st.names[j]);
        } else if i < st.names.len() {
            assert(t.names[i] == st.names[i]);
            assert(st.names.contains(st.names[i]));
        } else {
            assert(t.names[j] == st.names[j]);
            assert(st.names.contains(st.names[j]));
        }
    }
    assert forall|i: int| 0 <= i < t.matches.len() implies match_holds(#[trigger] t.matches[i], cs) by {
        if i < st.matches.len() {
            assert(t.matches[i] == st.matches[i]);
        }
    }
    assert forall|i: int| 0 <= i < t.matches.len() && !(#[trigger] t.matches[i]).exact && lookup(cs, t.matches[i].word) is Some
        implies t.names.contains(t.matches[i].word) by {
        if i < st.matches.len() {
            assert(t.matches[i] == st.matches[i]);
            let k = choose|k: int| 0 <= k < st.names.len() && st.names[k] == st.matches[i].word;
            assert(t.names[k] == st.names[k]);
        } else {
            let k = choose|k: int| 0 <= k < st.names.len() && st.names[k] == m.word;
            assert(t.names[k] == st.names[k]);
        }
    }
}

proof fn lemma_phrase_step(st: MatchState, words: Seq<Seq<char>>, cs: Seq<(Seq<char>, ConceptView)>, i: int, len: int)
    requires
        match_state_ok(st, words.len() as int, cs),
        0 <= i,
        1 <= len,
        i + len <= words.len(),
    ensures
        match_state_ok(phrase_step(st, words, cs, i, len), words.len() as int, cs),
{
    if range_free(st.marked, i, i + len) {
        let ph = phrase_at(words, i, i + len);
        let p = phrase_pred(lowercase(ph), st.names);
        lemma_first_index_bound(cs, p);
        if let Some(k) = first_index(cs, p) {
            let m = MatchView { word: ph, concept_name: cs[k].0, energy: cs[k].1.energy, exact: true };
            assert(p(cs[k]));
            assert(cs[k].0 == m.concept_name);
            let mk = mark_range(st.marked, i, i + len);
            assert(!st.marked[i]);
            lemma_push_match(st, words.len() as int, cs, m, mk, i);
        }
    }
}

proof fn lemma_phrase_row(st: MatchState, words: Seq<Seq<char>>, cs: Seq<(Seq<char>, ConceptView)>, len: int, i_end: int)
    requires
        match_state_ok(st, words.len() as int, cs),
        1 <= len,
        i_end - 1 + len <= words.len(),
    ensures
        match_state_ok(phrase_row(st, words, cs, len, i_end), words.len() as int, cs),
    decreases i_end,
{
    if i_end > 0 {
        lemma_phrase_row(st, words, cs, len, i_end - 1);
        lemma_phrase_step(phrase_row(st, words, cs, len, i_end - 1), words, cs, i_end - 1, len);
    }
}

proof fn lemma_phrase_lengths(st: MatchState, words: Seq<Seq<char>>, cs: Seq<(Seq<char>, ConceptView)>, c: int)
    requires
        match_state_ok(st, words.len() as int, cs),
        c <= phrase_length_count(words.len() as int),
    ensures
        match_state_ok(phrase_lengths(st, words, cs, c), words.len() as int, cs),
    decreases c,
{
    if c > 0 {
        lemma_phrase_lengths(st, words, cs, c - 1);
        let len = max_phrase_len(words.len() as int) - (c - 1);
        lemma_phrase_row(phrase_lengths(st, words, cs, c - 1), words, cs, len, words.len() - len + 1);
    }
}

proof fn lemma_word_step(st: MatchState, words: Seq<Seq<char>>, cs: Seq<(Seq<char>, ConceptView)>, idx: int)
    requires
        match_state_ok(st, words.len() as int, cs),
        0 <= idx < words.len(),
    ensures
        match_state_ok(word_step(st, words, cs, idx), words.len() as int, cs),
{
    if !st.marked[idx] {
        let w = words[idx];
        lemma_key_index(cs, w);
        let st1 = match lookup(cs, w) {
            Some(c) => if !st.names.contains(w) {
                MatchState {
                    matches: st.matches.push(MatchView { word: w, concept_name: w, energy: c.energy, exact: true }),
                    names: st.names.push(w),
                    marked: st.marked.update(idx, true),
                }
            } else {
                st
            },
            None => st,
        };
        if let Some(c) = lookup(cs, w) {
            if !st.names.contains(w) {
                let m = MatchView { word: w, concept_name: w, energy: c.energy, exact: true };
                assert(cs[key_index(cs, w)].0 == m.concept_name);
                lemma_push_match(st, words.len() as int, cs, m, st.marked.update(idx, true), idx);
            }
        }
        if !st1.marked[idx] {
            assert(st1 == st);
            let p = fuzzy_pred(lowercase(w), st1.names);
            lemma_first_index_bound(cs, p);
            if let Some(k) = first_index(cs, p) {
                let m = MatchView { word: w, concept_name: cs[k].0, energy: cs[k].1.energy, exact: false };
                assert(p(cs[k]));
                assert(cs[k].0 == m.concept_name);
                lemma_push_match(st1, words.len() as int, cs, m, st1.marked.update(idx, true), idx);
            }
        }
    }
}

proof fn lemma_word_row(st: MatchState, words: Seq<Seq<char>>, cs: Seq<(Seq<char>, ConceptView)>, m: int)
    requires
        match_state_ok(st, words.len() as int, cs),
        m <= words.len(),
    ensures
        match_state_ok(word_row(st, words, cs, m), words.len() as int, cs),
    decreases m,
{
    if m > 0 {
        lemma_word_row(st, words, cs, m - 1);
        lemma_word_step(word_row(st, words, cs, m - 1), words, cs, m - 1);
    }
}

/// Matching query words to concepts gives at most one match per word, each
/// concept at most once, and every match names a concept of the graph whose
/// lowercase name equals the lowercase word (exact matches) or contains it
/// (the others).
pub proof fn law_matching_concepts(words: Seq<Seq<char>>, cs: Seq<(Seq<char>, ConceptView)>)
    ensures
        matching_concepts(words, cs).len() <= words.len(),
        forall|i: int, j: int| 0 <= i < j < matching_concepts(words, cs).len() ==>
            #[trigger] matching_concepts(words, cs)[i].concept_name != #[trigger] matching_concepts(words, cs)[j].concept_name,
        forall|i: int| 0 <= i < matching_concepts(words, cs).len() ==> match_holds(#[trigger] matching_concepts(words, cs)[i], cs),
        forall|i: int, k: int| 0 <= i < matching_concepts(words, cs).len() && 0 <= k < cs.len()
            && !(#[trigger] matching_concepts(words, cs)[i]).exact && #[trigger] cs[k].0 == matching_concepts(words, cs)[i].word
            ==> exists|j: int| 0 <= j < matching_concepts(words, cs).len() && #[trigger] matching_concepts(words, cs)[j].concept_name
            == matching_concepts(words, cs)[i].word,
{
    let st0 = MatchState { matches: Seq::empty(), names: Seq::empty(), marked: Seq::new(words.len(), |i: int| false) };
    let st1 = phrase_lengths(st0, words, cs, phrase_length_count(words.len() as int));
    lemma_phrase_lengths(st0, words, cs, phrase_length_count(words.len() as int));
    lemma_word_row(st1, words, cs, words.len() as int);
    let st2 = word_row(st1, words, cs, words.len() as int);
    lemma_count_marked_bound(st2.marked);
    assert(st2.matches == matching_concepts(words, cs));
    let ms = st2.matches;
    assert forall|i: int, j: int| 0 <= i < j < ms.len() implies #[trigger] ms[i].concept_name != #[trigger] ms[j].concept_name by {
        assert(st2.names[i] == ms[i].concept_name);
        assert(st2.names[j] == ms[j].concept_name);
    }
    assert forall|i: int, k: int| 0 <= i < ms.len() && 0 <= k < cs.len() && !(#[trigger] ms[i]).exact && #[trigger] cs[k].0
        == ms[i].word implies exists|j: int| 0 <= j < ms.len() && #[trigger] ms[j].concept_name == ms[i].word by {
        lemma_key_index(cs, ms[i].word);
        assert(lookup(cs, ms[i].word) is Some);
        let j = choose|j: int| 0 <= j < st2.names.len() && st2.names[j] == ms[i].word;
        assert(ms[j].concept_name == st2.names[j]);
    }
}

/// Whether `p` is a simple path that starts at `start`.
pub open spec fn simple_from(rels: Seq<(Seq<char>, RelationView)>, p: Seq<Seq<char>>, start: Seq<char>) -> bool {
    p.len() >= 1 && is_simple_path(rels, p, start, p.last())
}

proof fn lemma_extend_simple(rels: Seq<(Seq<char>, RelationView)>, p: Seq<Seq<char>>, start: Seq<char>, n: Seq<char>)
    requires
        simple_from(rels, p, start),
        linked(rels, p.last(), n),
        !p.contains(n),
    ensures
        simple_from(rels, p.push(n), start),
{
    let q = p.push(n);
    assert(q[0] == p[0]);
    assert forall|i: int, j: int| 0 <= i < q.len() && 0 <= j < q.len() && i != j implies q[i] != q[j] by {
        if i < p.len() && j < p.len() {
            assert(q[i] == p[i] && q[j] == p[j]);
        } else if i == p.len() {
            assert(q[j] == p[j]);
        } else {
            assert(q[i] == p[i]);
        }
    }
    assert forall|i: int| #![trigger q[i]] 0 <= i < q.len() - 1 implies linked(rels, q[i], q[i + 1]) by {
        if i < p.len() - 1 {
            assert(q[i] == p[i] && q[i + 1] == p[i + 1]);
        } else {
            assert(q[i] == p.last());
        }
    }
}

proof fn lemma_extensions(rels: Seq<(Seq<char>, RelationView)>, adj_len: int, p: Seq<Seq<char>>, start: Seq<char>)
    requires
        simple_from(rels, p, start),
        0 <= adj_len <= adjacency(rels, p.last()).len(),
    ensures
        forall|i: int| 0 <= i < extensions(adjacency(rels, p.last()).take(adj_len), p).len() ==> {
            &&& simple_from(rels, #[trigger] extensions(adjacency(rels, p.last()).take(adj_len), p)[i], start)
            &&& extensions(adjacency(rels, p.last()).take(adj_len), p)[i].len() == p.len() + 1
        },
    decreases adj_len,
{
    let adj = adjacency(rels, p.last());
    let a = adj.take(adj_len);
    if adj_len > 0 {
        assert(a.drop_last() =~= adj.take(adj_len - 1));
        lemma_extensions(rels, adj_len - 1, p, start);
        let n = a.last().0;
        let e = extensions(adj.take(adj_len - 1), p);
        assert(extensions(a.drop_last(), p) == e);
        if !p.contains(n) {
            crate::inference::lemma_adjacency_linked(rels, p.last(), adj_len - 1);
            assert(adj[adj_len - 1] == a.last());
            lemma_extend_simple(rels, p, start, n);
        }
        assert forall|i: int| 0 <= i < extensions(adjacency(rels, p.last()).take(adj_len), p).len() implies {
            &&& simple_from(rels, #[trigger] extensions(adjacency(rels, p.last()).take(adj_len), p)[i], start)
            &&& extensions(adjacency(rels, p.last()).take(adj_len), p)[i].len() == p.len() + 1
        } by {
            if i < e.len() {
                assert(extensions(adjacency(rels, p.last()).take(adj_len), p)[i] == e[i]);
            } else {
                assert(extensions(adjacency(rels, p.last()).take(adj_len), p)[i] == p.push(n));
            }
        }
    }
}

proof fn lemma_extend_level(rels: Seq<(Seq<char>, RelationView)>, ps: Seq<Seq<Seq<char>>>, start: Seq<char>, len: nat)
    requires
        forall|i: int| 0 <= i < ps.len() ==> simple_from(rels, #[trigger] ps[i], start) && ps[i].len() == len,
    ensures
        forall|i: int| 0 <= i < extend_level(rels, ps).len() ==> simple_from(rels, #[trigger] extend_level(rels, ps)[i], start)
            && extend_level(rels, ps)[i].len() == len + 1,
    decreases ps.len(),
{
    if ps.len() > 0 {
        let d = ps.drop_last();
        assert forall|i: int| 0 <= i < d.len() implies simple_from(rels, #[trigger] d[i], start) && d[i].len() == len by {
            assert(d[i] == ps[i]);
        }
        lemma_extend_level(rels, d, start, len);
        let p = ps.last();
        assert(p == ps[ps.len() - 1]);
        let adj = adjacency(rels, p.last());
        lemma_extensions(rels, adj.len() as int, p, start);
        assert(adj.take(adj.len() as int) =~= adj);
        let e = extend_level(rels, d);
        let x = extensions(adj, p);
        assert(extend_level(rels, ps) == e + x);
        assert forall|i: int| 0 <= i < (e + x).len() implies simple_from(rels, #[trigger] (e + x)[i], start) && (e + x)[i].len() == len + 1 by {
            if i < e.len() {
                assert((e + x)[i] == e[i]);
            } else {
                assert((e + x)[i] == x[i - e.len()]);
            }
        }
    }
}

proof fn lemma_path_level(rels: Seq<(Seq<char>, RelationView)>, start: Seq<char>, k: nat)
    ensures
        forall|i: int| 0 <= i < path_level(rels, start, k).len() ==> simple_from(rels, #[trigger] path_level(rels, start, k)[i], start)
            && path_level(rels, start, k)[i].len() == k + 1,
    decreases k,
{
    if k == 0 {
        let p = seq![start];
        assert(path_level(rels, start, 0) == seq![p]);
        assert(p.no_duplicates());
        assert(simple_from(rels, p, start));
    } else {
        lemma_path_level(rels, start, (k - 1) as nat);
        lemma_extend_level(rels, path_level(rels, start, (k - 1) as nat), start, k as nat);
    }
}

/// Every path `find_paths` gives starts at the start concept, follows
/// relations without visiting a concept twice, and takes between 1 and
/// `max_depth` steps.
pub proof fn law_find_paths_simple(rels: Seq<(Seq<char>, RelationView)>, start: Seq<char>, max_depth: nat)
    ensures
        forall|i: int| 0 <= i < paths_within(rels, start, max_depth).len() ==> {
            &&& simple_from(rels, #[trigger] paths_within(rels, start, max_depth)[i], start)
            &&& 2 <= paths_within(rels, start, max_depth)[i].len() <= max_depth + 1
        },
    decreases max_depth,
{
    if max_depth > 0 {
        let d = (max_depth - 1) as nat;
        law_find_paths_simple(rels, start, d);
        lemma_path_level(rels, start, max_depth);
        let a = paths_within(rels, start, d);
        let b = path_level(rels, start, max_depth);
        assert(paths_within(rels, start, max_depth) == a + b);
        assert forall|i: int| 0 <= i < (a + b).len() implies simple_from(rels, #[trigger] (a + b)[i], start) && 2 <= (a + b)[i].len() <= max_depth + 1 by {
            if i < a.len() {
                assert((a + b)[i] == a[i]);
            } else {
                assert((a + b)[i] == b[i - a.len()]);
            }
        }
    }
}

proof fn lemma_extensions_contain(adj: Seq<(Seq<char>, u64)>, p: Seq<Seq<char>>, k: int)
    requires
        0 <= k < adj.len(),
        !p.contains(adj[k].0),
    ensures
        extensions(adj, p).contains(p.push(adj[k].0)),
    decreases adj.len(),
{
    let d = adj.drop_last();
    let e = extensions(d, p);
    if k == adj.len() - 1 {
        assert(extensions(adj, p)[e.len() as int] == p.push(adj[k].0));
    } else {
        assert(d[k] == adj[k]);
        lemma_extensions_contain(d, p, k);
        let i = choose|i: int| 0 <= i < e.len() && e[i] == p.push(adj[k].0);
        if !p.contains(adj.last().0) {
            assert(extensions(adj, p)[i] == e[i]);
        }
    }
}

proof fn lemma_extend_level_contains(rels: Seq<(Seq<char>, RelationView)>, ps: Seq<Seq<Seq<char>>>, j: int, q: Seq<Seq<char>>)
    requires
        0 <= j < ps.len(),
        extensions(adjacency(rels, ps[j].last()), ps[j]).contains(q),
    ensures
        extend_level(rels, ps).contains(q),
    decreases ps.len(),
{
    let d = ps.drop_last();
    let a = extend_level(rels, d);
    let b = extensions(adjacency(rels, ps.last().last()), ps.last());
    assert(extend_level(rels, ps) == a + b);
    if j == ps.len() - 1 {
        let i = choose|i: int| 0 <= i < b.len() && b[i] == q;
        assert((a + b)[a.len() + i] == q);
    } else {
        assert(d[j] == ps[j]);
        lemma_extend_level_contains(rels, d, j, q);
        let i = choose|i: int| 0 <= i < a.len() && a[i] == q;
        assert((a + b)[i] == q);
    }
}

proof fn lemma_path_level_complete(rels: Seq<(Seq<char>, RelationView)>, start: Seq<char>, p: Seq<Seq<char>>)
    requires
        is_simple_path(rels, p, start, p.last()),
    ensures
        path_level(rels, start, (p.len() - 1) as nat).contains(p),
    decreases p.len(),
{
    let k = (p.len() - 1) as nat;
    if k == 0 {
        assert(p =~= seq![start]);
        assert(path_level(rels, start, 0)[0] == p);
    } else {
        let q = p.drop_last();
        assert forall|i: int, j: int| 0 <= i < q.len() && 0 <= j < q.len() && i != j implies q[i] != q[j] by {
            assert(q[i] == p[i] && q[j] == p[j]);
        }
        assert forall|i: int| #![trigger q[i]] 0 <= i < q.len() - 1 implies linked(rels, q[i], q[i + 1]) by {
            assert(q[i] == p[i] && q[i + 1] == p[i + 1]);
            assert(linked(rels, p[i], p[i + 1]));
        }
        assert(q[0] == p[0]);
        assert(is_simple_path(rels, q, start, q.last()));
        lemma_path_level_complete(rels, start, q);
        let lv = path_level(rels, start, (k - 1) as nat);
        let j = choose|j: int| 0 <= j < lv.len() && lv[j] == q;
        let x = q.last();
        let y = p.last();
        assert(x == p[p.len() - 2]);
        assert(linked(rels, p[p.len() - 2], p[p.len() - 1]));
        crate::inference::lemma_linked_is_neighbor(rels, x, y);
        let adj = adjacency(rels, x);
        let m = choose|m: int| 0 <= m < adj.len() && #[trigger] adj[m].0 == y;
        if q.contains(y) {
            let i = choose|i: int| 0 <= i < q.len() && q[i] == y;
            assert(p[i] == p[p.len() - 1]);
        }
        lemma_extensions_contain(adj, q, m);
        assert(q.push(y) =~= p);
        lemma_extend_level_contains(rels, lv, j, p);
    }
}

proof fn lemma_paths_within_contains(rels: Seq<(Seq<char>, RelationView)>, start: Seq<char>, d: nat, k: nat, p: Seq<Seq<char>>)
    requires
        1 <= k <= d,
        path_level(rels, start, k).contains(p),
    ensures
        paths_within(rels, start, d).contains(p),
    decreases d,
{
    let a = paths_within(rels, start, (d - 1) as nat);
    let b = path_level(rels, start, d);
    assert(paths_within(rels, start, d) == a + b);
    if k == d {
        let i = choose|i: int| 0 <= i < b.len() && b[i] == p;
        assert((a + b)[a.len() + i] == p);
    } else {
        lemma_paths_within_contains(rels, start, (d - 1) as nat, k, p);
        let i = choose|i: int| 0 <= i < a.len() && a[i] == p;
        assert((a + b)[i] == p);
    }
}

/// `find_paths` misses no path: every simple path from `start` that takes
/// between 1 and `max_depth` steps is among the paths it gives.
pub proof fn law_find_paths_complete(rels: Seq<(Seq<char>, RelationView)>, start: Seq<char>, max_depth: nat, p: Seq<Seq<char>>)
    requires
        is_simple_path(rels, p, start, p.last()),
        2 <= p.len() <= max_depth + 1,
    ensures
        paths_within(rels, start, max_depth).contains(p),
{
    lemma_path_level_complete(rels, start, p);
    lemma_paths_within_contains(rels, start, max_depth, (p.len() - 1) as nat, p);
}

/// `find_paths` gives shorter paths first.
pub proof fn law_find_paths_shortest_first(rels: Seq<(Seq<char>, RelationView)>, start: Seq<char>, max_depth: nat)
    ensures
        forall|i: int, j: int| 0 <= i < j < paths_within(rels, start, max_depth).len() ==>
            #[trigger] paths_within(rels, start, max_depth)[i].len() <= #[trigger] paths_within(rels, start, max_depth)[j].len(),
    decreases max_depth,
{
    if max_depth > 0 {
        let d = (max_depth - 1) as nat;
        law_find_paths_shortest_first(rels, start, d);
        law_find_paths_simple(rels, start, d);
        lemma_path_level(rels, start, max_depth);
        let a = paths_within(rels, start, d);
        let b = path_level(rels, start, max_depth);
        assert(paths_within(rels, start, max_depth) == a + b);
        assert forall|i: int, j: int| 0 <= i < j < (a + b).len() implies #[trigger] (a + b)[i].len() <= #[trigger] (a + b)[j].len() by {
            if j < a.len() {
                assert((a + b)[i] == a[i] && (a + b)[j] == a[j]);
            } else if i < a.len() {
                assert((a + b)[i] == a[i] && (a + b)[j] == b[j - a.len()]);
            } else {
                assert((a + b)[i] == b[i - a.len()] && (a + b)[j] == b[j - a.len()]);
            }
        }
    }
}

/// Searching one step deeper keeps the paths found so far, in order, and
/// only adds longer ones after them.
pub proof fn law_find_paths_prefix(rels: Seq<(Seq<char>, RelationView)>, start: Seq<char>, max_depth: nat)
    ensures
        paths_within(rels, start, max_depth + 1).take(paths_within(rels, start, max_depth).len() as int)
            == paths_within(rels, start, max_depth),
{
    let a = paths_within(rels, start, max_depth);
    let b = path_level(rels, start, max_depth + 1);
    assert(paths_within(rels, start, max_depth + 1) == a + b);
    assert((a + b).take(a.len() as int) =~= a);
}

proof fn lemma_adjacency_untouched(rels: Seq<(Seq<char>, RelationView)>, x: Seq<char>)
    requires
        forall|i: int| 0 <= i < rels.len() ==> #[trigger] rels[i].1.source != x && rels[i].1.target != x,
    ensures
        adjacency(rels, x).len() == 0,
    decreases rels.len(),
{
    if rels.len() > 0 {
        let d = rels.drop_last();
        assert forall|i: int| 0 <= i < d.len() implies #[trigger] d[i].1.source != x && d[i].1.target != x by {
            assert(d[i] == rels[i]);
        }
        lemma_adjacency_untouched(d, x);
        assert(rels[rels.len() - 1] == rels.last());
    }
}

proof fn lemma_levels_empty(rels: Seq<(Seq<char>, RelationView)>, start: Seq<char>, k: nat)
    requires
        adjacency(rels, start).len() == 0,
        k >= 1,
    ensures
        path_level(rels, start, k).len() == 0,
    decreases k,
{
    if k == 1 {
        let ps = path_level(rels, start, 0);
        assert(ps == seq![seq![start]]);
        assert(ps.drop_last() =~= Seq::<Seq<Seq<char>>>::empty());
        assert(ps.last().last() == start);
        assert(extensions(adjacency(rels, start), ps.last()) == Seq::<Seq<Seq<char>>>::empty());
        assert(extend_level(rels, ps.drop_last()) == Seq::<Seq<Seq<char>>>::empty());
        assert(extend_level(rels, ps) == extend_level(rels, ps.drop_last()) + extensions(adjacency(rels, start), ps.last()));
        assert(extend_level(rels, ps) =~= Seq::<Seq<Seq<char>>>::empty());
    } else {
        lemma_levels_empty(rels, start, (k - 1) as nat);
        assert(path_level(rels, start, (k - 1) as nat) =~= Seq::<Seq<Seq<char>>>::empty());
    }
}

/// A concept that no relation touches has no paths.
pub proof fn law_find_paths_untouched_start(rels: Seq<(Seq<char>, RelationView)>, start: Seq<char>, max_depth: nat)
    requires
        forall|i: int| 0 <= i < rels.len() ==> #[trigger] rels[i].1.source != start && rels[i].1.target != start,
    ensures
        paths_within(rels, start, max_depth).len() == 0,
    decreases max_depth,
{
    lemma_adjacency_untouched(rels, start);
    if max_depth > 0 {
        law_find_paths_untouched_start(rels, start, (max_depth - 1) as nat);
        lemma_levels_empty(rels, start, max_depth);
    }
}

proof fn lemma_distinct_names(ms: Seq<MatchView>)
    ensures
        distinct_names(ms).no_duplicates(),
        forall|i: int| 0 <= i < ms.len() ==> distinct_names(ms).contains(#[trigger] ms[i].concept_name),
        forall|j: int| #![trigger distinct_names(ms)[j]] 0 <= j < distinct_names(ms).len() ==> exists|i: int| 0 <= i < ms.len()
            && #[trigger] ms[i].concept_name == distinct_names(ms)[j],
    decreases ms.len(),
{
    if ms.len() > 0 {
        let d = ms.drop_last();
        lemma_distinct_names(d);
        let p = distinct_names(d);
        let x = ms.last().concept_name;
        let q = distinct_names(ms);
        assert(q == add_distinct(p, x));
        if !p.contains(x) {
            assert(q == p.push(x));
            assert forall|a: int, b: int| 0 <= a < q.len() && 0 <= b < q.len() && a != b implies q[a] != q[b] by {
                if a < p.len() && b < p.len() {
                    assert(q[a] == p[a] && q[b] == p[b]);
                } else if a < p.len() {
                    assert(q[a] == p[a]);
                    assert(p.contains(p[a]));
                } else {
                    assert(q[b] == p[b]);
                    assert(p.contains(p[b]));
                }
            }
        }
        assert forall|i: int| 0 <= i < ms.len() implies q.contains(#[trigger] ms[i].concept_name) by {
            if i < d.len() {
                assert(d[i] == ms[i]);
                let k = choose|k: int| 0 <= k < p.len() && p[k] == d[i].concept_name;
                if !p.contains(x) {
                    assert(q[k] == p[k]);
                }
            } else if !p.contains(x) {
                assert(q[p.len() as int] == x);
            }
        }
        assert forall|j: int| #![trigger q[j]] 0 <= j < q.len() implies exists|i: int| 0 <= i < ms.len() && #[trigger] ms[i].concept_name == q[j] by {
            if j < p.len() {
                assert(q[j] == p[j]);
                let i = choose|i: int| 0 <= i < d.len() && #[trigger] d[i].concept_name == p[j];
                assert(ms[i] == d[i]);
            } else {
                assert(ms[ms.len() - 1].concept_name == q[j]);
            }
        }
    }
}

/// `ask` speaks of every concept the question names: the answer's concepts
/// are exactly the matched concepts, each once; when two or more distinct
/// concepts match, the answer is about the relations between them (no free
/// associations), and only when a single concept matches is it about that
/// concept alone, with its associations and no paths.
pub proof fn law_ask_relates_all_matched(
    rels: Seq<(Seq<char>, RelationView)>,
    cs: Seq<(Seq<char>, ConceptView)>,
    question: Seq<char>,
    v: AnswerView,
)
    requires
        ask_ok(rels, cs, question, v),
    ensures
        ({
            let ms = matching_concepts(query_keywords(question), cs);
            &&& v.concepts.no_duplicates()
            &&& forall|i: int| 0 <= i < ms.len() ==> v.concepts.contains(#[trigger] ms[i].concept_name)
            &&& forall|j: int| #![trigger v.concepts[j]] 0 <= j < v.concepts.len() ==> exists|i: int| 0 <= i < ms.len()
                && #[trigger] ms[i].concept_name == v.concepts[j]
            &&& (exists|i: int, j: int| 0 <= i < ms.len() && 0 <= j < ms.len() && #[trigger] ms[i].concept_name
                != #[trigger] ms[j].concept_name) ==> v.associations is None
            &&& (ms.len() > 0 && forall|i: int| 0 <= i < ms.len() ==> #[trigger] ms[i].concept_name == ms[0].concept_name)
                ==> v.associations is Some && v.paths.len() == 0
        }),
{
    let ms = matching_concepts(query_keywords(question), cs);
    if ms.len() == 0 {
        assert(v.concepts =~= Seq::<Seq<char>>::empty());
    } else {
        let ents = distinct_names(ms);
        lemma_distinct_names(ms);
        assert(ents.contains(ms[0].concept_name));
        if ents.len() == 1 {
            let conns = connections(rels, ents[0]);
            let order = choose|order: Seq<usize>|
                #[trigger] crate::sort::is_stable_desc_order(pair_keys(conns), order)
                && v == single_answer_view(
                    ents[0],
                    crate::response_generator::first_n(order.map_values(|i: usize| conns[i as int]), 5),
                    description_of(cs, ents[0]),
                );
            assert(v.concepts == seq![ents[0]]);
            assert(v.concepts =~= ents);
            assert forall|i: int, j: int| 0 <= i < ms.len() && 0 <= j < ms.len() implies #[trigger] ms[i].concept_name
                == #[trigger] ms[j].concept_name by {
                let a = choose|a: int| 0 <= a < ents.len() && ents[a] == ms[i].concept_name;
                let b = choose|b: int| 0 <= b < ents.len() && ents[b] == ms[j].concept_name;
            }
        } else {
            let (res, order) = choose|res: Seq<Option<PathResultView>>, order: Seq<usize>|
                #[trigger] pair_results_ok(rels, ents, index_pairs(ents.len() as int, ents.len() as int), res)
                && #[trigger] crate::sort::is_stable_desc_order(total_keys(somes(res)), order)
                && v == multi_view(ents, somes(res), order);
            assert(v.concepts == ents);
            assert(ents[0] != ents[1]);
            let a = choose|a: int| 0 <= a < ms.len() && #[trigger] ms[a].concept_name == ents[0];
            let b = choose|b: int| 0 <= b < ms.len() && #[trigger] ms[b].concept_name == ents[1];
            assert(ms[a].concept_name != ms[b].concept_name);
        }
    }
}

proof fn lemma_somes_from<A>(res: Seq<Option<A>>)
    ensures
        forall|t: int| #![trigger somes(res)[t]] 0 <= t < somes(res).len() ==> exists|k: int| 0 <= k < res.len() && #[trigger] res[k]
            == Some(somes(res)[t]),
    decreases res.len(),
{
    if res.len() > 0 {
        let d = res.drop_last();
        lemma_somes_from(d);
        let p = somes(d);
        let q = somes(res);
        assert forall|t: int| #![trigger q[t]] 0 <= t < q.len() implies exists|k: int| 0 <= k < res.len() && #[trigger] res[k]
            == Some(q[t]) by {
            if t < p.len() {
                assert(q[t] == p[t]);
                let k = choose|k: int| 0 <= k < d.len() && #[trigger] d[k] == Some(p[t]);
                assert(res[k] == d[k]);
            } else {
                assert(res[res.len() - 1] == Some(q[t]));
            }
        }
    }
}

proof fn lemma_index_pairs_ordered(n: int, i_end: int)
    requires
        i_end <= n,
    ensures
        forall|k: int| 0 <= k < index_pairs(n, i_end).len() ==> 0 <= (#[trigger] index_pairs(n, i_end)[k]).0
            && index_pairs(n, i_end)[k].0 < index_pairs(n, i_end)[k].1 && index_pairs(n, i_end)[k].1 < n,
    decreases i_end,
{
    if i_end > 0 {
        lemma_index_pairs_ordered(n, i_end - 1);
        let a = index_pairs(n, i_end - 1);
        let i = i_end - 1;
        let b = Seq::new(if n - i - 1 > 0 { (n - i - 1) as nat } else { 0nat }, |t: int| (i, i + 1 + t));
        assert(index_pairs(n, i_end) == a + b);
        assert forall|k: int| 0 <= k < (a + b).len() implies 0 <= (#[trigger] (a + b)[k]).0 && (a + b)[k].0 < (a + b)[k].1
            && (a + b)[k].1 < n by {
            if k < a.len() {
                assert((a + b)[k] == a[k]);
            } else {
                assert((a + b)[k] == b[k - a.len()]);
            }
        }
    }
}

/// When `ask` answers about several concepts, each path it gives is a
/// simple path (along relations, no concept twice) from one matched concept
/// to another, different one.
pub proof fn law_ask_paths_join_matched(
    rels: Seq<(Seq<char>, RelationView)>,
    cs: Seq<(Seq<char>, ConceptView)>,
    question: Seq<char>,
    v: AnswerView,
)
    requires
        ask_ok(rels, cs, question, v),
    ensures
        ({
            let ms = matching_concepts(query_keywords(question), cs);
            forall|t: int| #![trigger v.paths[t]] 0 <= t < v.paths.len() ==> exists|i: int, j: int|
                0 <= i < ms.len() && 0 <= j < ms.len() && #[trigger] ms[i].concept_name != #[trigger] ms[j].concept_name
                && is_simple_path(rels, v.paths[t], ms[i].concept_name, ms[j].concept_name)
        }),
{
    let ms = matching_concepts(query_keywords(question), cs);
    if ms.len() > 0 {
        let ents = distinct_names(ms);
        lemma_distinct_names(ms);
        if ents.len() != 1 {
            let (res, order) = choose|res: Seq<Option<PathResultView>>, order: Seq<usize>|
                #[trigger] pair_results_ok(rels, ents, index_pairs(ents.len() as int, ents.len() as int), res)
                && #[trigger] crate::sort::is_stable_desc_order(total_keys(somes(res)), order)
                && v == multi_view(ents, somes(res), order);
            let found = somes(res);
            let pairs = index_pairs(ents.len() as int, ents.len() as int);
            lemma_somes_from(res);
            lemma_index_pairs_ordered(ents.len() as int, ents.len() as int);
            if found.len() > 0 {
                let all = order.map_values(|x: usize| found[x as int].0);
                assert(v.paths == crate::response_generator::first_n(all, 3));
                assert forall|t: int| #![trigger v.paths[t]] 0 <= t < v.paths.len() implies exists|i: int, j: int|
                    0 <= i < ms.len() && 0 <= j < ms.len() && #[trigger] ms[i].concept_name != #[trigger] ms[j].concept_name
                    && is_simple_path(rels, v.paths[t], ms[i].concept_name, ms[j].concept_name) by {
                    assert(v.paths[t] == all[t]);
                    let x = order[t] as int;
                    assert(0 <= x < found.len());
                    assert(v.paths[t] == found[x].0);
                    let k = choose|k: int| 0 <= k < res.len() && #[trigger] res[k] == Some(found[x]);
                    assert(pair_result(rels, ents[pairs[k].0], ents[pairs[k].1], res[k]));
                    let a = pairs[k].0;
                    let b = pairs[k].1;
                    assert(0 <= a < b < ents.len());
                    assert(ents[a] != ents[b]);
                    let i = choose|i: int| 0 <= i < ms.len() && #[trigger] ms[i].concept_name == ents[a];
                    let j = choose|j: int| 0 <= j < ms.len() && #[trigger] ms[j].concept_name == ents[b];
                    assert(is_simple_path(rels, v.paths[t], ms[i].concept_name, ms[j].concept_name));
                }
            }
        } else {
            let conns = connections(rels, ents[0]);
            let order = choose|order: Seq<usize>|
                #[trigger] crate::sort::is_stable_desc_order(pair_keys(conns), order)
                && v == single_answer_view(
                    ents[0],
                    crate::response_generator::first_n(order.map_values(|i: usize| conns[i as int]), 5),
                    description_of(cs, ents[0]),
                );
            assert(v.paths.len() == 0);
        }
    }
}

} // verus!
