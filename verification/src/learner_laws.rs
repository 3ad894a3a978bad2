//! Properties of learning that span the learner and the knowledge graph.

use vstd::prelude::*;
use crate::brain::BrainView;
use crate::brain_laws::{law_learning_keeps_knowledge, law_relation_deltas_keep_weights};
use crate::brain::{ConceptView, UNIT, relation_key, sat_add, sat_add32, apply_concept_deltas, apply_relation_deltas, batch_relation_id};
use crate::learner::{add_pair, boost_factor, focus_level, is_token_punctuation, pair_weight, row_pairs, window_pairs};
use crate::text::{spec_is_whitespace, str_less};
use crate::learner::energy_keys;
use crate::sort::is_stable_desc_order;
use crate::learner::learner_tokens;
use crate::nlp::jieba_segments;
use crate::nlp_laws::law_tokens_distinct_and_good;
use crate::inference_laws::weights_at_most_one;
use crate::brain::{relations_touching, RelationView};
use crate::learner::{
    add_mention, after_tracking, focus_entries, learn_windows, learning_batch, mention_energy,
    other_end, related_concepts, track_names, traversal, traversal_edges, valid_token, window_at,
    window_mentions,
};
use crate::table::{key_index, keys_of, lookup, unique_keys, upsert, lemma_key_index, lemma_upsert};

verus! {

proof fn lemma_track_names_keeps(s: BrainView, book_id: i64, names: Seq<Seq<char>>)
    ensures
        track_names(s, book_id, names).concepts == s.concepts,
        track_names(s, book_id, names).relations == s.relations,
    decreases names.len(),
{
    if names.len() > 0 {
        lemma_track_names_keeps(s, book_id, names.drop_last());
    }
}

proof fn lemma_add_mention(cs: Seq<(Seq<char>, (u64, u32))>, name: Seq<char>, energy: u64)
    requires
        unique_keys(cs),
    ensures
        unique_keys(add_mention(cs, name, energy)),
        lookup(add_mention(cs, name, energy), name) is Some,
        forall|k: Seq<char>| #[trigger] lookup(cs, k) is Some ==> lookup(add_mention(cs, name, energy), k) is Some,
{
    let v = match lookup(cs, name) {
        Some(x) => (crate::brain::sat_add(x.0, energy), crate::brain::sat_add32(x.1, 1)),
        None => (energy, 1u32),
    };
    lemma_upsert(cs, name, v);
}

proof fn lemma_window_mentions(cs: Seq<(Seq<char>, (u64, u32))>, w: Seq<Seq<char>>, m: int, focus: Option<Seq<char>>)
    requires
        unique_keys(cs),
        m <= w.len(),
    ensures
        unique_keys(window_mentions(cs, w, m, focus)),
        forall|k: Seq<char>| #[trigger] lookup(cs, k) is Some ==> lookup(window_mentions(cs, w, m, focus), k) is Some,
        forall|j: int| 0 <= j < m && valid_token(w[j]) ==> lookup(window_mentions(cs, w, m, focus), #[trigger] w[j]) is Some,
    decreases m,
{
    if m > 0 {
        let c = window_mentions(cs, w, m - 1, focus);
        lemma_window_mentions(cs, w, m - 1, focus);
        if valid_token(w[m - 1]) {
            lemma_add_mention(c, w[m - 1], mention_energy(w[m - 1], focus));
        }
    }
}

proof fn lemma_learn_windows(
    cs: Seq<(Seq<char>, (u64, u32))>,
    rs: Seq<(Seq<char>, (u64, u32, Seq<char>, Seq<char>))>,
    tokens: Seq<Seq<char>>,
    i_end: int,
    focus: Option<Seq<char>>,
)
    requires
        unique_keys(cs),
        i_end <= tokens.len(),
    ensures
        unique_keys(learn_windows(cs, rs, tokens, i_end, focus).0),
        forall|k: Seq<char>| #[trigger] lookup(cs, k) is Some ==> lookup(learn_windows(cs, rs, tokens, i_end, focus).0, k) is Some,
        forall|i: int, j: int| 0 <= i < i_end && 0 <= j < window_at(tokens, i).len() && valid_token(window_at(tokens, i)[j])
            ==> lookup(learn_windows(cs, rs, tokens, i_end, focus).0, #[trigger] window_at(tokens, i)[j]) is Some,
    decreases i_end,
{
    if i_end > 0 {
        let p = learn_windows(cs, rs, tokens, i_end - 1, focus);
        lemma_learn_windows(cs, rs, tokens, i_end - 1, focus);
        let w = window_at(tokens, i_end - 1);
        lemma_window_mentions(p.0, w, w.len() as int, focus);
    }
}

/// Learning keeps every relation weight within 1.0: the tokens of a text
/// are distinct, so a pair of them shares at most five windows and adds at
/// most 5 * 2.0 / 15 to the batch; an existing relation is then capped at
/// 1.0, and a new one takes that batch weight.
pub proof fn law_learning_keeps_weights_at_most_one(
    v: BrainView,
    added: Seq<Seq<char>>,
    stop: Set<Seq<char>>,
    text: Seq<char>,
    focus: Option<Seq<char>>,
    book: Option<i64>,
    now: Seq<char>,
    now_ms: u64,
)
    requires
        weights_at_most_one(v.relations),
    ensures
        ({
            let b = learning_batch(learner_tokens(added, stop, text), focus);
            weights_at_most_one(after_tracking(v.apply_batch(b.0, b.1, now, now_ms), book, keys_of(b.0)).relations)
        }),
{
    let tokens = learner_tokens(added, stop, text);
    if text.len() > 0 {
        law_tokens_distinct_and_good(jieba_segments(added, text), stop, false);
    }
    assert forall|i: int, j: int| 0 <= i < tokens.len() && 0 <= j < tokens.len() && i != j implies tokens[i] != tokens[j] by {
        if i > j {
            assert(tokens[j] != tokens[i]);
        }
    }
    lemma_batch_weights(tokens, focus);
    let b = learning_batch(tokens, focus);
    law_relation_deltas_keep_weights(v.relations, b.1, now_ms);
    let a = v.apply_batch(b.0, b.1, now, now_ms);
    match book {
        Some(id) => lemma_track_names_keeps(a, id, keys_of(b.0)),
        None => {},
    }
}

/// Learning keeps and adds: after `learn_from_text` every concept that was
/// known is still known with no less energy and count, and the focus concept,
/// when one is given, is known; and when the text gives at least two tokens,
/// every valid token of it is known.
pub proof fn law_learning_adds_tokens(
    v: BrainView,
    tokens: Seq<Seq<char>>,
    focus: Option<Seq<char>>,
    book: Option<i64>,
    now: Seq<char>,
    now_ms: u64,
)
    requires
        v.inv(),
    ensures
        ({
            let b = learning_batch(tokens, focus);
            let w = after_tracking(v.apply_batch(b.0, b.1, now, now_ms), book, keys_of(b.0));
            &&& forall|k: Seq<char>| #[trigger] v.concept(k) is Some ==> {
                &&& w.concept(k) is Some
                &&& w.concept(k)->0.energy >= v.concept(k)->0.energy
                &&& w.concept(k)->0.count >= v.concept(k)->0.count
            }
            &&& focus is Some ==> w.concept(focus->0) is Some
            &&& tokens.len() >= 2 ==> forall|t: int| 0 <= t < tokens.len() && valid_token(#[trigger] tokens[t]) ==> w.concept(tokens[t]) is Some
        }),
{
    let b = learning_batch(tokens, focus);
    let fe = focus_entries(focus);
    assert(unique_keys(fe));
    lemma_learn_windows(fe, Seq::empty(), tokens, tokens.len() - 1, focus);
    law_learning_keeps_knowledge(v, b.0, b.1, now, now_ms);
    let a = v.apply_batch(b.0, b.1, now, now_ms);
    let w = after_tracking(a, book, keys_of(b.0));
    match book {
        Some(id) => lemma_track_names_keeps(a, id, keys_of(b.0)),
        None => {},
    }
    assert(w.concepts == a.concepts);
    if focus is Some {
        let f = focus->0;
        assert(lookup(fe, f) is Some) by {
            assert(fe[0].0 == f);
            lemma_key_index(fe, f);
        }
        lemma_key_index(b.0, f);
        let i = crate::table::key_index(b.0, f);
        assert(b.0[i].0 == f);
        assert(a.concept(b.0[i].0) is Some);
    }
    if tokens.len() >= 2 {
        assert forall|t: int| 0 <= t < tokens.len() && valid_token(#[trigger] tokens[t]) implies w.concept(tokens[t]) is Some by {
            let i = if t < tokens.len() - 1 { t } else { tokens.len() - 2 };
            let j = t - i;
            assert(window_at(tokens, i)[j] == tokens[t]);
            let x = window_at(tokens, i)[j];
            assert(lookup(b.0, x) is Some);
            lemma_key_index(b.0, x);
            let q = crate::table::key_index(b.0, x);
            assert(b.0[q].0 == x);
            assert(a.concept(b.0[q].0) is Some);
        }
    }
}

proof fn lemma_traversal(
    rels: Seq<(Seq<char>, RelationView)>,
    cur: Seq<char>,
    depth: int,
    max_depth: int,
    st: (Seq<Seq<char>>, Seq<(Seq<char>, u64)>),
    name: Seq<char>,
)
    requires
        st.0.contains(name),
        unique_keys(st.1),
        lookup(st.1, name) is None,
    ensures
        traversal(rels, cur, depth, max_depth, st).0.contains(name),
        unique_keys(traversal(rels, cur, depth, max_depth, st).1),
        lookup(traversal(rels, cur, depth, max_depth, st).1, name) is None,
    decreases max_depth - depth + 1, 1int, 0int,
{
    if !(depth > max_depth || st.0.contains(cur)) {
        let i = choose|i: int| 0 <= i < st.0.len() && st.0[i] == name;
        assert(st.0.push(cur)[i] == name);
        lemma_traversal_edges(rels, cur, depth, max_depth, (st.0.push(cur), st.1), relations_touching(rels, cur).len() as int, name);
    }
}

proof fn lemma_traversal_edges(
    rels: Seq<(Seq<char>, RelationView)>,
    cur: Seq<char>,
    depth: int,
    max_depth: int,
    st: (Seq<Seq<char>>, Seq<(Seq<char>, u64)>),
    m: int,
    name: Seq<char>,
)
    requires
        st.0.contains(name),
        unique_keys(st.1),
        lookup(st.1, name) is None,
    ensures
        traversal_edges(rels, cur, depth, max_depth, st, m).0.contains(name),
        unique_keys(traversal_edges(rels, cur, depth, max_depth, st, m).1),
        lookup(traversal_edges(rels, cur, depth, max_depth, st, m).1, name) is None,
    decreases max_depth - depth + 1, 0int, m,
{
    if !(m <= 0 || depth > max_depth) {
        lemma_traversal_edges(rels, cur, depth, max_depth, st, m - 1, name);
        let s1 = traversal_edges(rels, cur, depth, max_depth, st, m - 1);
        let r = relations_touching(rels, cur)[m - 1];
        let n = other_end(r, cur);
        if !s1.0.contains(n) {
            lemma_upsert(s1.1, n, r.weight);
            lemma_traversal(rels, n, depth + 1, max_depth, (s1.0, upsert(s1.1, n, r.weight)), name);
        }
    }
}

/// The concepts related to a concept are each listed once, and the concept
/// itself is not among them.
pub proof fn law_related_concepts_distinct(rels: Seq<(Seq<char>, RelationView)>, name: Seq<char>, max_depth: int)
    requires
        max_depth >= 0,
    ensures
        unique_keys(related_concepts(rels, name, max_depth)),
        lookup(related_concepts(rels, name, max_depth), name) is None,
{
    let st = (Seq::<Seq<char>>::empty(), Seq::<(Seq<char>, u64)>::empty());
    let st1 = (st.0.push(name), st.1);
    assert(st1.0[0] == name);
    lemma_key_index(st1.1, name);
    lemma_traversal_edges(rels, name, 0, max_depth, st1, relations_touching(rels, name).len() as int, name);
}

/// The order of the statistics' top concepts lists every concept once, by
/// non-increasing energy: the ten listed first (all, when there are fewer)
/// have no less energy than any concept after them.
pub proof fn law_top_concepts_by_energy(cs: Seq<(Seq<char>, ConceptView)>, order: Seq<usize>)
    requires
        is_stable_desc_order(energy_keys(cs), order),
    ensures
        order.len() == cs.len(),
        forall|a: int| 0 <= a < order.len() ==> #[trigger] order[a] < cs.len(),
        forall|a: int, b: int| 0 <= a < b < order.len() ==>
            cs[#[trigger] order[a] as int].1.energy >= cs[#[trigger] order[b] as int].1.energy,
{
    let keys = energy_keys(cs);
    assert forall|a: int, b: int| 0 <= a < b < order.len() implies
        cs[#[trigger] order[a] as int].1.energy >= cs[#[trigger] order[b] as int].1.energy by {
        assert(keys[order[a] as int] == cs[order[a] as int].1.energy as i128);
        assert(keys[order[b] as int] == cs[order[b] as int].1.energy as i128);
    }
}

// ---------------------------------------------------------------------------
// Relation weights of a learning batch
// ---------------------------------------------------------------------------

/// The weight a batch holds under relation key `key` (0 when none).
spec fn batch_weight(rs: Seq<(Seq<char>, (u64, u32, Seq<char>, Seq<char>))>, key: Seq<char>) -> int {
    match lookup(rs, key) {
        Some(v) => v.0 as int,
        None => 0,
    }
}

/// The most one pair of tokens adds to a batch in one window: 2.0 / 15.
spec fn max_pair_weight() -> int {
    133_333
}

/// Whether the tokens at `p < q` are both valid and have relation key `key`.
spec fn key_pair(tokens: Seq<Seq<char>>, p: int, q: int, key: Seq<char>) -> bool {
    &&& 0 <= p < q < tokens.len()
    &&& valid_token(tokens[p])
    &&& valid_token(tokens[q])
    &&& relation_key(tokens[p], tokens[q]) == key
}

/// Whether `t` has no `|`.
spec fn no_bar(t: Seq<char>) -> bool {
    forall|i: int| 0 <= i < t.len() ==> #[trigger] t[i] != '|'
}

proof fn lemma_pair_weight_bound(d: int, level: nat)
    requires
        d >= 1,
    ensures
        pair_weight(d, boost_factor(level)) <= max_pair_weight(),
{
    let b = boost_factor(level) as int;
    assert(b <= 2_000_000);
    vstd::arithmetic::div_mod::lemma_div_is_ordered_by_denominator(b, 15, 5 * (2 + d));
    vstd::arithmetic::div_mod::lemma_div_is_ordered(b, 2_000_000, 15);
    assert(2_000_000int / 15 == 133_333);
}

proof fn lemma_valid_no_bar(t: Seq<char>)
    requires
        valid_token(t),
    ensures
        no_bar(t),
{
    assert forall|i: int| 0 <= i < t.len() implies #[trigger] t[i] != '|' by {
        if t[i] == '|' {
            assert(!spec_is_whitespace(t[i]));
            assert(is_token_punctuation(t[i]));
        }
    }
}

proof fn lemma_join_bar_injective(x: Seq<char>, y: Seq<char>, x2: Seq<char>, y2: Seq<char>)
    requires
        no_bar(x),
        no_bar(x2),
        x + "|||"@ + y == x2 + "|||"@ + y2,
    ensures
        x == x2,
        y == y2,
{
    reveal_strlit("|||");
    let s = x + "|||"@ + y;
    let s2 = x2 + "|||"@ + y2;
    if x.len() < x2.len() {
        assert(s[x.len() as int] == '|');
        assert(s2[x.len() as int] == x2[x.len() as int]);
    } else if x2.len() < x.len() {
        assert(s2[x2.len() as int] == '|');
        assert(s[x2.len() as int] == x[x2.len() as int]);
    }
    assert(x =~= s.subrange(0, x.len() as int));
    assert(x2 =~= s2.subrange(0, x.len() as int));
    assert(y =~= s.subrange(x.len() as int + 3, s.len() as int));
    assert(y2 =~= s2.subrange(x.len() as int + 3, s.len() as int));
}

proof fn lemma_relation_key_injective(a: Seq<char>, b: Seq<char>, c: Seq<char>, e: Seq<char>)
    requires
        valid_token(a),
        valid_token(b),
        valid_token(c),
        valid_token(e),
        relation_key(a, b) == relation_key(c, e),
    ensures
        (a == c && b == e) || (a == e && b == c),
{
    lemma_valid_no_bar(a);
    lemma_valid_no_bar(b);
    lemma_valid_no_bar(c);
    lemma_valid_no_bar(e);
    let (x, y) = if str_less(b, a) { (b, a) } else { (a, b) };
    let (x2, y2) = if str_less(e, c) { (e, c) } else { (c, e) };
    assert(relation_key(a, b) == x + "|||"@ + y);
    assert(relation_key(c, e) == x2 + "|||"@ + y2);
    lemma_join_bar_injective(x, y, x2, y2);
}

/// A relation key belongs to one pair of positions of distinct tokens.
proof fn lemma_key_pair_unique(tokens: Seq<Seq<char>>, p: int, q: int, p2: int, q2: int, key: Seq<char>)
    requires
        tokens.no_duplicates(),
        key_pair(tokens, p, q, key),
        key_pair(tokens, p2, q2, key),
    ensures
        p == p2,
        q == q2,
{
    lemma_relation_key_injective(tokens[p], tokens[q], tokens[p2], tokens[q2]);
}

proof fn lemma_add_pair_weight(
    rs: Seq<(Seq<char>, (u64, u32, Seq<char>, Seq<char>))>,
    a: Seq<char>,
    b: Seq<char>,
    wt: u64,
    key: Seq<char>,
)
    requires
        unique_keys(rs),
    ensures
        unique_keys(add_pair(rs, a, b, wt)),
        key != relation_key(a, b) ==> batch_weight(add_pair(rs, a, b, wt), key) == batch_weight(rs, key),
        key == relation_key(a, b) ==> batch_weight(add_pair(rs, a, b, wt), key) <= batch_weight(rs, key) + wt,
        key == relation_key(a, b) && batch_weight(rs, key) + wt <= u64::MAX ==> batch_weight(add_pair(rs, a, b, wt), key)
            == batch_weight(rs, key) + wt,
        batch_weight(rs, key) >= 0,
{
    let k = relation_key(a, b);
    let v = match lookup(rs, k) {
        Some(v) => (sat_add(v.0, wt), sat_add32(v.1, 1), v.2, v.3),
        None => if str_less(a, b) {
            (wt, 1u32, a, b)
        } else {
            (wt, 1u32, b, a)
        },
    };
    lemma_upsert(rs, k, v);
}

/// What is known of the pair of positions with relation key `key`: it is
/// `(p, q)` when `known`, and there is none otherwise.
spec fn key_info(tokens: Seq<Seq<char>>, key: Seq<char>, known: bool, p: int, q: int) -> bool {
    &&& known ==> key_pair(tokens, p, q, key)
    &&& !known ==> forall|p2: int, q2: int| !#[trigger] key_pair(tokens, p2, q2, key)
}

/// What the pair of positions `p < q` gains in one window holding both:
/// 0.1 times the focus boost of the two tokens, divided by 1 + (q - p) / 2.
spec fn pair_gain(tokens: Seq<Seq<char>>, p: int, q: int, focus: Option<Seq<char>>) -> int {
    pair_weight(q - p, boost_factor(focus_level(tokens[p], tokens[q], focus))) as int
}

proof fn lemma_row_weight(
    rs: Seq<(Seq<char>, (u64, u32, Seq<char>, Seq<char>))>,
    tokens: Seq<Seq<char>>,
    s: int,
    j: int,
    k_end: int,
    focus: Option<Seq<char>>,
    key: Seq<char>,
    known: bool,
    p: int,
    q: int,
)
    requires
        unique_keys(rs),
        tokens.no_duplicates(),
        key_info(tokens, key, known, p, q),
        0 <= s < tokens.len(),
        0 <= j,
        k_end <= window_at(tokens, s).len(),
        batch_weight(rs, key) <= 10_000_000,
    ensures
        unique_keys(row_pairs(rs, window_at(tokens, s), j, k_end, focus)),
        batch_weight(row_pairs(rs, window_at(tokens, s), j, k_end, focus), key) == batch_weight(rs, key) + (if known
            && p == s + j && j < q - s < k_end {
            pair_gain(tokens, p, q, focus)
        } else {
            0
        }),
    decreases k_end - j,
{
    let w = window_at(tokens, s);
    if k_end > j + 1 {
        let k = k_end - 1;
        lemma_row_weight(rs, tokens, s, j, k, focus, key, known, p, q);
        let prev = row_pairs(rs, w, j, k, focus);
        if valid_token(w[j]) && valid_token(w[k]) {
            let level = focus_level(w[j], w[k], focus);
            let wt = pair_weight(k - j, boost_factor(level));
            lemma_pair_weight_bound(k - j, level);
            lemma_add_pair_weight(prev, w[j], w[k], wt, key);
            assert(w[j] == tokens[s + j] && w[k] == tokens[s + k]);
            if key == relation_key(w[j], w[k]) {
                assert(key_pair(tokens, s + j, s + k, key));
                if known {
                    lemma_key_pair_unique(tokens, p, q, s + j, s + k, key);
                }
            } else if known && p == s + j && q == s + k {
                assert(key_pair(tokens, p, q, key));
            }
        } else if known && p == s + j && q == s + k {
            assert(w[j] == tokens[s + j] && w[k] == tokens[s + k]);
            assert(key_pair(tokens, p, q, key));
        }
    }
}

proof fn lemma_window_weight(
    rs: Seq<(Seq<char>, (u64, u32, Seq<char>, Seq<char>))>,
    tokens: Seq<Seq<char>>,
    s: int,
    j_end: int,
    focus: Option<Seq<char>>,
    key: Seq<char>,
    known: bool,
    p: int,
    q: int,
)
    requires
        unique_keys(rs),
        tokens.no_duplicates(),
        key_info(tokens, key, known, p, q),
        0 <= s < tokens.len(),
        j_end <= window_at(tokens, s).len(),
        batch_weight(rs, key) <= 5_000_000,
    ensures
        unique_keys(window_pairs(rs, window_at(tokens, s), j_end, focus)),
        batch_weight(window_pairs(rs, window_at(tokens, s), j_end, focus), key) == batch_weight(rs, key) + (if known
            && s <= p < s + j_end && q - s < window_at(tokens, s).len() {
            pair_gain(tokens, p, q, focus)
        } else {
            0
        }),
    decreases j_end,
{
    let w = window_at(tokens, s);
    if j_end > 0 {
        lemma_window_weight(rs, tokens, s, j_end - 1, focus, key, known, p, q);
        let prev = window_pairs(rs, w, j_end - 1, focus);
        if known {
            lemma_pair_weight_bound(q - p, focus_level(tokens[p], tokens[q], focus));
        }
        lemma_row_weight(prev, tokens, s, j_end - 1, w.len() as int, focus, key, known, p, q);
    }
}

/// The number of windows among the first `n` (each of six tokens, starting
/// at consecutive positions) that hold positions `p` and `q`.
pub open spec fn windows_holding(n: int, p: int, q: int) -> int {
    let lo = if q - 5 > 0 { q - 5 } else { 0 };
    let hi = if n < p + 1 { n } else { p + 1 };
    if hi > lo { hi - lo } else { 0 }
}

proof fn lemma_windows_weight(
    cs: Seq<(Seq<char>, (u64, u32))>,
    rs: Seq<(Seq<char>, (u64, u32, Seq<char>, Seq<char>))>,
    tokens: Seq<Seq<char>>,
    i_end: int,
    focus: Option<Seq<char>>,
    key: Seq<char>,
    known: bool,
    p: int,
    q: int,
)
    requires
        unique_keys(rs),
        tokens.no_duplicates(),
        key_info(tokens, key, known, p, q),
        i_end <= tokens.len(),
        batch_weight(rs, key) <= 1_000_000,
    ensures
        unique_keys(learn_windows(cs, rs, tokens, i_end, focus).1),
        batch_weight(learn_windows(cs, rs, tokens, i_end, focus).1, key) == batch_weight(rs, key) + (if known {
            pair_gain(tokens, p, q, focus) * windows_holding(i_end, p, q)
        } else {
            0
        }),
    decreases i_end,
{
    if i_end > 0 {
        lemma_windows_weight(cs, rs, tokens, i_end - 1, focus, key, known, p, q);
        let prev = learn_windows(cs, rs, tokens, i_end - 1, focus);
        let s = i_end - 1;
        let w = window_at(tokens, s);
        if known {
            lemma_pair_weight_bound(q - p, focus_level(tokens[p], tokens[q], focus));
            let g = pair_gain(tokens, p, q, focus);
            let c = windows_holding(i_end - 1, p, q);
            assert(0 <= c <= 5);
            assert(g * c <= max_pair_weight() * 5) by (nonlinear_arith)
                requires
                    0 <= g <= max_pair_weight(),
                    0 <= c <= 5,
            ;
            assert(windows_holding(i_end, p, q) == c + (if q - 5 <= s <= p { 1int } else { 0int }));
            assert(g * windows_holding(i_end, p, q) == g * c + (if q - 5 <= s <= p { g } else { 0 })) by (nonlinear_arith)
                requires
                    windows_holding(i_end, p, q) == c + (if q - 5 <= s <= p { 1int } else { 0int });
        }
        lemma_window_weight(prev.1, tokens, s, w.len() as int, focus, key, known, p, q);
    } else {
        assert(learn_windows(cs, rs, tokens, i_end, focus).1 == rs);
    }
}

/// Every relation weight of a learning batch over distinct tokens is at most
/// 5 * 2.0 / 15: a pair of positions shares at most five windows, and adds
/// at most 2.0 / 15 in each.
proof fn lemma_batch_weights(tokens: Seq<Seq<char>>, focus: Option<Seq<char>>)
    requires
        tokens.no_duplicates(),
    ensures
        forall|i: int| 0 <= i < learning_batch(tokens, focus).1.len() ==> #[trigger] learning_batch(tokens, focus).1[i].1.0 <= UNIT,
{
    let b = learning_batch(tokens, focus);
    let e = Seq::<(Seq<char>, (u64, u32, Seq<char>, Seq<char>))>::empty();
    assert(unique_keys(e));
    assert forall|i: int| 0 <= i < b.1.len() implies #[trigger] b.1[i].1.0 <= UNIT by {
        let key = b.1[i].0;
        assert(batch_weight(e, key) == 0) by {
            lemma_key_index(e, key);
        }
        if exists|p: int, q: int| key_pair(tokens, p, q, key) {
            let pq: (int, int) = choose|p: int, q: int| key_pair(tokens, p, q, key);
            let p: int = pq.0;
            let q: int = pq.1;
            lemma_windows_weight(focus_entries(focus), e, tokens, tokens.len() - 1, focus, key, true, p, q);
            lemma_pair_weight_bound(q - p, focus_level(tokens[p], tokens[q], focus));
            let g = pair_gain(tokens, p, q, focus);
            assert(windows_holding(tokens.len() - 1, p, q) <= 5);
            assert(g * windows_holding(tokens.len() - 1, p, q) <= max_pair_weight() * 5) by (nonlinear_arith)
                requires
                    0 <= windows_holding(tokens.len() - 1, p, q) <= 5,
                    0 <= g <= max_pair_weight();
        } else {
            lemma_windows_weight(focus_entries(focus), e, tokens, tokens.len() - 1, focus, key, false, 0, 0);
        }
        lemma_key_index(b.1, key);
        assert(key_index(b.1, key) == i);
        assert(batch_weight(b.1, key) == b.1[i].1.0);
    }
}

proof fn lemma_concept_deltas_grow(cs: Seq<(Seq<char>, ConceptView)>, deltas: Seq<(Seq<char>, (u64, u32))>, now: Seq<char>)
    ensures
        apply_concept_deltas(cs, deltas, now).len() >= cs.len(),
    decreases deltas.len(),
{
    if deltas.len() > 0 {
        lemma_concept_deltas_grow(cs, deltas.drop_last(), now);
        let p = apply_concept_deltas(cs, deltas.drop_last(), now);
        lemma_key_index(p, deltas.last().0);
    }
}

proof fn lemma_relation_deltas_grow(
    rs: Seq<(Seq<char>, RelationView)>,
    deltas: Seq<(Seq<char>, (u64, u32, Seq<char>, Seq<char>))>,
    now_ms: u64,
)
    ensures
        apply_relation_deltas(rs, deltas, now_ms).len() >= rs.len(),
    decreases deltas.len(),
{
    if deltas.len() > 0 {
        lemma_relation_deltas_grow(rs, deltas.drop_last(), now_ms);
        let p = apply_relation_deltas(rs, deltas.drop_last(), now_ms);
        let d = deltas.last();
        lemma_key_index(p, batch_relation_id(d.1.2, d.1.3));
    }
}

/// Learning from a text never forgets and stays in range: after the batch
/// of the text's tokens is applied and tracked, every concept and relation
/// that was known is still known, the focus concept (when given) is known,
/// there are no fewer concepts or relations, and relation weights stay
/// within 1.0 when they were.
pub proof fn law_learning_from_text(
    v: BrainView,
    added: Seq<Seq<char>>,
    stop: Set<Seq<char>>,
    text: Seq<char>,
    focus: Option<Seq<char>>,
    book: Option<i64>,
    now: Seq<char>,
    now_ms: u64,
)
    requires
        v.inv(),
    ensures
        ({
            let b = learning_batch(learner_tokens(added, stop, text), focus);
            let w = after_tracking(v.apply_batch(b.0, b.1, now, now_ms), book, keys_of(b.0));
            &&& weights_at_most_one(v.relations) ==> weights_at_most_one(w.relations)
            &&& forall|k: Seq<char>| #[trigger] v.concept(k) is Some ==> w.concept(k) is Some
            &&& forall|k: Seq<char>| #[trigger] v.relation(k) is Some ==> w.relation(k) is Some
            &&& focus is Some ==> w.concept(focus->0) is Some
            &&& w.concepts.len() >= v.concepts.len()
            &&& w.relations.len() >= v.relations.len()
        }),
{
    let tokens = learner_tokens(added, stop, text);
    let b = learning_batch(tokens, focus);
    let a = v.apply_batch(b.0, b.1, now, now_ms);
    law_learning_adds_tokens(v, tokens, focus, book, now, now_ms);
    law_learning_keeps_knowledge(v, b.0, b.1, now, now_ms);
    if weights_at_most_one(v.relations) {
        law_learning_keeps_weights_at_most_one(v, added, stop, text, focus, book, now, now_ms);
    }
    match book {
        Some(id) => lemma_track_names_keeps(a, id, keys_of(b.0)),
        None => {},
    }
    lemma_concept_deltas_grow(v.concepts, b.0, now);
    lemma_relation_deltas_grow(v.relations, b.1, now_ms);
}

/// Nearer words bind more strongly: for the same focus boost, a pair of
/// tokens farther apart in a window gains strictly less weight than a nearer
/// pair (0.1 times the boost, divided by 1 + distance / 2).
pub proof fn law_pair_weight_decreases_with_distance(d: int, e: int, level: nat)
    requires
        1 <= d < e <= 5,
    ensures
        pair_weight(e, boost_factor(level)) < pair_weight(d, boost_factor(level)),
        pair_weight(d, boost_factor(level)) > 0,
{
    let b = boost_factor(level) as int;
    assert(b == 1_000_000 || b == 1_414_214 || b == 2_000_000);
    assert(pair_weight(e, boost_factor(level)) == b / (5 * (2 + e)));
    assert(pair_weight(d, boost_factor(level)) == b / (5 * (2 + d)));
    if d == 1 {
        if e == 2 { assert(b / 20 < b / 15); } else if e == 3 { assert(b / 25 < b / 15); } else if e == 4 { assert(b / 30 < b / 15); } else { assert(b / 35 < b / 15); }
    } else if d == 2 {
        if e == 3 { assert(b / 25 < b / 20); } else if e == 4 { assert(b / 30 < b / 20); } else { assert(b / 35 < b / 20); }
    } else if d == 3 {
        if e == 4 { assert(b / 30 < b / 25); } else { assert(b / 35 < b / 25); }
    } else {
        assert(b / 35 < b / 30);
    }
}

/// The weight a learning batch over distinct tokens gives the pair of valid
/// tokens at positions `p < q`: what the pair gains in one window (0.1 times
/// its focus boost over 1 + (q - p) / 2), once for every window of six
/// tokens that holds both; nothing when they are more than five apart.
pub proof fn law_batch_pair_weight(tokens: Seq<Seq<char>>, focus: Option<Seq<char>>, p: int, q: int)
    requires
        tokens.no_duplicates(),
        0 <= p < q < tokens.len(),
        valid_token(tokens[p]),
        valid_token(tokens[q]),
    ensures
        (match lookup(learning_batch(tokens, focus).1, relation_key(tokens[p], tokens[q])) {
            Some(e) => e.0 as int,
            None => 0,
        }) == pair_weight(q - p, boost_factor(focus_level(tokens[p], tokens[q], focus))) * windows_holding(
            tokens.len() - 1,
            p,
            q,
        ),
        q - p > 5 ==> windows_holding(tokens.len() - 1, p, q) == 0,
        q - p <= 5 && p < tokens.len() - 1 ==> windows_holding(tokens.len() - 1, p, q) >= 1,
{
    let key = relation_key(tokens[p], tokens[q]);
    let e = Seq::<(Seq<char>, (u64, u32, Seq<char>, Seq<char>))>::empty();
    assert(unique_keys(e));
    assert(batch_weight(e, key) == 0) by {
        lemma_key_index(e, key);
    }
    assert(key_pair(tokens, p, q, key));
    lemma_windows_weight(focus_entries(focus), e, tokens, tokens.len() - 1, focus, key, true, p, q);
}

} // verus!
