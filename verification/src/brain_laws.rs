//! Properties of the knowledge graph that span several operations.

use vstd::prelude::*;
use crate::brain::{
    BookMetadataView, BookView, BrainView, ConceptView, RelationView, apply_concept_delta, apply_concept_deltas,
    apply_relation_delta, apply_relation_deltas, batch_relation_id, capped_weight,
    concept_keep_mask, decay, decay_concepts, decay_relations, is_connected,
    lemma_relation_key_symmetric, new_concept, relation_id, relation_keep_mask, sat_add,
    sat_add32, UNIT,
};
use crate::inference_laws::weights_at_most_one;
use crate::table::{filter_mask, key_index, lookup, unique_keys, upsert, lemma_key_index, lemma_upsert, lemma_filter_mask_len, lemma_filter_mask_unique};

verus! {

// ---------------------------------------------------------------------------
// Helpers on association lists
// ---------------------------------------------------------------------------

proof fn lemma_lookup_push<T>(s: Seq<(Seq<char>, T)>, k: Seq<char>, v: T)
    ensures
        lookup(s.push((k, v)), k) == Some(v),
{
    assert(s.push((k, v)).drop_last() =~= s);
}

proof fn lemma_push_absent<T>(s: Seq<(Seq<char>, T)>, k: Seq<char>, v: T)
    requires
        unique_keys(s),
        lookup(s, k) is None,
    ensures
        unique_keys(s.push((k, v))),
        forall|k2: Seq<char>| k2 != k ==> lookup(s.push((k, v)), k2) == lookup(s, k2),
{
    lemma_key_index(s, k);
    assert(upsert(s, k, v) == s.push((k, v)));
    lemma_upsert(s, k, v);
}

/// The position in `s` of the element at position `a` of `filter_mask(s, m)`.
spec fn mask_origin<T>(s: Seq<T>, m: Seq<bool>, a: int) -> int
    decreases s.len(),
{
    if s.len() == 0 {
        0
    } else if m[s.len() - 1] && a == filter_mask(s.drop_last(), m).len() {
        s.len() - 1
    } else {
        mask_origin(s.drop_last(), m, a)
    }
}

/// Every element of `filter_mask(s, m)` is an element of `s` whose position is
/// marked.
proof fn lemma_filter_mask_marked<T>(s: Seq<T>, m: Seq<bool>, a: int)
    requires
        0 <= a < filter_mask(s, m).len(),
    ensures
        0 <= mask_origin(s, m, a) < s.len(),
        m[mask_origin(s, m, a)],
        s[mask_origin(s, m, a)] == filter_mask(s, m)[a],
    decreases s.len(),
{
    let d = s.drop_last();
    if m[s.len() - 1] && a == filter_mask(d, m).len() {
    } else {
        lemma_filter_mask_marked(d, m, a);
        assert(s[mask_origin(d, m, a)] == d[mask_origin(d, m, a)]);
    }
}

// ---------------------------------------------------------------------------
// Creating concepts and relations
// ---------------------------------------------------------------------------

/// Asking for a concept twice creates it once: the second call of
/// `get_or_create_concept` leaves the graph as the first call left it, and the
/// concept is then present.
pub proof fn law_get_or_create_concept_idempotent(v: BrainView, name: Seq<char>, t1: Seq<char>, t2: Seq<char>)
    requires
        v.inv(),
    ensures
        v.ensure_concept(name, t1).inv(),
        v.ensure_concept(name, t1).concept(name) is Some,
        v.ensure_concept(name, t1).ensure_concept(name, t2) == v.ensure_concept(name, t1),
{
    if v.concept(name) is None {
        lemma_key_index(v.concepts, name);
        lemma_push_absent(v.concepts, name, new_concept(t1));
        lemma_lookup_push(v.concepts, name, new_concept(t1));
    }
}

/// A relation has no direction: the relation between `a` and `b` is the
/// relation between `b` and `a`.
pub proof fn law_relation_symmetric(v: BrainView, a: Seq<char>, b: Seq<char>)
    ensures
        v.relation(relation_id(a, b)) == v.relation(relation_id(b, a)),
{
    lemma_relation_key_symmetric(a, b);
}

/// Adding the relation between `a` and `b` and then the one between `b` and
/// `a` stores one relation: the second call of `add_or_update_relation`
/// changes nothing.
pub proof fn law_add_relation_once(v: BrainView, a: Seq<char>, b: Seq<char>, t1: u64, t2: u64)
    requires
        v.inv(),
    ensures
        v.add_relation(a, b, t1).inv(),
        v.add_relation(a, b, t1).relation(relation_id(a, b)) is Some,
        v.add_relation(a, b, t1).add_relation(b, a, t2) == v.add_relation(a, b, t1),
        v.add_relation(a, b, t1).relations.len() <= v.relations.len() + 1,
{
    lemma_relation_key_symmetric(a, b);
    let id = relation_id(a, b);
    if v.relation(id) is None {
        let r = RelationView { id, source: a, target: b, weight: 0, count: 0, last_updated: t1 };
        lemma_key_index(v.relations, id);
        lemma_push_absent(v.relations, id, r);
        lemma_lookup_push(v.relations, id, r);
        let w = v.add_relation(a, b, t1);
        assert forall|i: int| 0 <= i < w.relations.len() implies #[trigger] w.relations[i].1.id == w.relations[i].0 by {
            if i < v.relations.len() {
                assert(w.relations[i] == v.relations[i]);
            }
        }
    }
}

/// Strengthening a relation never takes its weight above 1.0, and never
/// lowers a weight that is at most 1.0.
pub proof fn law_update_relation_caps_weight(v: BrainView, id: Seq<char>, weight_delta: u64, count_delta: u32, now_ms: u64)
    requires
        v.inv(),
        v.relation(id) is Some,
    ensures
        v.update_relation(id, weight_delta, count_delta, now_ms).relation(id) is Some,
        v.update_relation(id, weight_delta, count_delta, now_ms).relation(id)->0.weight <= UNIT,
        v.update_relation(id, weight_delta, count_delta, now_ms).relation(id)->0.weight >= min_unit(v.relation(id)->0.weight),
{
    let r = v.relation(id)->0;
    lemma_upsert(v.relations, id, RelationView {
        weight: capped_weight(r.weight, weight_delta),
        count: sat_add32(r.count, count_delta),
        last_updated: now_ms,
        ..r
    });
}

// ---------------------------------------------------------------------------
// Learning batches
// ---------------------------------------------------------------------------

proof fn lemma_apply_concept_deltas(cs: Seq<(Seq<char>, ConceptView)>, deltas: Seq<(Seq<char>, (u64, u32))>, now: Seq<char>)
    requires
        unique_keys(cs),
    ensures
        unique_keys(apply_concept_deltas(cs, deltas, now)),
        forall|k: Seq<char>| #[trigger] lookup(cs, k) is Some ==> {
            &&& lookup(apply_concept_deltas(cs, deltas, now), k) is Some
            &&& lookup(apply_concept_deltas(cs, deltas, now), k)->0.energy >= lookup(cs, k)->0.energy
            &&& lookup(apply_concept_deltas(cs, deltas, now), k)->0.count >= lookup(cs, k)->0.count
        },
        forall|i: int| 0 <= i < deltas.len() ==> lookup(apply_concept_deltas(cs, deltas, now), #[trigger] deltas[i].0) is Some,
    decreases deltas.len(),
{
    if deltas.len() > 0 {
        let prev = apply_concept_deltas(cs, deltas.drop_last(), now);
        lemma_apply_concept_deltas(cs, deltas.drop_last(), now);
        let d = deltas.last();
        let next = apply_concept_delta(prev, d.0, d.1.0, d.1.1, now);
        assert(next == apply_concept_deltas(cs, deltas, now));
        match lookup(prev, d.0) {
            Some(c) => {
                let nc = ConceptView {
                    energy: sat_add(c.energy, d.1.0),
                    count: sat_add32(c.count, d.1.1),
                    last_seen: now,
                    ..c
                };
                lemma_upsert(prev, d.0, nc);
            },
            None => {
                let nc = ConceptView { energy: d.1.0, count: d.1.1, first_seen: now, last_seen: now, description: None };
                lemma_push_absent(prev, d.0, nc);
                lemma_lookup_push(prev, d.0, nc);
            },
        }
        assert forall|i: int| 0 <= i < deltas.len() implies lookup(next, #[trigger] deltas[i].0) is Some by {
            if i < deltas.len() - 1 {
                assert(deltas.drop_last()[i] == deltas[i]);
            }
        }
    }
}

proof fn lemma_apply_relation_deltas(
    rs: Seq<(Seq<char>, RelationView)>,
    deltas: Seq<(Seq<char>, (u64, u32, Seq<char>, Seq<char>))>,
    now_ms: u64,
)
    requires
        unique_keys(rs),
    ensures
        unique_keys(apply_relation_deltas(rs, deltas, now_ms)),
        forall|k: Seq<char>| #[trigger] lookup(rs, k) is Some ==> {
            &&& lookup(apply_relation_deltas(rs, deltas, now_ms), k) is Some
            &&& lookup(apply_relation_deltas(rs, deltas, now_ms), k)->0.count >= lookup(rs, k)->0.count
            &&& lookup(apply_relation_deltas(rs, deltas, now_ms), k)->0.weight >= min_unit(lookup(rs, k)->0.weight)
        },
        forall|i: int| 0 <= i < deltas.len() ==> lookup(
            apply_relation_deltas(rs, deltas, now_ms),
            batch_relation_id(#[trigger] deltas[i].1.2, deltas[i].1.3),
        ) is Some,
    decreases deltas.len(),
{
    if deltas.len() > 0 {
        let prev = apply_relation_deltas(rs, deltas.drop_last(), now_ms);
        lemma_apply_relation_deltas(rs, deltas.drop_last(), now_ms);
        let d = deltas.last();
        let id = batch_relation_id(d.1.2, d.1.3);
        let next = apply_relation_delta(prev, d.1.0, d.1.1, d.1.2, d.1.3, now_ms);
        assert(next == apply_relation_deltas(rs, deltas, now_ms));
        match lookup(prev, id) {
            Some(r) => {
                let nr = RelationView {
                    weight: capped_weight(r.weight, d.1.0),
                    count: sat_add32(r.count, d.1.1),
                    last_updated: now_ms,
                    ..r
                };
                lemma_upsert(prev, id, nr);
            },
            None => {
                let nr = RelationView { id, source: d.1.2, target: d.1.3, weight: d.1.0, count: d.1.1, last_updated: now_ms };
                lemma_push_absent(prev, id, nr);
                lemma_lookup_push(prev, id, nr);
            },
        }
        assert forall|i: int| 0 <= i < deltas.len() implies lookup(
            next,
            batch_relation_id(#[trigger] deltas[i].1.2, deltas[i].1.3),
        ) is Some by {
            if i < deltas.len() - 1 {
                assert(deltas.drop_last()[i] == deltas[i]);
            }
        }
    }
}

proof fn lemma_relation_deltas_concat(
    rs: Seq<(Seq<char>, RelationView)>,
    a: Seq<(Seq<char>, (u64, u32, Seq<char>, Seq<char>))>,
    b: Seq<(Seq<char>, (u64, u32, Seq<char>, Seq<char>))>,
    now_ms: u64,
)
    ensures
        apply_relation_deltas(rs, a + b, now_ms) == apply_relation_deltas(apply_relation_deltas(rs, a, now_ms), b, now_ms),
    decreases b.len(),
{
    if b.len() == 0 {
        assert(a + b =~= a);
    } else {
        lemma_relation_deltas_concat(rs, a, b.drop_last(), now_ms);
        assert((a + b).drop_last() =~= a + b.drop_last());
        assert((a + b).last() == b.last());
    }
}

proof fn lemma_relation_deltas_elsewhere(
    rs: Seq<(Seq<char>, RelationView)>,
    deltas: Seq<(Seq<char>, (u64, u32, Seq<char>, Seq<char>))>,
    now_ms: u64,
    id: Seq<char>,
)
    requires
        unique_keys(rs),
        forall|j: int| 0 <= j < deltas.len() ==> batch_relation_id(#[trigger] deltas[j].1.2, deltas[j].1.3) != id,
    ensures
        unique_keys(apply_relation_deltas(rs, deltas, now_ms)),
        lookup(apply_relation_deltas(rs, deltas, now_ms), id) == lookup(rs, id),
    decreases deltas.len(),
{
    if deltas.len() > 0 {
        let e = deltas.drop_last();
        assert forall|j: int| 0 <= j < e.len() implies batch_relation_id(#[trigger] e[j].1.2, e[j].1.3) != id by {
            assert(e[j] == deltas[j]);
        }
        lemma_relation_deltas_elsewhere(rs, e, now_ms, id);
        let prev = apply_relation_deltas(rs, e, now_ms);
        let d = deltas.last();
        assert(d == deltas[deltas.len() - 1]);
        let did = batch_relation_id(d.1.2, d.1.3);
        match lookup(prev, did) {
            Some(r) => {
                let nr = RelationView {
                    weight: capped_weight(r.weight, d.1.0),
                    count: sat_add32(r.count, d.1.1),
                    last_updated: now_ms,
                    ..r
                };
                lemma_upsert(prev, did, nr);
            },
            None => {
                let nr = RelationView { id: did, source: d.1.2, target: d.1.3, weight: d.1.0, count: d.1.1, last_updated: now_ms };
                lemma_push_absent(prev, did, nr);
            },
        }
    }
}

/// Applying a batch strengthens a relation that is seen again: when one
/// entry of the batch (and no other) writes a relation, the relation's
/// weight afterwards is its weight before plus the entry's weight, capped
/// at 1.0, and its count grows by the entry's count (capped at `u32::MAX`);
/// a relation that was not there gets the entry's weight and count.
pub proof fn law_batch_strengthens_relation(
    v: BrainView,
    concepts: Seq<(Seq<char>, (u64, u32))>,
    relations: Seq<(Seq<char>, (u64, u32, Seq<char>, Seq<char>))>,
    now: Seq<char>,
    now_ms: u64,
    i: int,
)
    requires
        v.inv(),
        0 <= i < relations.len(),
        forall|j: int| 0 <= j < relations.len() && j != i ==> batch_relation_id(#[trigger] relations[j].1.2, relations[j].1.3)
            != batch_relation_id(relations[i].1.2, relations[i].1.3),
    ensures
        ({
            let id = batch_relation_id(relations[i].1.2, relations[i].1.3);
            let d = relations[i].1;
            let w = v.apply_batch(concepts, relations, now, now_ms);
            &&& w.relation(id) is Some
            &&& match v.relation(id) {
                Some(r) => {
                    &&& w.relation(id)->0.weight == (if r.weight + d.0 > UNIT { UNIT as int } else { r.weight + d.0 })
                    &&& w.relation(id)->0.count == (if r.count + d.1 > u32::MAX { u32::MAX as int } else { r.count + d.1 })
                },
                None => {
                    &&& w.relation(id)->0.weight == d.0
                    &&& w.relation(id)->0.count == d.1
                },
            }
        }),
{
    let id = batch_relation_id(relations[i].1.2, relations[i].1.3);
    let d = relations[i];
    let a = relations.take(i);
    let b = relations.skip(i + 1);
    assert(relations =~= a + seq![d] + b);
    lemma_relation_deltas_concat(v.relations, a + seq![d], b, now_ms);
    lemma_relation_deltas_concat(v.relations, a, seq![d], now_ms);
    assert forall|j: int| 0 <= j < a.len() implies batch_relation_id(#[trigger] a[j].1.2, a[j].1.3) != id by {
        assert(a[j] == relations[j]);
    }
    lemma_relation_deltas_elsewhere(v.relations, a, now_ms, id);
    let pa = apply_relation_deltas(v.relations, a, now_ms);
    assert(seq![d].drop_last() =~= Seq::<(Seq<char>, (u64, u32, Seq<char>, Seq<char>))>::empty());
    assert(apply_relation_deltas(pa, seq![d].drop_last(), now_ms) == pa);
    assert(seq![d].last() == d);
    assert(apply_relation_deltas(pa, seq![d], now_ms) == apply_relation_delta(pa, d.1.0, d.1.1, d.1.2, d.1.3, now_ms));
    let pd = apply_relation_delta(pa, d.1.0, d.1.1, d.1.2, d.1.3, now_ms);
    match lookup(pa, id) {
        Some(r) => {
            let nr = RelationView {
                weight: capped_weight(r.weight, d.1.0),
                count: sat_add32(r.count, d.1.1),
                last_updated: now_ms,
                ..r
            };
            lemma_upsert(pa, id, nr);
        },
        None => {
            let nr = RelationView { id, source: d.1.2, target: d.1.3, weight: d.1.0, count: d.1.1, last_updated: now_ms };
            lemma_push_absent(pa, id, nr);
            lemma_lookup_push(pa, id, nr);
        },
    }
    assert forall|j: int| 0 <= j < b.len() implies batch_relation_id(#[trigger] b[j].1.2, b[j].1.3) != id by {
        assert(b[j] == relations[i + 1 + j]);
    }
    lemma_relation_deltas_elsewhere(pd, b, now_ms, id);
}

proof fn lemma_concept_deltas_concat(
    cs: Seq<(Seq<char>, ConceptView)>,
    a: Seq<(Seq<char>, (u64, u32))>,
    b: Seq<(Seq<char>, (u64, u32))>,
    now: Seq<char>,
)
    ensures
        apply_concept_deltas(cs, a + b, now) == apply_concept_deltas(apply_concept_deltas(cs, a, now), b, now),
    decreases b.len(),
{
    if b.len() == 0 {
        assert(a + b =~= a);
    } else {
        lemma_concept_deltas_concat(cs, a, b.drop_last(), now);
        assert((a + b).drop_last() =~= a + b.drop_last());
        assert((a + b).last() == b.last());
    }
}

proof fn lemma_concept_deltas_elsewhere(cs: Seq<(Seq<char>, ConceptView)>, deltas: Seq<(Seq<char>, (u64, u32))>, now: Seq<char>, name: Seq<char>)
    requires
        unique_keys(cs),
        forall|j: int| 0 <= j < deltas.len() ==> (#[trigger] deltas[j]).0 != name,
    ensures
        unique_keys(apply_concept_deltas(cs, deltas, now)),
        lookup(apply_concept_deltas(cs, deltas, now), name) == lookup(cs, name),
    decreases deltas.len(),
{
    if deltas.len() > 0 {
        let e = deltas.drop_last();
        assert forall|j: int| 0 <= j < e.len() implies (#[trigger] e[j]).0 != name by {
            assert(e[j] == deltas[j]);
        }
        lemma_concept_deltas_elsewhere(cs, e, now, name);
        let prev = apply_concept_deltas(cs, e, now);
        let d = deltas.last();
        assert(d == deltas[deltas.len() - 1]);
        match lookup(prev, d.0) {
            Some(c) => {
                let nc = ConceptView { energy: sat_add(c.energy, d.1.0), count: sat_add32(c.count, d.1.1), last_seen: now, ..c };
                lemma_upsert(prev, d.0, nc);
            },
            None => {
                let nc = ConceptView { energy: d.1.0, count: d.1.1, first_seen: now, last_seen: now, description: None };
                lemma_push_absent(prev, d.0, nc);
            },
        }
    }
}

/// Applying a batch strengthens a concept that is mentioned again: when one
/// entry of the batch (and no other) names a concept, its energy afterwards
/// is its energy before plus the entry's energy and its count grows by the
/// entry's count (both capped at their type's maximum); a concept that was
/// not there gets the entry's energy and count.
pub proof fn law_batch_strengthens_concept(
    v: BrainView,
    concepts: Seq<(Seq<char>, (u64, u32))>,
    relations: Seq<(Seq<char>, (u64, u32, Seq<char>, Seq<char>))>,
    now: Seq<char>,
    now_ms: u64,
    i: int,
)
    requires
        v.inv(),
        0 <= i < concepts.len(),
        forall|j: int| 0 <= j < concepts.len() && j != i ==> (#[trigger] concepts[j]).0 != concepts[i].0,
    ensures
        ({
            let name = concepts[i].0;
            let d = concepts[i].1;
            let w = v.apply_batch(concepts, relations, now, now_ms);
            &&& w.concept(name) is Some
            &&& match v.concept(name) {
                Some(c) => {
                    &&& w.concept(name)->0.energy == (if c.energy + d.0 > u64::MAX { u64::MAX as int } else { c.energy + d.0 })
                    &&& w.concept(name)->0.count == (if c.count + d.1 > u32::MAX { u32::MAX as int } else { c.count + d.1 })
                },
                None => {
                    &&& w.concept(name)->0.energy == d.0
                    &&& w.concept(name)->0.count == d.1
                },
            }
        }),
{
    let name = concepts[i].0;
    let d = concepts[i];
    let a = concepts.take(i);
    let b = concepts.skip(i + 1);
    assert(concepts =~= a + seq![d] + b);
    lemma_concept_deltas_concat(v.concepts, a + seq![d], b, now);
    lemma_concept_deltas_concat(v.concepts, a, seq![d], now);
    assert forall|j: int| 0 <= j < a.len() implies (#[trigger] a[j]).0 != name by {
        assert(a[j] == concepts[j]);
    }
    lemma_concept_deltas_elsewhere(v.concepts, a, now, name);
    let pa = apply_concept_deltas(v.concepts, a, now);
    assert(seq![d].drop_last() =~= Seq::<(Seq<char>, (u64, u32))>::empty());
    assert(apply_concept_deltas(pa, seq![d].drop_last(), now) == pa);
    assert(seq![d].last() == d);
    let pd = apply_concept_delta(pa, d.0, d.1.0, d.1.1, now);
    assert(apply_concept_deltas(pa, seq![d], now) == pd);
    match lookup(pa, name) {
        Some(c) => {
            let nc = ConceptView { energy: sat_add(c.energy, d.1.0), count: sat_add32(c.count, d.1.1), last_seen: now, ..c };
            lemma_upsert(pa, name, nc);
        },
        None => {
            let nc = ConceptView { energy: d.1.0, count: d.1.1, first_seen: now, last_seen: now, description: None };
            lemma_push_absent(pa, name, nc);
            lemma_lookup_push(pa, name, nc);
        },
    }
    assert forall|j: int| 0 <= j < b.len() implies (#[trigger] b[j]).0 != name by {
        assert(b[j] == concepts[i + 1 + j]);
    }
    lemma_concept_deltas_elsewhere(pd, b, now, name);
}

/// `w`, or 1.0 when it is larger.
pub open spec fn min_unit(w: u64) -> u64 {
    if w <= UNIT {
        w
    } else {
        UNIT
    }
}

/// Learning never forgets: after a learning batch every concept and relation
/// that was there is still there, no concept loses energy or count, no
/// relation loses count or weight (beyond the cap of 1.0), and every concept
/// and relation of the batch is present.
pub proof fn law_learning_keeps_knowledge(
    v: BrainView,
    concepts: Seq<(Seq<char>, (u64, u32))>,
    relations: Seq<(Seq<char>, (u64, u32, Seq<char>, Seq<char>))>,
    now: Seq<char>,
    now_ms: u64,
)
    requires
        v.inv(),
    ensures
        ({
            let w = v.apply_batch(concepts, relations, now, now_ms);
            &&& forall|k: Seq<char>| #[trigger] v.concept(k) is Some ==> {
                &&& w.concept(k) is Some
                &&& w.concept(k)->0.energy >= v.concept(k)->0.energy
                &&& w.concept(k)->0.count >= v.concept(k)->0.count
            }
            &&& forall|k: Seq<char>| #[trigger] v.relation(k) is Some ==> {
                &&& w.relation(k) is Some
                &&& w.relation(k)->0.count >= v.relation(k)->0.count
                &&& w.relation(k)->0.weight >= min_unit(v.relation(k)->0.weight)
            }
            &&& forall|i: int| 0 <= i < concepts.len() ==> w.concept(#[trigger] concepts[i].0) is Some
            &&& forall|i: int| 0 <= i < relations.len() ==> w.relation(
                batch_relation_id(#[trigger] relations[i].1.2, relations[i].1.3),
            ) is Some
        }),
{
    lemma_apply_concept_deltas(v.concepts, concepts, now);
    lemma_apply_relation_deltas(v.relations, relations, now_ms);
}

// ---------------------------------------------------------------------------
// Cleanup
// ---------------------------------------------------------------------------

proof fn lemma_relation_delta_weights(
    rs: Seq<(Seq<char>, RelationView)>,
    weight_delta: u64,
    count_delta: u32,
    source: Seq<char>,
    target: Seq<char>,
    now_ms: u64,
)
    requires
        weights_at_most_one(rs),
        weight_delta <= UNIT,
    ensures
        weights_at_most_one(apply_relation_delta(rs, weight_delta, count_delta, source, target, now_ms)),
{
    let id = batch_relation_id(source, target);
    let t = apply_relation_delta(rs, weight_delta, count_delta, source, target, now_ms);
    lemma_key_index(rs, id);
    assert forall|i: int| 0 <= i < t.len() implies #[trigger] t[i].1.weight <= UNIT by {
        if i < rs.len() && i != key_index(rs, id) {
            assert(t[i] == rs[i]);
        }
    }
}

/// Applying relation deltas of at most 1.0 each keeps every relation weight
/// within 1.0: an existing relation is capped at 1.0, a new one takes its
/// delta.
pub proof fn law_relation_deltas_keep_weights(
    rs: Seq<(Seq<char>, RelationView)>,
    deltas: Seq<(Seq<char>, (u64, u32, Seq<char>, Seq<char>))>,
    now_ms: u64,
)
    requires
        weights_at_most_one(rs),
        forall|i: int| 0 <= i < deltas.len() ==> #[trigger] deltas[i].1.0 <= UNIT,
    ensures
        weights_at_most_one(apply_relation_deltas(rs, deltas, now_ms)),
    decreases deltas.len(),
{
    if deltas.len() > 0 {
        let d = deltas.drop_last();
        assert forall|i: int| 0 <= i < d.len() implies #[trigger] d[i].1.0 <= UNIT by {
            assert(d[i] == deltas[i]);
        }
        law_relation_deltas_keep_weights(rs, d, now_ms);
        let l = deltas.last();
        assert(l == deltas[deltas.len() - 1]);
        lemma_relation_delta_weights(apply_relation_deltas(rs, d, now_ms), l.1.0, l.1.1, l.1.2, l.1.3, now_ms);
    }
}

/// What `cleanup` leaves: no more relations or concepts than before, only
/// relations and concepts that were there, every remaining relation at least
/// `min_weight` strong and every remaining concept at least `min_energy`
/// strong (both after the decay by 0.95), and, in aggressive mode with
/// relations left, only concepts that a remaining relation touches.
pub proof fn law_cleanup_prunes(v: BrainView, min_weight: u64, min_energy: u64, aggressive: bool, now: Seq<char>, now_ms: u64)
    requires
        v.inv(),
    ensures
        ({
            let w = v.cleanup(min_weight, min_energy, aggressive, now, now_ms);
            &&& w.relations.len() <= v.relations.len()
            &&& w.concepts.len() <= v.concepts.len()
            &&& forall|i: int| 0 <= i < w.relations.len() ==> #[trigger] w.relations[i].1.weight >= min_weight
            &&& forall|i: int| 0 <= i < w.concepts.len() ==> #[trigger] w.concepts[i].1.energy >= min_energy
            &&& forall|i: int| 0 <= i < w.relations.len() ==> exists|j: int| 0 <= j < v.relations.len()
                && #[trigger] w.relations[i].0 == v.relations[j].0
                && w.relations[i].1.weight == decay(v.relations[j].1.weight)
            &&& forall|i: int| 0 <= i < w.concepts.len() ==> exists|j: int| 0 <= j < v.concepts.len()
                && #[trigger] w.concepts[i].0 == v.concepts[j].0
                && w.concepts[i].1.energy == decay(v.concepts[j].1.energy)
            &&& (aggressive && w.relations.len() > 0) ==> forall|i: int| 0 <= i < w.concepts.len() ==> is_connected(w.relations, #[trigger] w.concepts[i].0)
        }),
{
    let rs = decay_relations(v.relations, now_ms);
    let rm = relation_keep_mask(rs, min_weight);
    let cs = decay_concepts(v.concepts, now);
    let w = v.cleanup(min_weight, min_energy, aggressive, now, now_ms);
    let cm = concept_keep_mask(cs, w.relations, min_energy, aggressive);
    assert(w.relations == filter_mask(rs, rm));
    assert(w.concepts == filter_mask(cs, cm));
    lemma_filter_mask_len(rs, rm);
    lemma_filter_mask_len(cs, cm);
    assert forall|i: int| 0 <= i < w.relations.len() implies #[trigger] w.relations[i].1.weight >= min_weight by {
        lemma_filter_mask_marked(rs, rm, i);
    }
    assert forall|i: int| 0 <= i < w.relations.len() implies exists|j: int| 0 <= j < v.relations.len()
        && #[trigger] w.relations[i].0 == v.relations[j].0 && w.relations[i].1.weight == decay(v.relations[j].1.weight) by {
        lemma_filter_mask_marked(rs, rm, i);
        let j = mask_origin(rs, rm, i);
        assert(rs[j].0 == v.relations[j].0);
        assert(w.relations[i].0 == v.relations[j].0 && w.relations[i].1.weight == decay(v.relations[j].1.weight));
    }
    assert forall|i: int| 0 <= i < w.concepts.len() implies #[trigger] w.concepts[i].1.energy >= min_energy by {
        lemma_filter_mask_marked(cs, cm, i);
    }
    assert forall|i: int| 0 <= i < w.concepts.len() implies exists|j: int| 0 <= j < v.concepts.len()
        && #[trigger] w.concepts[i].0 == v.concepts[j].0 && w.concepts[i].1.energy == decay(v.concepts[j].1.energy) by {
        lemma_filter_mask_marked(cs, cm, i);
        let j = mask_origin(cs, cm, i);
        assert(cs[j].0 == v.concepts[j].0);
        assert(w.concepts[i].0 == v.concepts[j].0 && w.concepts[i].1.energy == decay(v.concepts[j].1.energy));
    }
    if aggressive && w.relations.len() > 0 {
        assert forall|i: int| 0 <= i < w.concepts.len() implies is_connected(w.relations, #[trigger] w.concepts[i].0) by {
            lemma_filter_mask_marked(cs, cm, i);
        }
    }
}

/// Every marked element of `s` is kept by `filter_mask(s, m)`.
proof fn lemma_filter_mask_keeps<T>(s: Seq<T>, m: Seq<bool>, j: int)
    requires
        0 <= j < s.len(),
        m[j],
    ensures
        filter_mask(s, m).contains(s[j]),
    decreases s.len(),
{
    let d = s.drop_last();
    if j == s.len() - 1 {
        assert(filter_mask(s, m)[filter_mask(d, m).len() as int] == s[j]);
    } else {
        lemma_filter_mask_keeps(d, m, j);
        assert(d[j] == s[j]);
        let f = filter_mask(d, m);
        let k = choose|k: int| 0 <= k < f.len() && f[k] == s[j];
        if m[s.len() - 1] {
            assert(filter_mask(s, m)[k] == f[k]);
        }
    }
}

/// `cleanup` keeps what it does not prune: every relation whose decayed
/// weight is not below `min_weight`, and every concept whose decayed energy
/// is not below `min_energy` and that (in aggressive mode, with relations
/// left) a remaining relation touches.
pub proof fn law_cleanup_keeps(v: BrainView, min_weight: u64, min_energy: u64, aggressive: bool, now: Seq<char>, now_ms: u64)
    ensures
        ({
            let w = v.cleanup(min_weight, min_energy, aggressive, now, now_ms);
            &&& forall|j: int| 0 <= j < v.relations.len() && decay(#[trigger] v.relations[j].1.weight) >= min_weight ==>
                w.relations.contains((v.relations[j].0, RelationView { weight: decay(v.relations[j].1.weight), last_updated: now_ms, ..v.relations[j].1 }))
            &&& forall|j: int| 0 <= j < v.concepts.len() && decay(#[trigger] v.concepts[j].1.energy) >= min_energy
                && !(aggressive && w.relations.len() > 0 && !is_connected(w.relations, v.concepts[j].0)) ==>
                w.concepts.contains((v.concepts[j].0, ConceptView { energy: decay(v.concepts[j].1.energy), last_seen: now, ..v.concepts[j].1 }))
        }),
{
    let rs = decay_relations(v.relations, now_ms);
    let rm = relation_keep_mask(rs, min_weight);
    let cs = decay_concepts(v.concepts, now);
    let w = v.cleanup(min_weight, min_energy, aggressive, now, now_ms);
    let cm = concept_keep_mask(cs, w.relations, min_energy, aggressive);
    assert forall|j: int| 0 <= j < v.relations.len() && decay(#[trigger] v.relations[j].1.weight) >= min_weight implies
        w.relations.contains((v.relations[j].0, RelationView { weight: decay(v.relations[j].1.weight), last_updated: now_ms, ..v.relations[j].1 })) by {
        assert(rm[j]);
        lemma_filter_mask_keeps(rs, rm, j);
    }
    assert forall|j: int| 0 <= j < v.concepts.len() && decay(#[trigger] v.concepts[j].1.energy) >= min_energy
        && !(aggressive && w.relations.len() > 0 && !is_connected(w.relations, v.concepts[j].0)) implies
        w.concepts.contains((v.concepts[j].0, ConceptView { energy: decay(v.concepts[j].1.energy), last_seen: now, ..v.concepts[j].1 })) by {
        assert(cm[j]);
        lemma_filter_mask_keeps(cs, cm, j);
    }
}

/// What `cleanup` leaves, exactly: the relations after decay whose weight is
/// not below `min_weight`, and the concepts after decay whose energy is not
/// below `min_energy` and that (in aggressive mode, with relations left) a
/// remaining relation touches.  (`cleanup` returns how many of each were
/// removed.)
pub proof fn law_cleanup_exact(v: BrainView, min_weight: u64, min_energy: u64, aggressive: bool, now: Seq<char>, now_ms: u64)
    ensures
        ({
            let w = v.cleanup(min_weight, min_energy, aggressive, now, now_ms);
            let rs = decay_relations(v.relations, now_ms);
            let cs = decay_concepts(v.concepts, now);
            &&& forall|x: (Seq<char>, RelationView)| w.relations.contains(x) <==> exists|j: int|
                0 <= j < rs.len() && #[trigger] rs[j] == x && x.1.weight >= min_weight
            &&& forall|x: (Seq<char>, ConceptView)| w.concepts.contains(x) <==> exists|j: int|
                0 <= j < cs.len() && #[trigger] cs[j] == x && x.1.energy >= min_energy
                && !(aggressive && w.relations.len() > 0 && !is_connected(w.relations, x.0))
        }),
{
    let w = v.cleanup(min_weight, min_energy, aggressive, now, now_ms);
    let rs = decay_relations(v.relations, now_ms);
    let cs = decay_concepts(v.concepts, now);
    let rm = relation_keep_mask(rs, min_weight);
    let cm = concept_keep_mask(cs, w.relations, min_energy, aggressive);
    assert(w.relations == filter_mask(rs, rm));
    assert(w.concepts == filter_mask(cs, cm));
    assert forall|x: (Seq<char>, RelationView)| w.relations.contains(x) <==> exists|j: int|
        0 <= j < rs.len() && #[trigger] rs[j] == x && x.1.weight >= min_weight by {
        if w.relations.contains(x) {
            let a = choose|a: int| 0 <= a < w.relations.len() && w.relations[a] == x;
            lemma_filter_mask_marked(rs, rm, a);
            let j = mask_origin(rs, rm, a);
            assert(rs[j] == x && rm[j]);
        }
        if exists|j: int| 0 <= j < rs.len() && #[trigger] rs[j] == x && x.1.weight >= min_weight {
            let j = choose|j: int| 0 <= j < rs.len() && #[trigger] rs[j] == x && x.1.weight >= min_weight;
            assert(rm[j]);
            lemma_filter_mask_keeps(rs, rm, j);
        }
    }
    assert forall|x: (Seq<char>, ConceptView)| w.concepts.contains(x) <==> exists|j: int|
        0 <= j < cs.len() && #[trigger] cs[j] == x && x.1.energy >= min_energy
        && !(aggressive && w.relations.len() > 0 && !is_connected(w.relations, x.0)) by {
        if w.concepts.contains(x) {
            let a = choose|a: int| 0 <= a < w.concepts.len() && w.concepts[a] == x;
            lemma_filter_mask_marked(cs, cm, a);
            let j = mask_origin(cs, cm, a);
            assert(cs[j] == x && cm[j]);
        }
        if exists|j: int| 0 <= j < cs.len() && #[trigger] cs[j] == x && x.1.energy >= min_energy
            && !(aggressive && w.relations.len() > 0 && !is_connected(w.relations, x.0)) {
            let j = choose|j: int| 0 <= j < cs.len() && #[trigger] cs[j] == x && x.1.energy >= min_energy
                && !(aggressive && w.relations.len() > 0 && !is_connected(w.relations, x.0));
            assert(cm[j]);
            lemma_filter_mask_keeps(cs, cm, j);
        }
    }
}

// ---------------------------------------------------------------------------
// Books
// ---------------------------------------------------------------------------

/// A book that is added is found again, by its file hash and by the id
/// `add_book` returns.
pub proof fn law_added_book_is_found(v: BrainView, hash: Seq<char>, path: Seq<char>, meta: BookMetadataView, size: i64, now: i64)
    requires
        v.inv(),
        v.can_add_book(hash),
    ensures
        ({
            let w = v.with_book(hash, path, meta, size, now);
            let b = v.new_book(hash, path, meta, size, now);
            &&& w.inv()
            &&& w.book_with_hash(hash) == Some(b)
            &&& w.book_with_id(w.last_insert_id) == Some(b)
            &&& w.concepts == v.concepts
            &&& w.relations == v.relations
        }),
{
    let w = v.with_book(hash, path, meta, size, now);
    let b = v.new_book(hash, path, meta, size, now);
    let n = v.books.len() as int;
    assert(w.books[n] == b);
    assert forall|i: int| 0 <= i < n implies #[trigger] v.books[i].file_hash != hash by {
        if v.books[i].file_hash == hash {
            assert(v.book_with_hash(hash) is Some);
        }
    }
    assert forall|i: int, j: int| 0 <= i < w.books.len() && 0 <= j < w.books.len() && i != j implies #[trigger] w.books[i].file_hash != #[trigger] w.books[j].file_hash by {
        if i < n && j < n {
            assert(w.books[i] == v.books[i] && w.books[j] == v.books[j]);
        } else if i < n {
            assert(w.books[i] == v.books[i]);
        } else {
            assert(w.books[j] == v.books[j]);
        }
    }
    assert forall|i: int, j: int| 0 <= i < j < w.books.len() implies #[trigger] w.books[i].id < #[trigger] w.books[j].id by {
        if j < n {
            assert(w.books[i] == v.books[i] && w.books[j] == v.books[j]);
        } else {
            assert(w.books[i] == v.books[i]);
        }
    }
    assert forall|i: int| 0 <= i < w.books.len() implies 0 < #[trigger] w.books[i].id <= w.max_book_id by {
        if i < n {
            assert(w.books[i] == v.books[i]);
        }
    }
    assert(w.inv());
    assert(w.books[n].file_hash == hash);
    let k = choose|i: int| 0 <= i < w.books.len() && w.books[i].file_hash == hash;
    assert(k == n);
    assert(w.books[n].id == w.last_insert_id);
    let q = choose|i: int| 0 <= i < w.books.len() && w.books[i].id == w.last_insert_id;
    if q != n {
        assert(w.books[q] == v.books[q]);
    }
}

/// A removed book is gone, and removing a book keeps every concept and
/// relation.
pub proof fn law_removed_book_is_gone(v: BrainView, id: i64)
    ensures
        ({
            let w = BrainView { books: v.books.filter(|b: BookView| b.id != id), ..v };
            &&& w.book_with_id(id) is None
            &&& w.concepts == v.concepts
            &&& w.relations == v.relations
            &&& w.book_concepts == v.book_concepts
        }),
{
    let pred = |b: BookView| b.id != id;
    let f = v.books.filter(pred);
    let w = BrainView { books: f, ..v };
    assert forall|i: int| 0 <= i < f.len() implies #[trigger] f[i].id != id by {
        v.books.lemma_filter_pred(pred, i);
    }
}

} // verus!
