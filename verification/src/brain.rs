//! The knowledge graph: concepts (nodes with an energy), relations (weighted,
//! undirected edges) and the books that were learned from.
//!
//! Weights and energies are fixed-point numbers in units of `1 / UNIT`, so
//! `UNIT` stands for 1.0.

use vstd::prelude::*;
use crate::sort::{is_stable_desc_order, stable_desc_order};
use crate::table::{Table, key_index, lookup, upsert, unique_keys, lemma_key_index, lemma_upsert};
use crate::text::{
    chars_of, concat, decimal, replace_all, replace_str, str_eq, str_less, str_lt, to_string,
    u64_to_decimal,
};

verus! {

/// Fixed-point one: a weight or energy of `UNIT` stands for 1.0.
pub const UNIT: u64 = 1_000_000;

/// The energy a concept starts with (0.1).
pub const INITIAL_ENERGY: u64 = 100_000;

/// The factor by which `cleanup` decays weights and energies (0.95), as a
/// fraction of 100.
pub const DECAY_PERCENT: u64 = 95;

// ---------------------------------------------------------------------------
// Clock
// ---------------------------------------------------------------------------

/// `SystemTime::now().duration_since(UNIX_EPOCH)` in whole seconds; `None`
/// when the clock is set before the epoch.  Nothing is stated of the value:
/// it is the time.
#[verifier::external_body]
pub(crate) fn clock_secs() -> (r: Option<u64>) {
    match std::time::SystemTime::now().duration_since(std::time::UNIX_EPOCH) {
        Ok(d) => Some(d.as_secs()),
        Err(_) => None,
    }
}

/// `SystemTime::now().duration_since(UNIX_EPOCH)` in milliseconds; `None`
/// when the clock is set before the epoch.  Nothing is stated of the value.
#[verifier::external_body]
pub(crate) fn clock_millis() -> (r: Option<u128>) {
    match std::time::SystemTime::now().duration_since(std::time::UNIX_EPOCH) {
        Ok(d) => Some(d.as_millis()),
        Err(_) => None,
    }
}

/// The text of a timestamp: the decimal seconds, or empty when the clock
/// gave none.
pub open spec fn timestamp_text(secs: Option<u64>) -> Seq<char> {
    match secs {
        Some(s) => decimal(s as nat),
        None => Seq::empty(),
    }
}

/// Whether `s` is a timestamp text.
pub open spec fn is_timestamp_text(s: Seq<char>) -> bool {
    exists|t: Option<u64>| timestamp_text(t) == s
}

/// The current time as decimal seconds since the Unix epoch (empty when the
/// clock is set before the epoch).
pub fn current_timestamp() -> (r: String)
    ensures
        is_timestamp_text(r@),
{
    let t = clock_secs();
    let r = match t {
        Some(s) => u64_to_decimal(s),
        None => String::new(),
    };
    assert(timestamp_text(t) == r@);
    r
}

/// Milliseconds as a `u64`: the low 64 bits of the reading, 0 for none.
pub open spec fn millis_value(reading: Option<u128>) -> u64 {
    match reading {
        Some(m) => m as u64,
        None => 0,
    }
}

/// A clock reading in milliseconds as a `u64`: 0 when there is none (the
/// clock is set before the epoch), else truncated to 64 bits.
pub fn millis_from_reading(reading: Option<u128>) -> (r: u64)
    ensures
        r == millis_value(reading),
{
    match reading {
        Some(m) => m as u64,
        None => 0,
    }
}

/// The current time in milliseconds since the Unix epoch (0 when the clock is
/// set before the epoch; truncated to 64 bits).  Which time is read is not
/// stated; the conversion is `millis_from_reading`.
pub fn current_millis() -> (r: u64) {
    let reading = clock_millis();
    millis_from_reading(reading)
}

// ---------------------------------------------------------------------------
// Records
// ---------------------------------------------------------------------------

pub open spec fn opt_view(o: Option<String>) -> Option<Seq<char>> {
    match o {
        Some(s) => Some(s@),
        None => None,
    }
}

pub fn copy_opt_string(o: &Option<String>) -> (r: Option<String>)
    ensures
        opt_view(r) == opt_view(*o),
{
    match o {
        Some(s) => Some(s.clone()),
        None => None,
    }
}

/// A concept node.
#[derive(Debug, Clone)]
pub struct Concept {
    pub energy: u64,
    pub count: u32,
    pub first_seen: String,
    pub last_seen: String,
    /// Short description/definition of the concept.
    pub description: Option<String>,
}

pub struct ConceptView {
    pub energy: u64,
    pub count: u32,
    pub first_seen: Seq<char>,
    pub last_seen: Seq<char>,
    pub description: Option<Seq<char>>,
}

impl View for Concept {
    type V = ConceptView;

    open spec fn view(&self) -> ConceptView {
        ConceptView {
            energy: self.energy,
            count: self.count,
            first_seen: self.first_seen@,
            last_seen: self.last_seen@,
            description: opt_view(self.description),
        }
    }
}

impl Concept {
    /// A copy of this concept.
    pub fn copy(&self) -> (r: Concept)
        ensures
            r@ == self@,
    {
        Concept {
            energy: self.energy,
            count: self.count,
            first_seen: self.first_seen.clone(),
            last_seen: self.last_seen.clone(),
            description: copy_opt_string(&self.description),
        }
    }
}

/// A relation (undirected edge) between two concepts.
#[derive(Debug, Clone)]
pub struct Relation {
    pub id: String,
    pub source: String,
    pub target: String,
    pub weight: u64,
    pub count: u32,
    pub last_updated: u64,
}

pub struct RelationView {
    pub id: Seq<char>,
    pub source: Seq<char>,
    pub target: Seq<char>,
    pub weight: u64,
    pub count: u32,
    pub last_updated: u64,
}

impl View for Relation {
    type V = RelationView;

    open spec fn view(&self) -> RelationView {
        RelationView {
            id: self.id@,
            source: self.source@,
            target: self.target@,
            weight: self.weight,
            count: self.count,
            last_updated: self.last_updated,
        }
    }
}

impl Relation {
    /// A copy of this relation.
    pub fn copy(&self) -> (r: Relation)
        ensures
            r@ == self@,
    {
        Relation {
            id: self.id.clone(),
            source: self.source.clone(),
            target: self.target.clone(),
            weight: self.weight,
            count: self.count,
            last_updated: self.last_updated,
        }
    }
}

/// A learned source file.
#[derive(Debug, Clone)]
pub struct Book {
    pub id: i64,
    pub file_hash: String,
    pub file_path: Option<String>,
    pub title: String,
    pub author: Option<String>,
    pub format: String,
    pub file_size: i64,
    pub processed_at: i64,
    pub total_concepts_learned: i64,
}

pub struct BookView {
    pub id: i64,
    pub file_hash: Seq<char>,
    pub file_path: Option<Seq<char>>,
    pub title: Seq<char>,
    pub author: Option<Seq<char>>,
    pub format: Seq<char>,
    pub file_size: i64,
    pub processed_at: i64,
    pub total_concepts_learned: i64,
}

impl View for Book {
    type V = BookView;

    open spec fn view(&self) -> BookView {
        BookView {
            id: self.id,
            file_hash: self.file_hash@,
            file_path: opt_view(self.file_path),
            title: self.title@,
            author: opt_view(self.author),
            format: self.format@,
            file_size: self.file_size,
            processed_at: self.processed_at,
            total_concepts_learned: self.total_concepts_learned,
        }
    }
}

impl Book {
    /// A copy of this book record.
    pub fn copy(&self) -> (r: Book)
        ensures
            r@ == self@,
    {
        Book {
            id: self.id,
            file_hash: self.file_hash.clone(),
            file_path: copy_opt_string(&self.file_path),
            title: self.title.clone(),
            author: copy_opt_string(&self.author),
            format: self.format.clone(),
            file_size: self.file_size,
            processed_at: self.processed_at,
            total_concepts_learned: self.total_concepts_learned,
        }
    }
}

/// Metadata of a book being learned.
#[derive(Debug, Clone)]
pub struct BookMetadata {
    pub title: String,
    pub author: Option<String>,
    pub format: String,
}

pub struct BookMetadataView {
    pub title: Seq<char>,
    pub author: Option<Seq<char>>,
    pub format: Seq<char>,
}

impl View for BookMetadata {
    type V = BookMetadataView;

    open spec fn view(&self) -> BookMetadataView {
        BookMetadataView { title: self.title@, author: opt_view(self.author), format: self.format@ }
    }
}

impl Default for BookMetadata {
    fn default() -> (r: Self)
        ensures
            r@.title.len() == 0,
            r@.author is None,
            r@.format.len() == 0,
    {
        BookMetadata { title: String::new(), author: None, format: String::new() }
    }
}

/// Counters kept with the knowledge graph.
#[derive(Debug, Clone, Copy, PartialEq, Eq, Structural)]
pub struct BrainMeta {
    pub total_concepts: u32,
    pub total_relations: u32,
    pub total_learn_count: u32,
}


/// How often a concept was mentioned while a book was being learned.
#[derive(Debug, Clone)]
pub struct BookConcept {
    pub book_id: i64,
    pub concept_name: String,
    pub mention_count: i32,
}

pub struct BookConceptView {
    pub book_id: i64,
    pub concept_name: Seq<char>,
    pub mention_count: i32,
}

impl View for BookConcept {
    type V = BookConceptView;

    open spec fn view(&self) -> BookConceptView {
        BookConceptView {
            book_id: self.book_id,
            concept_name: self.concept_name@,
            mention_count: self.mention_count,
        }
    }
}

// ---------------------------------------------------------------------------
// Arithmetic on fixed-point quantities
// ---------------------------------------------------------------------------

/// `a + b`, capped at `u64::MAX`.
pub open spec fn sat_add(a: u64, b: u64) -> u64 {
    if a + b > u64::MAX {
        u64::MAX
    } else {
        (a + b) as u64
    }
}

/// `a + b`, capped at `u32::MAX`.
pub open spec fn sat_add32(a: u32, b: u32) -> u32 {
    if a + b > u32::MAX {
        u32::MAX
    } else {
        (a + b) as u32
    }
}

/// `min(a + b, 1.0)`: a weight after adding `b`.
pub open spec fn capped_weight(a: u64, b: u64) -> u64 {
    if sat_add(a, b) > UNIT {
        UNIT
    } else {
        sat_add(a, b)
    }
}

/// `x * 0.95`, rounded down.
pub open spec fn decay(x: u64) -> u64 {
    (x * DECAY_PERCENT / 100) as u64
}

pub fn add_sat(a: u64, b: u64) -> (r: u64)
    ensures
        r == sat_add(a, b),
{
    a.saturating_add(b)
}

pub fn add_sat32(a: u32, b: u32) -> (r: u32)
    ensures
        r == sat_add32(a, b),
{
    a.saturating_add(b)
}

pub fn add_capped_weight(a: u64, b: u64) -> (r: u64)
    ensures
        r == capped_weight(a, b),
{
    let s = a.saturating_add(b);
    if s > UNIT {
        UNIT
    } else {
        s
    }
}

pub fn decayed(x: u64) -> (r: u64)
    ensures
        r == decay(x),
{
    let q = x / 100;
    let m = x % 100;
    assert(x * 95 / 100 == q * 95 + m * 95 / 100) by (nonlinear_arith)
        requires
            q == x / 100,
            m == x % 100,
    ;
    q * 95 + m * 95 / 100
}

// ---------------------------------------------------------------------------
// Relation keys
// ---------------------------------------------------------------------------

/// The order-independent key of the relation between `a` and `b`: the two
/// names sorted and joined by `|||`.
pub open spec fn relation_key(a: Seq<char>, b: Seq<char>) -> Seq<char> {
    if str_less(b, a) {
        b + "|||"@ + a
    } else {
        a + "|||"@ + b
    }
}

/// The id of the relation between `a` and `b`: `rel_` followed by the key
/// with `|||` replaced by `_`.
pub open spec fn relation_id(a: Seq<char>, b: Seq<char>) -> Seq<char> {
    "rel_"@ + replace_all(relation_key(a, b), "|||"@, "_"@)
}

pub proof fn lemma_relation_key_symmetric(a: Seq<char>, b: Seq<char>)
    ensures
        relation_key(a, b) == relation_key(b, a),
        relation_id(a, b) == relation_id(b, a),
{
    crate::text::lemma_str_less_total(a, b);
    crate::text::lemma_str_less_asymmetric(a, b);
}

/// The key of the relation between `a` and `b` (`a|||b` with the smaller
/// name first).
pub fn make_relation_key(a: &str, b: &str) -> (r: String)
    ensures
        r@ == relation_key(a@, b@),
{
    let (first, second) = if str_lt(b, a) {
        (b, a)
    } else {
        (a, b)
    };
    let mut r = to_string(first);
    r.append("|||");
    r.append(second);
    r
}

/// The id of the relation between `a` and `b`.
pub fn relation_id_of(a: &str, b: &str) -> (r: String)
    ensures
        r@ == relation_id(a@, b@),
{
    let key = make_relation_key(a, b);
    proof {
        reveal_strlit("|||");
    }
    let replaced = replace_str(key.as_str(), "|||", "_");
    concat("rel_", replaced.as_str())
}

// ---------------------------------------------------------------------------
// The graph model
// ---------------------------------------------------------------------------

/// The concept that `get_or_create_concept` creates at time `now`.
pub open spec fn new_concept(now: Seq<char>) -> ConceptView {
    ConceptView {
        energy: INITIAL_ENERGY,
        count: 1,
        first_seen: now,
        last_seen: now,
        description: None,
    }
}

/// The relations that have `c` as source or target, in order.
pub open spec fn relations_touching(rels: Seq<(Seq<char>, RelationView)>, c: Seq<char>) -> Seq<
    RelationView,
>
    decreases rels.len(),
{
    if rels.len() == 0 {
        Seq::empty()
    } else {
        let p = relations_touching(rels.drop_last(), c);
        let r = rels.last().1;
        if r.source == c || r.target == c {
            p.push(r)
        } else {
            p
        }
    }
}

/// The neighbours of `x` with the weights of the connecting relations, in the
/// order of the relations; a relation from `x` to itself lists `x` twice.
pub open spec fn adjacency(rels: Seq<(Seq<char>, RelationView)>, x: Seq<char>) -> Seq<
    (Seq<char>, u64),
>
    decreases rels.len(),
{
    if rels.len() == 0 {
        Seq::empty()
    } else {
        let p = adjacency(rels.drop_last(), x);
        let r = rels.last().1;
        let p1 = if r.source == x {
            p.push((r.target, r.weight))
        } else {
            p
        };
        if r.target == x {
            p1.push((r.source, r.weight))
        } else {
            p1
        }
    }
}

/// Whether some relation has `x` as an endpoint.
pub open spec fn is_connected(rels: Seq<(Seq<char>, RelationView)>, x: Seq<char>) -> bool {
    exists|i: int| 0 <= i < rels.len() && (rels[i].1.source == x || rels[i].1.target == x)
}

/// The whole state of a knowledge graph.
pub struct BrainView {
    pub concepts: Seq<(Seq<char>, ConceptView)>,
    pub relations: Seq<(Seq<char>, RelationView)>,
    pub books: Seq<BookView>,
    pub book_concepts: Seq<BookConceptView>,
    pub last_insert_id: i64,
    pub max_book_id: i64,
    pub version: Seq<char>,
    pub meta: BrainMeta,
}

impl BrainView {
    /// The well-formedness of a graph state.
    pub open spec fn inv(self) -> bool {
        &&& unique_keys(self.concepts)
        &&& unique_keys(self.relations)
        &&& forall|i: int| 0 <= i < self.relations.len() ==> #[trigger] self.relations[i].1.id == self.relations[i].0
        &&& 0 <= self.max_book_id
        &&& forall|i: int| 0 <= i < self.books.len() ==> 0 < #[trigger] self.books[i].id <= self.max_book_id
        &&& forall|i: int, j: int| 0 <= i < j < self.books.len() ==> #[trigger] self.books[i].id < #[trigger] self.books[j].id
        &&& forall|i: int, j: int| 0 <= i < self.books.len() && 0 <= j < self.books.len() && i != j ==> #[trigger] self.books[i].file_hash != #[trigger] self.books[j].file_hash
        &&& forall|i: int, j: int| 0 <= i < self.book_concepts.len() && 0 <= j < self.book_concepts.len() && i != j
                ==> (#[trigger] self.book_concepts[i].book_id, self.book_concepts[i].concept_name) != (#[trigger] self.book_concepts[j].book_id, self.book_concepts[j].concept_name)
    }

    /// The concept named `name`, if any.
    pub open spec fn concept(self, name: Seq<char>) -> Option<ConceptView> {
        lookup(self.concepts, name)
    }

    /// The relation stored under `id`, if any.
    pub open spec fn relation(self, id: Seq<char>) -> Option<RelationView> {
        lookup(self.relations, id)
    }

    pub open spec fn with_concepts(self, c: Seq<(Seq<char>, ConceptView)>) -> BrainView {
        BrainView { concepts: c, ..self }
    }

    pub open spec fn with_relations(self, r: Seq<(Seq<char>, RelationView)>) -> BrainView {
        BrainView { relations: r, ..self }
    }

    /// The state after `update_concept`: energy and count increased (capped),
    /// `last_seen` set to `now`; nothing changes when the concept is absent.
    pub open spec fn update_concept(self, name: Seq<char>, energy_delta: u64, count_delta: u32, now: Seq<char>) -> BrainView {
        match self.concept(name) {
            Some(c) => self.with_concepts(upsert(self.concepts, name, ConceptView {
                energy: sat_add(c.energy, energy_delta),
                count: sat_add32(c.count, count_delta),
                last_seen: now,
                ..c
            })),
            None => self,
        }
    }

    /// The state after `update_relation`: weight increased and capped at 1.0,
    /// count increased, `last_updated` set; nothing changes when absent.
    pub open spec fn update_relation(self, id: Seq<char>, weight_delta: u64, count_delta: u32, now_ms: u64) -> BrainView {
        match self.relation(id) {
            Some(r) => self.with_relations(upsert(self.relations, id, RelationView {
                weight: capped_weight(r.weight, weight_delta),
                count: sat_add32(r.count, count_delta),
                last_updated: now_ms,
                ..r
            })),
            None => self,
        }
    }

    /// The state after `get_or_create_concept` at time `now`: unchanged when
    /// `name` is known, else with a new concept appended.
    pub open spec fn ensure_concept(self, name: Seq<char>, now: Seq<char>) -> BrainView {
        match self.concept(name) {
            Some(_) => self,
            None => self.with_concepts(self.concepts.push((name, new_concept(now)))),
        }
    }

    /// The state after `add_or_update_relation` at time `now_ms`: unchanged
    /// when the relation between `source` and `target` exists, else with a
    /// new relation of weight 0 and count 0 appended.
    pub open spec fn add_relation(self, source: Seq<char>, target: Seq<char>, now_ms: u64) -> BrainView {
        let id = relation_id(source, target);
        match self.relation(id) {
            Some(_) => self,
            None => self.with_relations(self.relations.push((id, RelationView {
                id,
                source,
                target,
                weight: 0,
                count: 0,
                last_updated: now_ms,
            }))),
        }
    }

    /// The state after `set_concept_description`.
    pub open spec fn set_description(self, name: Seq<char>, description: Seq<char>) -> BrainView {
        match self.concept(name) {
            Some(c) => if description.len() > 0 && (match c.description {
                None => true,
                Some(d) => description.len() > d.len(),
            }) {
                self.with_concepts(upsert(self.concepts, name, ConceptView { description: Some(description), ..c }))
            } else {
                self
            },
            None => self,
        }
    }
}

/// The knowledge graph.
#[derive(Debug, Clone)]
pub struct Brain {
    pub(crate) concepts: Table<Concept>,
    pub(crate) relations: Table<Relation>,
    pub(crate) books: Vec<Book>,
    pub(crate) book_concepts: Vec<BookConcept>,
    pub(crate) last_insert_id: i64,
    pub(crate) max_book_id: i64,
    pub(crate) version: String,
    pub(crate) meta: BrainMeta,
}

impl View for Brain {
    type V = BrainView;

    closed spec fn view(&self) -> BrainView {
        BrainView {
            concepts: self.concepts@,
            relations: self.relations@,
            books: self.books@.map_values(|b: Book| b@),
            book_concepts: self.book_concepts@.map_values(|b: BookConcept| b@),
            last_insert_id: self.last_insert_id,
            max_book_id: self.max_book_id,
            version: self.version@,
            meta: self.meta,
        }
    }
}

impl Default for Brain {
    /// An empty knowledge graph, as `Brain::new`.
    fn default() -> (r: Brain)
        ensures
            r.wf(),
            r@.concepts.len() == 0,
            r@.relations.len() == 0,
            r@.books.len() == 0,
            r@.book_concepts.len() == 0,
            r@.last_insert_id == 0,
            r@.max_book_id == 0,
            r@.version == "2.0"@,
            r@.meta == (BrainMeta { total_concepts: 0, total_relations: 0, total_learn_count: 0 }),
    {
        Brain::new()
    }
}

impl Brain {
    /// The graph invariant.
    pub open spec fn wf(&self) -> bool {
        self@.inv()
    }

    proof fn lemma_tables(&self)
        requires
            self.wf(),
        ensures
            self.concepts.wf(),
            self.relations.wf(),
            self.concepts@ == self@.concepts,
            self.relations@ == self@.relations,
    {
    }

    /// An empty knowledge graph (format version "2.0").
    pub fn new() -> (r: Brain)
        ensures
            r.wf(),
            r@.concepts.len() == 0,
            r@.relations.len() == 0,
            r@.books.len() == 0,
            r@.book_concepts.len() == 0,
            r@.last_insert_id == 0,
            r@.max_book_id == 0,
            r@.version == "2.0"@,
            r@.meta == (BrainMeta { total_concepts: 0, total_relations: 0, total_learn_count: 0 }),
    {
        let r = Brain {
            concepts: Table::new(),
            relations: Table::new(),
            books: Vec::new(),
            book_concepts: Vec::new(),
            last_insert_id: 0,
            max_book_id: 0,
            version: to_string("2.0"),
            meta: BrainMeta { total_concepts: 0, total_relations: 0, total_learn_count: 0 },
        };
        assert(r@.books =~= Seq::<BookView>::empty());
        assert(r@.book_concepts =~= Seq::<BookConceptView>::empty());
        r
    }

    /// Format version of the stored graph.
    pub fn version(&self) -> (r: &String)
        ensures
            r@ == self@.version,
    {
        &self.version
    }

    /// The counters kept with the graph.
    pub fn meta(&self) -> (r: BrainMeta)
        ensures
            r == self@.meta,
    {
        self.meta
    }

    /// The concepts, in insertion order.
    pub fn concepts(&self) -> (r: &Table<Concept>)
        ensures
            r@ == self@.concepts,
    {
        &self.concepts
    }

    /// The relations, keyed by id, in insertion order.
    pub fn relations(&self) -> (r: &Table<Relation>)
        ensures
            r@ == self@.relations,
    {
        &self.relations
    }

    /// Number of concepts.
    pub fn total_concepts(&self) -> (r: usize)
        ensures
            r == self@.concepts.len(),
    {
        self.concepts.len()
    }

    /// Number of relations.
    pub fn total_relations(&self) -> (r: usize)
        ensures
            r == self@.relations.len(),
    {
        self.relations.len()
    }

    /// The concept named `name` at time `now`: the stored one when present,
    /// else a new one (energy 0.1, count 1, first and last seen `now`) that
    /// is appended to the graph.
    pub fn get_or_create_concept_at(&mut self, name: &str, now: &str) -> (r: Concept)
        requires
            old(self).wf(),
        ensures
            final(self).wf(),
            match old(self)@.concept(name@) {
                Some(c) => r@ == c && final(self)@ == old(self)@,
                None => r@ == new_concept(now@) && final(self)@ == old(self)@.with_concepts(
                    old(self)@.concepts.push((name@, new_concept(now@))),
                ),
            },
            final(self)@ == old(self)@.ensure_concept(name@, now@),
    {
        proof {
            self.lemma_tables();
        }
        match self.concepts.get(name) {
            Some(c) => c.copy(),
            None => {
                let c = Concept {
                    energy: INITIAL_ENERGY,
                    count: 1,
                    first_seen: to_string(now),
                    last_seen: to_string(now),
                    description: None,
                };
                let ret = c.copy();
                self.concepts.push_new(to_string(name), c);
                assert(self@ =~= old(self)@.with_concepts(old(self)@.concepts.push((name@, new_concept(now@)))));
                ret
            },
        }
    }

    /// The concept named `name`: the stored one, or a new one stamped with
    /// the current time.
    pub fn get_or_create_concept(&mut self, name: &str) -> (r: Concept)
        requires
            old(self).wf(),
        ensures
            final(self).wf(),
            match old(self)@.concept(name@) {
                Some(c) => r@ == c && final(self)@ == old(self)@,
                None => is_timestamp_text(r@.first_seen) && r@ == new_concept(r@.first_seen)
                    && final(self)@ == old(self)@.with_concepts(old(self)@.concepts.push((name@, r@))),
            },
            final(self)@ == old(self)@.ensure_concept(name@, r@.first_seen),
    {
        let now = current_timestamp();
        self.get_or_create_concept_at(name, now.as_str())
    }

    /// Adds to the energy and count of concept `name` and stamps it with
    /// `now` (no effect when the concept is absent).
    pub fn update_concept_at(&mut self, name: &str, energy_delta: u64, count_delta: u32, now: &str)
        requires
            old(self).wf(),
        ensures
            final(self).wf(),
            final(self)@ == old(self)@.update_concept(name@, energy_delta, count_delta, now@),
    {
        proof {
            self.lemma_tables();
            lemma_key_index(self@.concepts, name@);
        }
        match self.concepts.index_of(name) {
            Some(i) => {
                let c = self.concepts.value_at(i);
                let updated = Concept {
                    energy: add_sat(c.energy, energy_delta),
                    count: add_sat32(c.count, count_delta),
                    first_seen: c.first_seen.clone(),
                    last_seen: to_string(now),
                    description: copy_opt_string(&c.description),
                };
                proof {
                    lemma_upsert(self@.concepts, name@, updated@);
                }
                self.concepts.set_value_at(i, updated);
                assert(self@ =~= old(self)@.update_concept(name@, energy_delta, count_delta, now@));
            },
            None => {},
        }
    }

    /// `update_concept_at` stamped with the current time.
    pub fn update_concept(&mut self, name: &str, energy_delta: u64, count_delta: u32)
        requires
            old(self).wf(),
        ensures
            final(self).wf(),
            exists|now: Seq<char>| is_timestamp_text(now) && final(self)@ == old(self)@.update_concept(name@, energy_delta, count_delta, now),
    {
        let now = current_timestamp();
        self.update_concept_at(name, energy_delta, count_delta, now.as_str());
    }

    /// Sets the description of concept `name` when `description` is not empty
    /// and is longer (in characters) than the current one, or there is none.
    pub fn set_concept_description(&mut self, name: &str, description: &str)
        requires
            old(self).wf(),
        ensures
            final(self).wf(),
            final(self)@ == old(self)@.set_description(name@, description@),
    {
        proof {
            self.lemma_tables();
            lemma_key_index(self@.concepts, name@);
        }
        let d = chars_of(description);
        if d.len() == 0 {
            return;
        }
        match self.concepts.index_of(name) {
            Some(i) => {
                let c = self.concepts.value_at(i);
                let longer = match &c.description {
                    None => true,
                    Some(old_d) => d.len() > chars_of(old_d.as_str()).len(),
                };
                if longer {
                    let updated = Concept {
                        energy: c.energy,
                        count: c.count,
                        first_seen: c.first_seen.clone(),
                        last_seen: c.last_seen.clone(),
                        description: Some(to_string(description)),
                    };
                    proof {
                        lemma_upsert(self@.concepts, name@, updated@);
                    }
                    self.concepts.set_value_at(i, updated);
                    assert(self@ =~= old(self)@.set_description(name@, description@));
                }
            },
            None => {},
        }
    }

    /// A copy of the concept named `name`.
    pub fn get_concept(&self, name: &str) -> (r: Option<Concept>)
        requires
            self.wf(),
        ensures
            match r {
                Some(c) => self@.concept(name@) == Some(c@),
                None => self@.concept(name@) is None,
            },
    {
        proof {
            self.lemma_tables();
        }
        match self.concepts.get(name) {
            Some(c) => Some(c.copy()),
            None => None,
        }
    }
}


/// Updates accumulated in memory before they are written to the graph.
pub struct LearningBatch {
    /// Concept name -> (energy delta, count delta).
    pub concepts: Table<(u64, u32)>,
    /// Relation key -> (weight delta, count delta, source, target).
    pub relations: Table<(u64, u32, String, String)>,
}

impl LearningBatch {
    /// An empty batch.
    pub fn new() -> (r: LearningBatch)
        ensures
            r.wf(),
            r.concepts@.len() == 0,
            r.relations@.len() == 0,
    {
        LearningBatch { concepts: Table::new(), relations: Table::new() }
    }

    pub open spec fn wf(&self) -> bool {
        self.concepts.wf() && self.relations.wf()
    }
}

/// The id under which a batch writes the relation from `source` to `target`.
pub open spec fn batch_relation_id(source: Seq<char>, target: Seq<char>) -> Seq<char> {
    "rel_"@ + source + "_"@ + target
}

/// Concepts after one batch entry: an existing concept gains the deltas and
/// is stamped `now`; a missing one is created with the deltas as its energy
/// and count.
pub open spec fn apply_concept_delta(
    cs: Seq<(Seq<char>, ConceptView)>,
    name: Seq<char>,
    energy_delta: u64,
    count_delta: u32,
    now: Seq<char>,
) -> Seq<(Seq<char>, ConceptView)> {
    match lookup(cs, name) {
        Some(c) => upsert(cs, name, ConceptView {
            energy: sat_add(c.energy, energy_delta),
            count: sat_add32(c.count, count_delta),
            last_seen: now,
            ..c
        }),
        None => cs.push((name, ConceptView {
            energy: energy_delta,
            count: count_delta,
            first_seen: now,
            last_seen: now,
            description: None,
        })),
    }
}

/// Concepts after all the concept entries of a batch, in order.
pub open spec fn apply_concept_deltas(
    cs: Seq<(Seq<char>, ConceptView)>,
    deltas: Seq<(Seq<char>, (u64, u32))>,
    now: Seq<char>,
) -> Seq<(Seq<char>, ConceptView)>
    decreases deltas.len(),
{
    if deltas.len() == 0 {
        cs
    } else {
        let d = deltas.last();
        apply_concept_delta(apply_concept_deltas(cs, deltas.drop_last(), now), d.0, d.1.0, d.1.1, now)
    }
}

/// Relations after one batch entry: an existing relation gains the weight
/// (capped at 1.0) and count and is stamped `now_ms`; a missing one is created
/// with the deltas as its weight and count.
pub open spec fn apply_relation_delta(
    rs: Seq<(Seq<char>, RelationView)>,
    weight_delta: u64,
    count_delta: u32,
    source: Seq<char>,
    target: Seq<char>,
    now_ms: u64,
) -> Seq<(Seq<char>, RelationView)> {
    let id = batch_relation_id(source, target);
    match lookup(rs, id) {
        Some(r) => upsert(rs, id, RelationView {
            weight: capped_weight(r.weight, weight_delta),
            count: sat_add32(r.count, count_delta),
            last_updated: now_ms,
            ..r
        }),
        None => rs.push((id, RelationView {
            id,
            source,
            target,
            weight: weight_delta,
            count: count_delta,
            last_updated: now_ms,
        })),
    }
}

/// Relations after all the relation entries of a batch, in order.
pub open spec fn apply_relation_deltas(
    rs: Seq<(Seq<char>, RelationView)>,
    deltas: Seq<(Seq<char>, (u64, u32, Seq<char>, Seq<char>))>,
    now_ms: u64,
) -> Seq<(Seq<char>, RelationView)>
    decreases deltas.len(),
{
    if deltas.len() == 0 {
        rs
    } else {
        let d = deltas.last();
        apply_relation_delta(apply_relation_deltas(rs, deltas.drop_last(), now_ms), d.1.0, d.1.1, d.1.2, d.1.3, now_ms)
    }
}

/// A count as a `u32`, capped at `u32::MAX`.
pub open spec fn capped_u32(n: nat) -> u32 {
    if n <= u32::MAX {
        n as u32
    } else {
        u32::MAX
    }
}

/// The relations after `cleanup`'s decay: weights times 0.95, stamped `now_ms`.
pub open spec fn decay_relations(rs: Seq<(Seq<char>, RelationView)>, now_ms: u64) -> Seq<
    (Seq<char>, RelationView),
> {
    rs.map_values(
        |e: (Seq<char>, RelationView)|
            (e.0, RelationView { weight: decay(e.1.weight), last_updated: now_ms, ..e.1 }),
    )
}

/// The concepts after `cleanup`'s decay: energies times 0.95, stamped `now`.
pub open spec fn decay_concepts(cs: Seq<(Seq<char>, ConceptView)>, now: Seq<char>) -> Seq<
    (Seq<char>, ConceptView),
> {
    cs.map_values(
        |e: (Seq<char>, ConceptView)|
            (e.0, ConceptView { energy: decay(e.1.energy), last_seen: now, ..e.1 }),
    )
}

/// Which relations survive `cleanup`: those whose (decayed) weight is not
/// below `min_weight`.
pub open spec fn relation_keep_mask(rs: Seq<(Seq<char>, RelationView)>, min_weight: u64) -> Seq<bool> {
    rs.map_values(|e: (Seq<char>, RelationView)| !(e.1.weight < min_weight))
}

/// Which concepts survive `cleanup`: those whose (decayed) energy is not
/// below `min_energy` and, in aggressive mode with relations left, that are
/// an endpoint of a remaining relation.
pub open spec fn concept_keep_mask(
    cs: Seq<(Seq<char>, ConceptView)>,
    rs: Seq<(Seq<char>, RelationView)>,
    min_energy: u64,
    aggressive: bool,
) -> Seq<bool> {
    cs.map_values(
        |e: (Seq<char>, ConceptView)|
            !(e.1.energy < min_energy || (aggressive && rs.len() > 0 && !is_connected(rs, e.0))),
    )
}

impl BrainView {
    /// The state after applying a learning batch at time `now` / `now_ms`.
    pub open spec fn apply_batch(
        self,
        concepts: Seq<(Seq<char>, (u64, u32))>,
        relations: Seq<(Seq<char>, (u64, u32, Seq<char>, Seq<char>))>,
        now: Seq<char>,
        now_ms: u64,
    ) -> BrainView {
        BrainView {
            concepts: apply_concept_deltas(self.concepts, concepts, now),
            relations: apply_relation_deltas(self.relations, relations, now_ms),
            ..self
        }
    }

    /// The state after `cleanup` at time `now` / `now_ms`.
    pub open spec fn cleanup(self, min_weight: u64, min_energy: u64, aggressive: bool, now: Seq<char>, now_ms: u64) -> BrainView {
        let rs = decay_relations(self.relations, now_ms);
        let kept = crate::table::filter_mask(rs, relation_keep_mask(rs, min_weight));
        let cs = decay_concepts(self.concepts, now);
        BrainView {
            concepts: crate::table::filter_mask(cs, concept_keep_mask(cs, kept, min_energy, aggressive)),
            relations: kept,
            ..self
        }
    }
}


impl Brain {
    proof fn lemma_relation_ids(&self, i: int)
        requires
            self.wf(),
            0 <= i < self@.relations.len(),
        ensures
            self@.relations[i].1.id == self@.relations[i].0,
    {
    }

    /// Adds the relation between `source` and `target` (either order gives the
    /// same relation) with weight 0 and count 0 stamped `now_ms`, unless it
    /// exists; returns its id.
    pub fn add_or_update_relation_at(&mut self, source: &str, target: &str, now_ms: u64) -> (r: String)
        requires
            old(self).wf(),
        ensures
            final(self).wf(),
            r@ == relation_id(source@, target@),
            match old(self)@.relation(r@) {
                Some(_) => final(self)@ == old(self)@,
                None => final(self)@ == old(self)@.with_relations(old(self)@.relations.push((r@, RelationView {
                    id: r@,
                    source: source@,
                    target: target@,
                    weight: 0,
                    count: 0,
                    last_updated: now_ms,
                }))),
            },
            final(self)@ == old(self)@.add_relation(source@, target@, now_ms),
    {
        proof {
            self.lemma_tables();
        }
        let id = relation_id_of(source, target);
        if !self.relations.contains_key(id.as_str()) {
            let rel = Relation {
                id: id.clone(),
                source: to_string(source),
                target: to_string(target),
                weight: 0,
                count: 0,
                last_updated: now_ms,
            };
            self.relations.push_new(id.clone(), rel);
            assert(self@ =~= old(self)@.with_relations(old(self)@.relations.push((id@, RelationView {
                id: id@,
                source: source@,
                target: target@,
                weight: 0,
                count: 0,
                last_updated: now_ms,
            }))));
        }
        id
    }

    /// `add_or_update_relation_at` stamped with the current time.
    pub fn add_or_update_relation(&mut self, source: &str, target: &str) -> (r: String)
        requires
            old(self).wf(),
        ensures
            final(self).wf(),
            r@ == relation_id(source@, target@),
            match old(self)@.relation(r@) {
                Some(_) => final(self)@ == old(self)@,
                None => exists|now_ms: u64| final(self)@ == old(self)@.with_relations(old(self)@.relations.push((r@, RelationView {
                    id: r@,
                    source: source@,
                    target: target@,
                    weight: 0,
                    count: 0,
                    last_updated: now_ms,
                }))),
            },
            exists|now_ms: u64| final(self)@ == old(self)@.add_relation(source@, target@, now_ms),
    {
        let now_ms = current_millis();
        self.add_or_update_relation_at(source, target, now_ms)
    }

    /// The relation between `a` and `b`, in either direction.
    pub fn get_relation(&self, a: &str, b: &str) -> (r: Option<&Relation>)
        requires
            self.wf(),
        ensures
            match r {
                Some(rel) => self@.relation(relation_id(a@, b@)) == Some(rel@),
                None => self@.relation(relation_id(a@, b@)) is None,
            },
    {
        proof {
            self.lemma_tables();
        }
        let id = relation_id_of(a, b);
        self.relations.get(id.as_str())
    }

    /// Sets the weight of the relation between `a` and `b`; returns whether it
    /// exists.
    pub fn set_relation_weight(&mut self, a: &str, b: &str, weight: u64) -> (r: bool)
        requires
            old(self).wf(),
        ensures
            final(self).wf(),
            r == (old(self)@.relation(relation_id(a@, b@)) is Some),
            match old(self)@.relation(relation_id(a@, b@)) {
                Some(rel) => final(self)@ == old(self)@.with_relations(upsert(old(self)@.relations, relation_id(a@, b@), RelationView { weight, ..rel })),
                None => final(self)@ == old(self)@,
            },
    {
        proof {
            self.lemma_tables();
            lemma_key_index(self@.relations, relation_id(a@, b@));
        }
        let id = relation_id_of(a, b);
        match self.relations.index_of(id.as_str()) {
            Some(i) => {
                let mut rel = self.relations.value_at(i).copy();
                rel.weight = weight;
                proof {
                    self.lemma_relation_ids(i as int);
                    lemma_upsert(self@.relations, id@, rel@);
                }
                self.relations.set_value_at(i, rel);
                assert(self@ =~= old(self)@.with_relations(upsert(old(self)@.relations, id@, rel@)));
                true
            },
            None => false,
        }
    }

    /// Sets the count of the relation between `a` and `b`; returns whether it
    /// exists.
    pub fn set_relation_count(&mut self, a: &str, b: &str, count: u32) -> (r: bool)
        requires
            old(self).wf(),
        ensures
            final(self).wf(),
            r == (old(self)@.relation(relation_id(a@, b@)) is Some),
            match old(self)@.relation(relation_id(a@, b@)) {
                Some(rel) => final(self)@ == old(self)@.with_relations(upsert(old(self)@.relations, relation_id(a@, b@), RelationView { count, ..rel })),
                None => final(self)@ == old(self)@,
            },
    {
        proof {
            self.lemma_tables();
            lemma_key_index(self@.relations, relation_id(a@, b@));
        }
        let id = relation_id_of(a, b);
        match self.relations.index_of(id.as_str()) {
            Some(i) => {
                let mut rel = self.relations.value_at(i).copy();
                rel.count = count;
                proof {
                    self.lemma_relation_ids(i as int);
                    lemma_upsert(self@.relations, id@, rel@);
                }
                self.relations.set_value_at(i, rel);
                assert(self@ =~= old(self)@.with_relations(upsert(old(self)@.relations, id@, rel@)));
                true
            },
            None => false,
        }
    }

    /// Adds to the weight (capped at 1.0) and count of relation `id` and
    /// stamps it with `now_ms` (no effect when absent).
    pub fn update_relation_at(&mut self, id: &str, weight_delta: u64, count_delta: u32, now_ms: u64)
        requires
            old(self).wf(),
        ensures
            final(self).wf(),
            final(self)@ == old(self)@.update_relation(id@, weight_delta, count_delta, now_ms),
    {
        proof {
            self.lemma_tables();
            lemma_key_index(self@.relations, id@);
        }
        match self.relations.index_of(id) {
            Some(i) => {
                let r = self.relations.value_at(i);
                let updated = Relation {
                    id: r.id.clone(),
                    source: r.source.clone(),
                    target: r.target.clone(),
                    weight: add_capped_weight(r.weight, weight_delta),
                    count: add_sat32(r.count, count_delta),
                    last_updated: now_ms,
                };
                proof {
                    self.lemma_relation_ids(i as int);
                    lemma_upsert(self@.relations, id@, updated@);
                }
                self.relations.set_value_at(i, updated);
                assert(self@ =~= old(self)@.update_relation(id@, weight_delta, count_delta, now_ms));
            },
            None => {},
        }
    }

    /// `update_relation_at` stamped with the current time.
    pub fn update_relation(&mut self, id: &str, weight_delta: u64, count_delta: u32)
        requires
            old(self).wf(),
        ensures
            final(self).wf(),
            exists|now_ms: u64| final(self)@ == old(self)@.update_relation(id@, weight_delta, count_delta, now_ms),
    {
        let now_ms = current_millis();
        self.update_relation_at(id, weight_delta, count_delta, now_ms);
    }

    /// Copies of the relations that have `concept` as source or target, in
    /// order.
    pub fn get_relations_for_concept(&self, concept: &str) -> (r: Vec<Relation>)
        requires
            self.wf(),
        ensures
            r@.map_values(|x: Relation| x@) == relations_touching(self@.relations, concept@),
    {
        proof {
            self.lemma_tables();
        }
        let mut out: Vec<Relation> = Vec::new();
        let mut i: usize = 0;
        while i < self.relations.len()
            invariant
                i <= self@.relations.len(),
                self.relations@ == self@.relations,
                out@.map_values(|x: Relation| x@) == relations_touching(self@.relations.take(i as int), concept@),
            decreases self@.relations.len() - i,
        {
            let r = self.relations.value_at(i);
            proof {
                assert(self@.relations.take(i as int + 1).drop_last() =~= self@.relations.take(i as int));
            }
            if str_eq_string(&r.source, concept) || str_eq_string(&r.target, concept) {
                let ghost before = out@;
                out.push(r.copy());
                assert(out@.map_values(|x: Relation| x@) =~= before.map_values(|x: Relation| x@).push(r@));
            }
            i = i + 1;
        }
        assert(self@.relations.take(i as int) =~= self@.relations);
        out
    }

    /// The neighbours of `x` with the connecting weights, in relation order.
    pub fn neighbors(&self, x: &str) -> (r: Vec<(String, u64)>)
        requires
            self.wf(),
        ensures
            r@.map_values(|e: (String, u64)| (e.0@, e.1)) == adjacency(self@.relations, x@),
    {
        proof {
            self.lemma_tables();
        }
        let mut out: Vec<(String, u64)> = Vec::new();
        let mut i: usize = 0;
        while i < self.relations.len()
            invariant
                i <= self@.relations.len(),
                self.relations@ == self@.relations,
                out@.map_values(|e: (String, u64)| (e.0@, e.1)) == adjacency(self@.relations.take(i as int), x@),
            decreases self@.relations.len() - i,
        {
            let r = self.relations.value_at(i);
            proof {
                assert(self@.relations.take(i as int + 1).drop_last() =~= self@.relations.take(i as int));
            }
            let ghost before = out@;
            if str_eq_string(&r.source, x) {
                out.push((r.target.clone(), r.weight));
            }
            let ghost mid = out@;
            if str_eq_string(&r.target, x) {
                out.push((r.source.clone(), r.weight));
            }
            proof {
                let f = |e: (String, u64)| (e.0@, e.1);
                if r@.source == x@ {
                    assert(mid.map_values(f) =~= before.map_values(f).push((r@.target, r@.weight)));
                } else {
                    assert(mid.map_values(f) =~= before.map_values(f));
                }
                if r@.target == x@ {
                    assert(out@.map_values(f) =~= mid.map_values(f).push((r@.source, r@.weight)));
                } else {
                    assert(out@.map_values(f) =~= mid.map_values(f));
                }
            }
            i = i + 1;
        }
        assert(self@.relations.take(i as int) =~= self@.relations);
        out
    }
}

/// Whether a `String` holds the same characters as a `str`.
pub fn str_eq_string(a: &String, b: &str) -> (r: bool)
    ensures
        r == (a@ == b@),
{
    crate::text::str_eq(a.as_str(), b)
}


impl Brain {
    /// Writes a learning batch at time `now` / `now_ms`: every concept entry
    /// (in order) raises or creates a concept, every relation entry raises
    /// (capped at 1.0) or creates the relation `rel_<source>_<target>`.
    /// Returns the numbers of relation and concept entries written.
    pub fn apply_batch_at(&mut self, batch: LearningBatch, now: &str, now_ms: u64) -> (r: (u32, u32))
        requires
            old(self).wf(),
            batch.wf(),
        ensures
            final(self).wf(),
            final(self)@ == old(self)@.apply_batch(batch.concepts@, batch.relations@, now@, now_ms),
            r == (capped_u32(batch.relations@.len()), capped_u32(batch.concepts@.len())),
    {
        proof {
            self.lemma_tables();
        }
        let ghost cd = batch.concepts@;
        let ghost rd = batch.relations@;
        let mut i: usize = 0;
        assert(cd.take(0) =~= Seq::<(Seq<char>, (u64, u32))>::empty());
        while i < batch.concepts.len()
            invariant
                i <= cd.len(),
                batch.concepts@ == cd,
                self.wf(),
                self@ == old(self)@.with_concepts(apply_concept_deltas(old(self)@.concepts, cd.take(i as int), now@)),
            decreases cd.len() - i,
        {
            let name = batch.concepts.key_at(i);
            let (ed, ccount) = *batch.concepts.value_at(i);
            proof {
                self.lemma_tables();
                assert(cd.take(i as int + 1).drop_last() =~= cd.take(i as int));
                lemma_key_index(self@.concepts, name@);
            }
            let ghost before = self@;
            match self.concepts.index_of(name.as_str()) {
                Some(k) => {
                    let c = self.concepts.value_at(k);
                    let updated = Concept {
                        energy: add_sat(c.energy, ed),
                        count: add_sat32(c.count, ccount),
                        first_seen: c.first_seen.clone(),
                        last_seen: to_string(now),
                        description: copy_opt_string(&c.description),
                    };
                    proof {
                        lemma_upsert(self@.concepts, name@, updated@);
                    }
                    self.concepts.set_value_at(k, updated);
                },
                None => {
                    let c = Concept {
                        energy: ed,
                        count: ccount,
                        first_seen: to_string(now),
                        last_seen: to_string(now),
                        description: None,
                    };
                    self.concepts.push_new(name.clone(), c);
                },
            }
            assert(self@ =~= old(self)@.with_concepts(apply_concept_deltas(old(self)@.concepts, cd.take(i as int + 1), now@)));
            assert(self.concepts.wf());
            assert(unique_keys(self@.concepts));
            assert(self@.relations == before.relations);
            assert(self@.books == before.books);
            assert(self@.book_concepts == before.book_concepts);
            i = i + 1;
        }
        assert(cd.take(cd.len() as int) =~= cd);
        let mut j: usize = 0;
        assert(rd.take(0) =~= Seq::<(Seq<char>, (u64, u32, Seq<char>, Seq<char>))>::empty());
        let ghost mid = self@;
        while j < batch.relations.len()
            invariant
                j <= rd.len(),
                batch.relations@ == rd,
                batch.relations.wf(),
                self.wf(),
                self@ == mid.with_relations(apply_relation_deltas(old(self)@.relations, rd.take(j as int), now_ms)),
            decreases rd.len() - j,
        {
            let entry = batch.relations.value_at(j);
            let wd = entry.0;
            let rc = entry.1;
            let mut id = to_string("rel_");
            id.append(entry.2.as_str());
            id.append("_");
            id.append(entry.3.as_str());
            proof {
                self.lemma_tables();
                assert(rd.take(j as int + 1).drop_last() =~= rd.take(j as int));
                lemma_key_index(self@.relations, id@);
                assert(id@ == batch_relation_id(rd[j as int].1.2, rd[j as int].1.3));
            }
            let ghost before = self@;
            match self.relations.index_of(id.as_str()) {
                Some(k) => {
                    let r = self.relations.value_at(k);
                    let updated = Relation {
                        id: r.id.clone(),
                        source: r.source.clone(),
                        target: r.target.clone(),
                        weight: add_capped_weight(r.weight, wd),
                        count: add_sat32(r.count, rc),
                        last_updated: now_ms,
                    };
                    proof {
                        self.lemma_relation_ids(k as int);
                        lemma_upsert(self@.relations, id@, updated@);
                    }
                    self.relations.set_value_at(k, updated);
                },
                None => {
                    let rel = Relation {
                        id: id.clone(),
                        source: entry.2.clone(),
                        target: entry.3.clone(),
                        weight: wd,
                        count: rc,
                        last_updated: now_ms,
                    };
                    self.relations.push_new(id, rel);
                },
            }
            assert(self@ =~= mid.with_relations(apply_relation_deltas(old(self)@.relations, rd.take(j as int + 1), now_ms)));
            assert(self.relations.wf());
            assert(unique_keys(self@.relations));
            assert(self@.concepts == before.concepts);
            assert(self@.books == before.books);
            assert(self@.book_concepts == before.book_concepts);
            assert forall|k: int| 0 <= k < self@.relations.len() implies #[trigger] self@.relations[k].1.id == self@.relations[k].0 by {
                if k < before.relations.len() && self@.relations[k] == before.relations[k] {
                    assert(before.relations[k].1.id == before.relations[k].0);
                }
            }
            j = j + 1;
        }
        assert(rd.take(rd.len() as int) =~= rd);
        let nr = batch.relations.len();
        let nc = batch.concepts.len();
        let rr: u32 = if nr > 0xffff_ffff {
            0xffff_ffff
        } else {
            nr as u32
        };
        let rcn: u32 = if nc > 0xffff_ffff {
            0xffff_ffff
        } else {
            nc as u32
        };
        (rr, rcn)
    }

    /// `apply_batch_at` stamped with the current time.
    pub fn apply_batch(&mut self, batch: LearningBatch) -> (r: (u32, u32))
        requires
            old(self).wf(),
            batch.wf(),
        ensures
            final(self).wf(),
            exists|now: Seq<char>, now_ms: u64| is_timestamp_text(now) && final(self)@ == old(self)@.apply_batch(batch.concepts@, batch.relations@, now, now_ms),
            r == (capped_u32(batch.relations@.len()), capped_u32(batch.concepts@.len())),
    {
        let now = current_timestamp();
        let now_ms = current_millis();
        self.apply_batch_at(batch, now.as_str(), now_ms)
    }
}


impl Brain {
    fn decay_all_relations(&mut self, now_ms: u64)
        requires
            old(self).wf(),
        ensures
            final(self).wf(),
            final(self)@ == old(self)@.with_relations(decay_relations(old(self)@.relations, now_ms)),
    {
        let n = self.relations.len();
        let ghost target = decay_relations(old(self)@.relations, now_ms);
        let mut i: usize = 0;
        assert(old(self)@.relations =~= target.take(0) + old(self)@.relations.skip(0));
        while i < n
            invariant
                i <= n,
                n == old(self)@.relations.len(),
                target.len() == n,
                target == decay_relations(old(self)@.relations, now_ms),
                self@.relations.len() == n,
                self.wf(),
                self@ == old(self)@.with_relations(target.take(i as int) + old(self)@.relations.skip(i as int)),
            decreases n - i,
        {
            proof {
                self.lemma_tables();
                self.lemma_relation_ids(i as int);
            }
            let ghost before = self@;
            assert(before.relations[i as int] == old(self)@.relations[i as int]);
            let r = self.relations.value_at(i);
            let updated = Relation {
                id: r.id.clone(),
                source: r.source.clone(),
                target: r.target.clone(),
                weight: decayed(r.weight),
                count: r.count,
                last_updated: now_ms,
            };
            assert(r@ == old(self)@.relations[i as int].1);
            assert(updated@.weight == decay(r@.weight));
            assert(updated@ == (RelationView { weight: decay(r@.weight), last_updated: now_ms, ..r@ }));
            self.relations.set_value_at(i, updated);
            assert(target[i as int] == (old(self)@.relations[i as int].0, updated@));
            assert(self@.relations =~= target.take(i as int + 1) + old(self)@.relations.skip(i as int + 1));
            assert(self@ =~= old(self)@.with_relations(target.take(i as int + 1) + old(self)@.relations.skip(i as int + 1)));
            assert(unique_keys(self@.relations));
            assert forall|k: int| 0 <= k < self@.relations.len() implies #[trigger] self@.relations[k].1.id == self@.relations[k].0 by {
                assert(before.relations[k].1.id == before.relations[k].0);
            }
            assert(self@.concepts == before.concepts);
            assert(self@.books == before.books);
            assert(self@.book_concepts == before.book_concepts);
            i = i + 1;
        }
        assert(target.take(n as int) + old(self)@.relations.skip(n as int) =~= target);
    }

    fn decay_all_concepts(&mut self, now: &str)
        requires
            old(self).wf(),
        ensures
            final(self).wf(),
            final(self)@ == old(self)@.with_concepts(decay_concepts(old(self)@.concepts, now@)),
    {
        let n = self.concepts.len();
        let ghost target = decay_concepts(old(self)@.concepts, now@);
        let mut i: usize = 0;
        assert(old(self)@.concepts =~= target.take(0) + old(self)@.concepts.skip(0));
        while i < n
            invariant
                i <= n,
                n == old(self)@.concepts.len(),
                target.len() == n,
                target == decay_concepts(old(self)@.concepts, now@),
                self@.concepts.len() == n,
                self.wf(),
                self@ == old(self)@.with_concepts(target.take(i as int) + old(self)@.concepts.skip(i as int)),
            decreases n - i,
        {
            proof {
                self.lemma_tables();
            }
            let ghost before = self@;
            assert(before.concepts[i as int] == old(self)@.concepts[i as int]);
            let c = self.concepts.value_at(i);
            let updated = Concept {
                energy: decayed(c.energy),
                count: c.count,
                first_seen: c.first_seen.clone(),
                last_seen: to_string(now),
                description: copy_opt_string(&c.description),
            };
            self.concepts.set_value_at(i, updated);
            assert(target[i as int] == (old(self)@.concepts[i as int].0, updated@));
            assert(self@.concepts =~= target.take(i as int + 1) + old(self)@.concepts.skip(i as int + 1));
            assert(self@ =~= old(self)@.with_concepts(target.take(i as int + 1) + old(self)@.concepts.skip(i as int + 1)));
            assert(unique_keys(self@.concepts));
            assert(self@.relations == before.relations);
            assert(self@.books == before.books);
            assert(self@.book_concepts == before.book_concepts);
            i = i + 1;
        }
        assert(target.take(n as int) + old(self)@.concepts.skip(n as int) =~= target);
    }

    /// Decays every relation weight and concept energy by 0.95 (stamping them
    /// with `now_ms` / `now`), deletes the relations whose weight is below
    /// `min_weight`, then the concepts whose energy is below `min_energy` and,
    /// when `aggressive` and relations remain, the concepts that no remaining
    /// relation touches.  Returns the numbers of deleted relations and
    /// concepts.
    pub fn cleanup_at(&mut self, min_weight: u64, min_energy: u64, aggressive: bool, now: &str, now_ms: u64) -> (r: (u32, u32))
        requires
            old(self).wf(),
        ensures
            final(self).wf(),
            final(self)@ == old(self)@.cleanup(min_weight, min_energy, aggressive, now@, now_ms),
            r.0 == (old(self)@.relations.len() - final(self)@.relations.len()) as u32,
            r.1 == (old(self)@.concepts.len() - final(self)@.concepts.len()) as u32,
    {
        let old_relations = self.relations.len();
        self.decay_all_relations(now_ms);
        let ghost rs = self@.relations;
        proof {
            self.lemma_tables();
        }
        let mut keep_r: Vec<bool> = Vec::new();
        let mut i: usize = 0;
        while i < self.relations.len()
            invariant
                i <= rs.len(),
                self.relations@ == rs,
                keep_r@ == relation_keep_mask(rs, min_weight).take(i as int),
            decreases rs.len() - i,
        {
            keep_r.push(!(self.relations.value_at(i).weight < min_weight));
            assert(keep_r@ =~= relation_keep_mask(rs, min_weight).take(i as int + 1));
            i = i + 1;
        }
        assert(keep_r@ =~= relation_keep_mask(rs, min_weight));
        let ghost before_r = self@;
        self.relations.retain_mask(&keep_r);
        proof {
            crate::table::lemma_filter_mask_len(rs, keep_r@);
            crate::table::lemma_filter_mask_unique(rs, keep_r@);
            assert forall|k: int| 0 <= k < self@.relations.len() implies #[trigger] self@.relations[k].1.id == self@.relations[k].0 by {
                let j = choose|j: int| 0 <= j < rs.len() && rs[j] == #[trigger] crate::table::filter_mask(rs, keep_r@)[k];
                assert(before_r.relations[j].1.id == before_r.relations[j].0);
            }
        }
        let new_relations = self.relations.len();
        let pruned_relations = (old_relations - new_relations) as u32;

        let old_concepts = self.concepts.len();
        self.decay_all_concepts(now);
        let ghost kept = self@.relations;
        let ghost cs = self@.concepts;
        proof {
            self.lemma_tables();
        }
        // The endpoints of the remaining relations.
        let mut connected: vstd::hash_map::StringHashMap<()> = vstd::hash_map::StringHashMap::new();
        let mut j: usize = 0;
        while j < self.relations.len()
            invariant
                j <= kept.len(),
                self.relations@ == kept,
                forall|x: Seq<char>| #[trigger] connected@.dom().contains(x) <==> is_connected(kept.take(j as int), x),
            decreases kept.len() - j,
        {
            let r = self.relations.value_at(j);
            connected.insert(r.source.clone(), ());
            connected.insert(r.target.clone(), ());
            proof {
                assert forall|x: Seq<char>| #[trigger] connected@.dom().contains(x) <==> is_connected(kept.take(j as int + 1), x) by {
                    let t = kept.take(j as int + 1);
                    if is_connected(kept.take(j as int), x) {
                        let w = choose|w: int| 0 <= w < kept.take(j as int).len() && (kept.take(j as int)[w].1.source == x || kept.take(j as int)[w].1.target == x);
                        assert(t[w] == kept.take(j as int)[w]);
                    }
                    if is_connected(t, x) {
                        let w = choose|w: int| 0 <= w < t.len() && (t[w].1.source == x || t[w].1.target == x);
                        if w < j {
                            assert(kept.take(j as int)[w] == t[w]);
                        }
                    }
                    if x == kept[j as int].1.source || x == kept[j as int].1.target {
                        assert(t[j as int] == kept[j as int]);
                    }
                }
            }
            j = j + 1;
        }
        assert(kept.take(j as int) =~= kept);
        let any_relations = self.relations.len() > 0;
        let mut keep_c: Vec<bool> = Vec::new();
        let mut k: usize = 0;
        while k < self.concepts.len()
            invariant
                k <= cs.len(),
                self.concepts@ == cs,
                any_relations == (kept.len() > 0),
                forall|x: Seq<char>| #[trigger] connected@.dom().contains(x) <==> is_connected(kept, x),
                keep_c@ == concept_keep_mask(cs, kept, min_energy, aggressive).take(k as int),
            decreases cs.len() - k,
        {
            let c = self.concepts.value_at(k);
            let name = self.concepts.key_at(k);
            let linked = connected.contains_key(name.as_str());
            keep_c.push(!(c.energy < min_energy || (aggressive && any_relations && !linked)));
            assert(keep_c@ =~= concept_keep_mask(cs, kept, min_energy, aggressive).take(k as int + 1));
            k = k + 1;
        }
        assert(keep_c@ =~= concept_keep_mask(cs, kept, min_energy, aggressive));
        let ghost before_c = self@;
        self.concepts.retain_mask(&keep_c);
        proof {
            crate::table::lemma_filter_mask_len(cs, keep_c@);
            assert(self@.relations == before_c.relations);
        }
        let new_concepts = self.concepts.len();
        let pruned_concepts = (old_concepts - new_concepts) as u32;
        assert(self@ =~= old(self)@.cleanup(min_weight, min_energy, aggressive, now@, now_ms));
        (pruned_relations, pruned_concepts)
    }

    /// `cleanup_at` stamped with the current time.
    pub fn cleanup(&mut self, min_weight: u64, min_energy: u64, aggressive: bool) -> (r: (u32, u32))
        requires
            old(self).wf(),
        ensures
            final(self).wf(),
            exists|now: Seq<char>, now_ms: u64| is_timestamp_text(now) && final(self)@ == old(self)@.cleanup(min_weight, min_energy, aggressive, now, now_ms),
            r.0 == (old(self)@.relations.len() - final(self)@.relations.len()) as u32,
            r.1 == (old(self)@.concepts.len() - final(self)@.concepts.len()) as u32,
    {
        let now = current_timestamp();
        let now_ms = current_millis();
        self.cleanup_at(min_weight, min_energy, aggressive, now.as_str(), now_ms)
    }

    /// Removes every concept, relation, book and book-concept record.
    pub fn clear(&mut self)
        requires
            old(self).wf(),
        ensures
            final(self).wf(),
            final(self)@ == (BrainView {
                concepts: Seq::empty(),
                relations: Seq::empty(),
                books: Seq::empty(),
                book_concepts: Seq::empty(),
                ..old(self)@
            }),
    {
        self.book_concepts.clear();
        self.relations.clear();
        self.concepts.clear();
        self.books.clear();
        assert(self@.books =~= Seq::<BookView>::empty());
        assert(self@.book_concepts =~= Seq::<BookConceptView>::empty());
        assert(self@ =~= (BrainView {
            concepts: Seq::empty(),
            relations: Seq::empty(),
            books: Seq::empty(),
            book_concepts: Seq::empty(),
            ..old(self)@
        }));
    }
}


// ---------------------------------------------------------------------------
// Books
// ---------------------------------------------------------------------------

/// Whether a book's title matches a title query: the query occurs in the
/// title, ASCII letters compared without case.
pub open spec fn title_matches(title: Seq<char>, query: Seq<char>) -> bool {
    crate::text::contains(crate::text::ascii_lower(title), crate::text::ascii_lower(query))
}

impl BrainView {
    /// The book with hash `h`, if any (hashes do not repeat).
    pub open spec fn book_with_hash(self, h: Seq<char>) -> Option<BookView> {
        if exists|i: int| 0 <= i < self.books.len() && self.books[i].file_hash == h {
            Some(self.books[choose|i: int| 0 <= i < self.books.len() && self.books[i].file_hash == h])
        } else {
            None
        }
    }

    /// The book with id `id`, if any (ids do not repeat).
    pub open spec fn book_with_id(self, id: i64) -> Option<BookView> {
        if exists|i: int| 0 <= i < self.books.len() && self.books[i].id == id {
            Some(self.books[choose|i: int| 0 <= i < self.books.len() && self.books[i].id == id])
        } else {
            None
        }
    }

    /// The record `add_book` appends.
    pub open spec fn new_book(self, hash: Seq<char>, path: Seq<char>, meta: BookMetadataView, size: i64, now: i64) -> BookView {
        BookView {
            id: (self.max_book_id + 1) as i64,
            file_hash: hash,
            file_path: Some(path),
            title: meta.title,
            author: meta.author,
            format: meta.format,
            file_size: size,
            processed_at: now,
            total_concepts_learned: 0,
        }
    }

    /// Whether `add_book` inserts: the hash is new and an id is left.
    pub open spec fn can_add_book(self, hash: Seq<char>) -> bool {
        self.book_with_hash(hash) is None && self.max_book_id < i64::MAX
    }

    /// The state after `add_book` at time `now`: the new record appended
    /// under the next id, which becomes the last inserted one; unchanged when
    /// the book cannot be added.
    pub open spec fn with_book(self, hash: Seq<char>, path: Seq<char>, meta: BookMetadataView, size: i64, now: i64) -> BrainView {
        if self.can_add_book(hash) {
            BrainView {
                books: self.books.push(self.new_book(hash, path, meta, size, now)),
                max_book_id: (self.max_book_id + 1) as i64,
                last_insert_id: (self.max_book_id + 1) as i64,
                ..self
            }
        } else {
            self
        }
    }

    /// The position of the book-concept record of `(book_id, name)`, if any.
    pub open spec fn book_concept_index(self, book_id: i64, name: Seq<char>) -> Option<int> {
        if exists|i: int| 0 <= i < self.book_concepts.len() && self.book_concepts[i].book_id == book_id && self.book_concepts[i].concept_name == name {
            Some(choose|i: int| 0 <= i < self.book_concepts.len() && self.book_concepts[i].book_id == book_id && self.book_concepts[i].concept_name == name)
        } else {
            None
        }
    }

    /// The state after `track_book_concept`: the mention count of
    /// `(book_id, name)` is raised by one (capped), or the record is created
    /// with count 2 (one on insertion, one on the update that follows).
    pub open spec fn track_book_concept(self, book_id: i64, name: Seq<char>) -> BrainView {
        match self.book_concept_index(book_id, name) {
            Some(i) => BrainView {
                book_concepts: self.book_concepts.update(i, BookConceptView {
                    mention_count: if self.book_concepts[i].mention_count == i32::MAX { i32::MAX } else { (self.book_concepts[i].mention_count + 1) as i32 },
                    ..self.book_concepts[i]
                }),
                ..self
            },
            None => BrainView {
                book_concepts: self.book_concepts.push(BookConceptView { book_id, concept_name: name, mention_count: 2 }),
                ..self
            },
        }
    }
}

/// The wall-clock seconds `add_book` records (0 when the clock is set before
/// the Unix epoch).
pub open spec fn book_time(secs: Option<u64>) -> i64 {
    match secs {
        Some(s) => s as i64,
        None => 0,
    }
}

impl Brain {
    proof fn lemma_books(&self)
        requires
            self.wf(),
        ensures
            self.books@.map_values(|b: Book| b@) == self@.books,
            self.book_concepts@.map_values(|b: BookConcept| b@) == self@.book_concepts,
    {
    }

    /// The book learned from content with hash `file_hash`.
    pub fn has_book(&self, file_hash: &str) -> (r: Option<Book>)
        requires
            self.wf(),
        ensures
            match r {
                Some(b) => self@.book_with_hash(file_hash@) == Some(b@),
                None => self@.book_with_hash(file_hash@) is None,
            },
    {
        let mut i: usize = 0;
        while i < self.books.len()
            invariant
                self.wf(),
                i <= self@.books.len(),
                forall|j: int| 0 <= j < i ==> self@.books[j].file_hash != file_hash@,
            decreases self@.books.len() - i,
        {
            proof {
                self.lemma_books();
            }
            if str_eq_string(&self.books[i].file_hash, file_hash) {
                assert(self@.books[i as int].file_hash == file_hash@);
                return Some(self.books[i].copy());
            }
            i = i + 1;
        }
        None
    }

    /// Records a learned book at time `now`: appends it with the next id and
    /// returns that id.  A hash already recorded (or no id left) inserts
    /// nothing and returns the id of the last inserted book (0 if none).
    pub fn add_book_at(&mut self, file_hash: &str, file_path: &str, metadata: &BookMetadata, file_size: i64, now: i64) -> (r: i64)
        requires
            old(self).wf(),
        ensures
            final(self).wf(),
            if old(self)@.can_add_book(file_hash@) {
                &&& r == old(self)@.max_book_id + 1
                &&& final(self)@ == (BrainView {
                    books: old(self)@.books.push(old(self)@.new_book(file_hash@, file_path@, metadata@, file_size, now)),
                    max_book_id: r,
                    last_insert_id: r,
                    ..old(self)@
                })
            } else {
                r == old(self)@.last_insert_id && final(self)@ == old(self)@
            },
            final(self)@ == old(self)@.with_book(file_hash@, file_path@, metadata@, file_size, now),
    {
        if self.has_book(file_hash).is_some() || self.max_book_id == i64::MAX {
            return self.last_insert_id;
        }
        let id = self.max_book_id + 1;
        let book = Book {
            id,
            file_hash: to_string(file_hash),
            file_path: Some(to_string(file_path)),
            title: metadata.title.clone(),
            author: copy_opt_string(&metadata.author),
            format: metadata.format.clone(),
            file_size,
            processed_at: now,
            total_concepts_learned: 0,
        };
        let ghost before = self@;
        self.books.push(book);
        self.max_book_id = id;
        self.last_insert_id = id;
        proof {
            assert(self@.books =~= before.books.push(before.new_book(file_hash@, file_path@, metadata@, file_size, now)));
            assert forall|i: int, j: int| 0 <= i < self@.books.len() && 0 <= j < self@.books.len() && i != j implies #[trigger] self@.books[i].file_hash != #[trigger] self@.books[j].file_hash by {
                if i < before.books.len() && j < before.books.len() {
                    assert(self@.books[i] == before.books[i]);
                    assert(self@.books[j] == before.books[j]);
                } else if i < before.books.len() {
                    assert(self@.books[i] == before.books[i]);
                } else {
                    assert(self@.books[j] == before.books[j]);
                }
            }
            assert forall|i: int, j: int| 0 <= i < j < self@.books.len() implies #[trigger] self@.books[i].id < #[trigger] self@.books[j].id by {
                assert(self@.books[i] == before.books[i]);
                if j < before.books.len() {
                    assert(self@.books[j] == before.books[j]);
                }
            }
            assert forall|i: int| 0 <= i < self@.books.len() implies 0 < #[trigger] self@.books[i].id <= self@.max_book_id by {
                if i < before.books.len() {
                    assert(self@.books[i] == before.books[i]);
                }
            }
        }
        id
    }

    /// `add_book_at` stamped with the current time in seconds.
    pub fn add_book(&mut self, file_hash: &str, file_path: &str, metadata: &BookMetadata, file_size: i64) -> (r: i64)
        requires
            old(self).wf(),
        ensures
            final(self).wf(),
            exists|secs: Option<u64>| #![trigger book_time(secs)] {
                let now = book_time(secs);
                if old(self)@.can_add_book(file_hash@) {
                    &&& r == old(self)@.max_book_id + 1
                    &&& final(self)@ == (BrainView {
                        books: old(self)@.books.push(old(self)@.new_book(file_hash@, file_path@, metadata@, file_size, now)),
                        max_book_id: r,
                        last_insert_id: r,
                        ..old(self)@
                    })
                } else {
                    r == old(self)@.last_insert_id && final(self)@ == old(self)@
                }
            },
            exists|now: i64| final(self)@ == old(self)@.with_book(file_hash@, file_path@, metadata@, file_size, now),
    {
        let secs = clock_secs();
        let now: i64 = match secs {
            Some(s) => s as i64,
            None => 0,
        };
        assert(now == book_time(secs));
        self.add_book_at(file_hash, file_path, metadata, file_size, now)
    }

    /// Sets the learned-concept count of book `book_id`.
    pub fn update_book_concept_count(&mut self, book_id: i64, count: i64)
        requires
            old(self).wf(),
        ensures
            final(self).wf(),
            final(self)@ == (BrainView {
                books: old(self)@.books.map_values(|b: BookView| if b.id == book_id { BookView { total_concepts_learned: count, ..b } } else { b }),
                ..old(self)@
            }),
    {
        let ghost target = old(self)@.books.map_values(|b: BookView| if b.id == book_id { BookView { total_concepts_learned: count, ..b } } else { b });
        let n = self.books.len();
        let mut i: usize = 0;
        proof {
            self.lemma_books();
        }
        assert(self@.books =~= target.take(0) + old(self)@.books.skip(0));
        while i < n
            invariant
                i <= n,
                n == old(self)@.books.len(),
                self.books@.len() == n,
                target == old(self)@.books.map_values(|b: BookView| if b.id == book_id { BookView { total_concepts_learned: count, ..b } } else { b }),
                self@ == (BrainView { books: target.take(i as int) + old(self)@.books.skip(i as int), ..old(self)@ }),
            decreases n - i,
        {
            let ghost before = self.books@.map_values(|b: Book| b@);
            assert(before[i as int] == old(self)@.books[i as int]);
            assert(self.books@[i as int]@ == before[i as int]);
            if self.books[i].id == book_id {
                let mut b = self.books[i].copy();
                b.total_concepts_learned = count;
                self.books.set(i, b);
                assert(b@ == target[i as int]);
            } else {
                assert(self.books@[i as int]@ == target[i as int]);
            }
            proof {
                let now_books = self.books@.map_values(|b: Book| b@);
                let want = target.take(i as int + 1) + old(self)@.books.skip(i as int + 1);
                assert(before == target.take(i as int) + old(self)@.books.skip(i as int));
                assert forall|k: int| 0 <= k < n implies #[trigger] now_books[k] == want[k] by {
                    if k < i {
                        assert(now_books[k] == before[k]);
                    } else if k > i {
                        assert(now_books[k] == before[k]);
                    }
                }
                assert(now_books =~= want);
            }
            i = i + 1;
        }
        assert(target.take(n as int) + old(self)@.books.skip(n as int) =~= target);
        proof {
            assert forall|i: int| 0 <= i < self@.books.len() implies 0 < #[trigger] self@.books[i].id <= self@.max_book_id by {
                assert(self@.books[i].id == old(self)@.books[i].id);
            }
            assert forall|i: int, j: int| 0 <= i < j < self@.books.len() implies #[trigger] self@.books[i].id < #[trigger] self@.books[j].id by {
                assert(self@.books[i].id == old(self)@.books[i].id);
                assert(self@.books[j].id == old(self)@.books[j].id);
            }
            assert forall|i: int, j: int| 0 <= i < self@.books.len() && 0 <= j < self@.books.len() && i != j implies #[trigger] self@.books[i].file_hash != #[trigger] self@.books[j].file_hash by {
                assert(self@.books[i].file_hash == old(self)@.books[i].file_hash);
                assert(self@.books[j].file_hash == old(self)@.books[j].file_hash);
            }
        }
    }

    /// Removes book `book_id` (its concepts stay); returns whether it existed.
    pub fn remove_book(&mut self, book_id: i64) -> (r: bool)
        requires
            old(self).wf(),
        ensures
            final(self).wf(),
            r == (old(self)@.book_with_id(book_id) is Some),
            final(self)@ == (BrainView {
                books: old(self)@.books.filter(|b: BookView| b.id != book_id),
                ..old(self)@
            }),
    {
        let mut i: usize = 0;
        while i < self.books.len()
            invariant
                self.wf(),
                self@ == old(self)@,
                i <= self@.books.len(),
                forall|j: int| 0 <= j < i ==> self@.books[j].id != book_id,
            decreases self@.books.len() - i,
        {
            proof {
                self.lemma_books();
            }
            if self.books[i].id == book_id {
                assert(self@.books[i as int].id == book_id);
                let ghost before = self@;
                self.books.remove(i);
                proof {
                    let bs = before.books;
                    let f = |b: BookView| b.id != book_id;
                    assert(self@.books =~= bs.remove(i as int));
                    // Ids are strictly increasing, so `i` is the only match.
                    assert(bs.filter(f) =~= bs.remove(i as int)) by {
                        crate::filter::lemma_filter_remove_only(bs, f, i as int);
                    }
                    assert forall|a: int| 0 <= a < self@.books.len() implies 0 < #[trigger] self@.books[a].id <= self@.max_book_id by {
                        if a < i {
                            assert(self@.books[a] == bs[a]);
                        } else {
                            assert(self@.books[a] == bs[a + 1]);
                        }
                    }
                    assert forall|a: int, b: int| 0 <= a < b < self@.books.len() implies #[trigger] self@.books[a].id < #[trigger] self@.books[b].id by {
                        let a2 = if a < i { a } else { a + 1 };
                        let b2 = if b < i { b } else { b + 1 };
                        assert(self@.books[a] == bs[a2]);
                        assert(self@.books[b] == bs[b2]);
                    }
                    assert forall|a: int, b: int| 0 <= a < self@.books.len() && 0 <= b < self@.books.len() && a != b implies #[trigger] self@.books[a].file_hash != #[trigger] self@.books[b].file_hash by {
                        let a2 = if a < i { a } else { a + 1 };
                        let b2 = if b < i { b } else { b + 1 };
                        assert(self@.books[a] == bs[a2]);
                        assert(self@.books[b] == bs[b2]);
                    }
                }
                return true;
            }
            i = i + 1;
        }
        proof {
            let f = |b: BookView| b.id != book_id;
            crate::filter::lemma_filter_all(self@.books, f);
        }
        false
    }
}


/// The sort keys of books by processing time.
pub open spec fn processed_keys(books: Seq<BookView>) -> Seq<i128> {
    books.map_values(|b: BookView| b.processed_at as i128)
}

/// The book-concept records of book `book_id`, in insertion order.
pub open spec fn concepts_of_book(records: Seq<BookConceptView>, book_id: i64) -> Seq<BookConceptView> {
    records.filter(|r: BookConceptView| r.book_id == book_id)
}

/// The sort keys of book-concept records by mention count.
pub open spec fn mention_keys(records: Seq<BookConceptView>) -> Seq<i128> {
    records.map_values(|r: BookConceptView| r.mention_count as i128)
}

impl Brain {
    /// Copies of all books, most recently processed first (books processed
    /// at the same time in insertion order).
    pub fn get_all_books(&self) -> (r: Vec<Book>)
        requires
            self.wf(),
        ensures
            exists|order: Seq<usize>|
                #[trigger] is_stable_desc_order(processed_keys(self@.books), order)
                && r@.map_values(|b: Book| b@) == order.map_values(|i: usize| self@.books[i as int]),
    {
        proof {
            self.lemma_books();
        }
        let mut keys: Vec<i128> = Vec::new();
        let mut i: usize = 0;
        while i < self.books.len()
            invariant
                self.wf(),
                i <= self@.books.len(),
                keys@ == processed_keys(self@.books).take(i as int),
            decreases self@.books.len() - i,
        {
            proof {
                self.lemma_books();
            }
            keys.push(self.books[i].processed_at as i128);
            assert(keys@ =~= processed_keys(self@.books).take(i as int + 1));
            i = i + 1;
        }
        assert(keys@ =~= processed_keys(self@.books));
        let order = stable_desc_order(&keys);
        let mut out: Vec<Book> = Vec::new();
        let mut k: usize = 0;
        while k < order.len()
            invariant
                self.wf(),
                k <= order@.len(),
                is_stable_desc_order(keys@, order@),
                keys@.len() == self@.books.len(),
                out@.map_values(|b: Book| b@) == order@.take(k as int).map_values(|i: usize| self@.books[i as int]),
            decreases order@.len() - k,
        {
            proof {
                self.lemma_books();
            }
            let idx = order[k];
            assert(idx < self@.books.len());
            let b = self.books[idx].copy();
            assert(b@ == self@.books[idx as int]);
            let ghost before = out@;
            out.push(b);
            assert(out@.map_values(|b: Book| b@) =~= before.map_values(|b: Book| b@).push(b@));
            assert(out@.map_values(|b: Book| b@) =~= order@.take(k as int + 1).map_values(|i: usize| self@.books[i as int]));
            k = k + 1;
        }
        assert(order@.take(order@.len() as int) =~= order@);
        out
    }

    /// The book whose id is `id_or_title` read as an integer; otherwise the
    /// first book (in insertion order) whose title contains `id_or_title`,
    /// ASCII letters compared without case.
    pub fn get_book(&self, id_or_title: &str) -> (r: Option<Book>)
        requires
            self.wf(),
        ensures
            match crate::text::parse_i64(id_or_title@) {
                Some(id) => match r {
                    Some(b) => self@.book_with_id(id) == Some(b@),
                    None => self@.book_with_id(id) is None,
                },
                None => match r {
                    Some(b) => exists|i: int|
                        0 <= i < self@.books.len() && self@.books[i] == b@ && title_matches(b@.title, id_or_title@)
                        && forall|j: int| 0 <= j < i ==> !title_matches(#[trigger] self@.books[j].title, id_or_title@),
                    None => forall|i: int| 0 <= i < self@.books.len() ==> !title_matches(#[trigger] self@.books[i].title, id_or_title@),
                },
            },
    {
        proof {
            self.lemma_books();
        }
        match crate::text::parse_i64_str(id_or_title) {
            Some(id) => {
                let mut i: usize = 0;
                while i < self.books.len()
                    invariant
                        self.wf(),
                        i <= self@.books.len(),
                        crate::text::parse_i64(id_or_title@) == Some(id),
                        forall|j: int| 0 <= j < i ==> self@.books[j].id != id,
                    decreases self@.books.len() - i,
                {
                    proof {
                        self.lemma_books();
                    }
                    if self.books[i].id == id {
                        assert(self@.books[i as int].id == id);
                        let b = self.books[i].copy();
                        proof {
                            let bs = self@.books;
                            let j = choose|j: int| 0 <= j < bs.len() && bs[j].id == id;
                            if j < i {
                                assert(bs[j].id < bs[i as int].id);
                            } else if j > i {
                                assert(bs[i as int].id < bs[j].id);
                            }
                            assert(b@ == bs[i as int]);
                        }
                        return Some(b);
                    }
                    i = i + 1;
                }
                None
            },
            None => {
                let query = crate::text::to_ascii_lower(id_or_title);
                let qv = chars_of(query.as_str());
                let mut i: usize = 0;
                while i < self.books.len()
                    invariant
                        self.wf(),
                        i <= self@.books.len(),
                        qv@ == crate::text::ascii_lower(id_or_title@),
                        crate::text::parse_i64(id_or_title@) is None,
                        forall|j: int| 0 <= j < i ==> !title_matches(#[trigger] self@.books[j].title, id_or_title@),
                    decreases self@.books.len() - i,
                {
                    proof {
                        self.lemma_books();
                    }
                    let t = crate::text::to_ascii_lower(self.books[i].title.as_str());
                    let tv = chars_of(t.as_str());
                    if crate::text::chars_contain(&tv, &qv) {
                        assert(title_matches(self@.books[i as int].title, id_or_title@));
                        let b = self.books[i].copy();
                        assert(b@ == self@.books[i as int]);
                        return Some(b);
                    }
                    i = i + 1;
                }
                None
            },
        }
    }

    /// Counts one more mention of `concept_name` in book `book_id`.
    pub fn track_book_concept(&mut self, book_id: i64, concept_name: &str)
        requires
            old(self).wf(),
        ensures
            final(self).wf(),
            final(self)@ == old(self)@.track_book_concept(book_id, concept_name@),
    {
        proof {
            self.lemma_books();
        }
        let mut i: usize = 0;
        while i < self.book_concepts.len()
            invariant
                self.wf(),
                self@ == old(self)@,
                i <= self@.book_concepts.len(),
                forall|j: int| 0 <= j < i ==> !(self@.book_concepts[j].book_id == book_id && self@.book_concepts[j].concept_name == concept_name@),
            decreases self@.book_concepts.len() - i,
        {
            proof {
                self.lemma_books();
            }
            if self.book_concepts[i].book_id == book_id && str_eq_string(&self.book_concepts[i].concept_name, concept_name) {
                let ghost bc = self@.book_concepts;
                proof {
                    assert(bc[i as int].book_id == book_id && bc[i as int].concept_name == concept_name@);
                    let k = choose|k: int| 0 <= k < bc.len() && bc[k].book_id == book_id && bc[k].concept_name == concept_name@;
                    if k != i {
                        assert((bc[k].book_id, bc[k].concept_name) == (bc[i as int].book_id, bc[i as int].concept_name));
                    }
                    assert(old(self)@.book_concept_index(book_id, concept_name@) == Some(i as int));
                }
                let m = self.book_concepts[i].mention_count;
                let updated = BookConcept {
                    book_id,
                    concept_name: self.book_concepts[i].concept_name.clone(),
                    mention_count: if m == i32::MAX { i32::MAX } else { m + 1 },
                };
                self.book_concepts.set(i, updated);
                proof {
                    assert(self@.book_concepts =~= old(self)@.track_book_concept(book_id, concept_name@).book_concepts);
                    assert forall|a: int, b: int| 0 <= a < self@.book_concepts.len() && 0 <= b < self@.book_concepts.len() && a != b implies (#[trigger] self@.book_concepts[a].book_id, self@.book_concepts[a].concept_name) != (#[trigger] self@.book_concepts[b].book_id, self@.book_concepts[b].concept_name) by {
                        assert(self@.book_concepts[a].book_id == bc[a].book_id && self@.book_concepts[a].concept_name == bc[a].concept_name);
                        assert(self@.book_concepts[b].book_id == bc[b].book_id && self@.book_concepts[b].concept_name == bc[b].concept_name);
                    }
                }
                return;
            }
            i = i + 1;
        }
        let ghost bc = self@.book_concepts;
        self.book_concepts.push(BookConcept { book_id, concept_name: to_string(concept_name), mention_count: 2 });
        proof {
            assert(old(self)@.book_concept_index(book_id, concept_name@) is None);
            assert(self@.book_concepts =~= bc.push(BookConceptView { book_id, concept_name: concept_name@, mention_count: 2 }));
            assert forall|a: int, b: int| 0 <= a < self@.book_concepts.len() && 0 <= b < self@.book_concepts.len() && a != b implies (#[trigger] self@.book_concepts[a].book_id, self@.book_concepts[a].concept_name) != (#[trigger] self@.book_concepts[b].book_id, self@.book_concepts[b].concept_name) by {
                if a < bc.len() {
                    assert(self@.book_concepts[a] == bc[a]);
                }
                if b < bc.len() {
                    assert(self@.book_concepts[b] == bc[b]);
                }
            }
        }
    }

    /// The concepts recorded for book `book_id` with their mention counts,
    /// most mentioned first (equal counts in insertion order).
    pub fn get_book_concepts(&self, book_id: i64) -> (r: Vec<(String, i32)>)
        requires
            self.wf(),
        ensures
            exists|order: Seq<usize>|
                #[trigger] is_stable_desc_order(mention_keys(concepts_of_book(self@.book_concepts, book_id)), order)
                && r@.map_values(|e: (String, i32)| (e.0@, e.1)) == order.map_values(|i: usize| (
                    concepts_of_book(self@.book_concepts, book_id)[i as int].concept_name,
                    concepts_of_book(self@.book_concepts, book_id)[i as int].mention_count,
                )),
    {
        proof {
            self.lemma_books();
        }
        let ghost recs = concepts_of_book(self@.book_concepts, book_id);
        let mut names: Vec<String> = Vec::new();
        let mut keys: Vec<i128> = Vec::new();
        let mut i: usize = 0;
        while i < self.book_concepts.len()
            invariant
                self.wf(),
                i <= self@.book_concepts.len(),
                names@.len() == keys@.len(),
                names@.len() == concepts_of_book(self@.book_concepts.take(i as int), book_id).len(),
                forall|k: int| 0 <= k < names@.len() ==> #[trigger] names@[k]@ == concepts_of_book(self@.book_concepts.take(i as int), book_id)[k].concept_name,
                keys@ == mention_keys(concepts_of_book(self@.book_concepts.take(i as int), book_id)),
            decreases self@.book_concepts.len() - i,
        {
            proof {
                self.lemma_books();
                reveal_with_fuel(Seq::<_>::filter, 1);
                assert(self@.book_concepts.take(i as int + 1).drop_last() =~= self@.book_concepts.take(i as int));
            }
            let ghost prev = concepts_of_book(self@.book_concepts.take(i as int), book_id);
            if self.book_concepts[i].book_id == book_id {
                names.push(self.book_concepts[i].concept_name.clone());
                keys.push(self.book_concepts[i].mention_count as i128);
                proof {
                    let now = concepts_of_book(self@.book_concepts.take(i as int + 1), book_id);
                    assert(now == prev.push(self@.book_concepts[i as int]));
                    assert(keys@ =~= mention_keys(now));
                }
            } else {
                proof {
                    let now = concepts_of_book(self@.book_concepts.take(i as int + 1), book_id);
                    assert(now == prev);
                }
            }
            i = i + 1;
        }
        assert(self@.book_concepts.take(i as int) =~= self@.book_concepts);
        let order = stable_desc_order(&keys);
        let mut out: Vec<(String, i32)> = Vec::new();
        let mut k: usize = 0;
        while k < order.len()
            invariant
                k <= order@.len(),
                is_stable_desc_order(keys@, order@),
                keys@ == mention_keys(recs),
                names@.len() == recs.len(),
                forall|q: int| 0 <= q < names@.len() ==> #[trigger] names@[q]@ == recs[q].concept_name,
                out@.map_values(|e: (String, i32)| (e.0@, e.1)) == order@.take(k as int).map_values(|i: usize| (recs[i as int].concept_name, recs[i as int].mention_count)),
            decreases order@.len() - k,
        {
            let idx = order[k];
            assert(idx < recs.len());
            let m = keys[idx] as i32;
            assert(m == recs[idx as int].mention_count);
            let nm = names[idx].clone();
            assert(nm@ == recs[idx as int].concept_name);
            let ghost before = out@;
            out.push((nm, m));
            assert(out@.map_values(|e: (String, i32)| (e.0@, e.1)) =~= before.map_values(|e: (String, i32)| (e.0@, e.1)).push((recs[idx as int].concept_name, recs[idx as int].mention_count)));
            assert(out@.map_values(|e: (String, i32)| (e.0@, e.1)) =~= order@.take(k as int + 1).map_values(|i: usize| (recs[i as int].concept_name, recs[i as int].mention_count)));
            k = k + 1;
        }
        assert(order@.take(order@.len() as int) =~= order@);
        out
    }
}

// ---------------------------------------------------------------------------
// Stored records
// ---------------------------------------------------------------------------

/// The graph state made of stored records: concepts with their names,
/// relations keyed by their ids, books and book-concept records, counters.
pub open spec fn records_view(
    concepts: Seq<(String, Concept)>,
    relations: Seq<Relation>,
    books: Seq<Book>,
    book_concepts: Seq<BookConcept>,
    last_insert_id: i64,
    max_book_id: i64,
    version: Seq<char>,
    meta: BrainMeta,
) -> BrainView {
    BrainView {
        concepts: concepts.map_values(|e: (String, Concept)| (e.0@, e.1@)),
        relations: relations.map_values(|r: Relation| (r.id@, r@)),
        books: books.map_values(|b: Book| b@),
        book_concepts: book_concepts.map_values(|b: BookConcept| b@),
        last_insert_id,
        max_book_id,
        version,
        meta,
    }
}

impl Brain {
    /// The book records, in order of their ids.
    pub fn books(&self) -> (r: &Vec<Book>)
        ensures
            r@.map_values(|b: Book| b@) == self@.books,
    {
        &self.books
    }

    /// The book-concept records.
    pub fn book_concept_records(&self) -> (r: &Vec<BookConcept>)
        ensures
            r@.map_values(|b: BookConcept| b@) == self@.book_concepts,
    {
        &self.book_concepts
    }

    /// The id of the last book added.
    pub fn last_insert_id(&self) -> (r: i64)
        ensures
            r == self@.last_insert_id,
    {
        self.last_insert_id
    }

    /// The largest book id handed out.
    pub fn max_book_id(&self) -> (r: i64)
        ensures
            r == self@.max_book_id,
    {
        self.max_book_id
    }

    /// Rebuilds a graph from stored records; `None` when they break the graph
    /// invariant (a repeated concept name or relation id, a book id that is
    /// not positive, not above the previous one or above `max_book_id`, a
    /// repeated file hash, a repeated book-concept pair, or a negative
    /// `max_book_id`).
    pub fn from_records(
        concepts: &Vec<(String, Concept)>,
        relations: &Vec<Relation>,
        books: &Vec<Book>,
        book_concepts: &Vec<BookConcept>,
        last_insert_id: i64,
        max_book_id: i64,
        version: &str,
        meta: BrainMeta,
    ) -> (r: Option<Brain>)
        ensures
            match r {
                Some(b) => b.wf() && b@ == records_view(concepts@, relations@, books@, book_concepts@, last_insert_id, max_book_id, version@, meta),
                None => !records_view(concepts@, relations@, books@, book_concepts@, last_insert_id, max_book_id, version@, meta).inv(),
            },
    {
        let ghost v = records_view(concepts@, relations@, books@, book_concepts@, last_insert_id, max_book_id, version@, meta);
        if max_book_id < 0 {
            return None;
        }
        let mut ct: Table<Concept> = Table::new();
        let mut i: usize = 0;
        while i < concepts.len()
            invariant
                i <= concepts@.len(),
                v == records_view(concepts@, relations@, books@, book_concepts@, last_insert_id, max_book_id, version@, meta),
                ct.wf(),
                ct@ == v.concepts.take(i as int),
            decreases concepts@.len() - i,
        {
            let k = &concepts[i].0;
            if ct.contains_key(k.as_str()) {
                proof {
                    lemma_key_index(ct@, k@);
                    let j = key_index(ct@, k@);
                    assert(v.concepts[j].0 == v.concepts[i as int].0);
                }
                return None;
            }
            ct.push_new(k.clone(), concepts[i].1.copy());
            assert(ct@ =~= v.concepts.take(i as int + 1));
            i = i + 1;
        }
        assert(v.concepts.take(i as int) =~= v.concepts);
        let mut rt: Table<Relation> = Table::new();
        let mut i: usize = 0;
        while i < relations.len()
            invariant
                i <= relations@.len(),
                v == records_view(concepts@, relations@, books@, book_concepts@, last_insert_id, max_book_id, version@, meta),
                rt.wf(),
                rt@ == v.relations.take(i as int),
            decreases relations@.len() - i,
        {
            let k = &relations[i].id;
            if rt.contains_key(k.as_str()) {
                proof {
                    lemma_key_index(rt@, k@);
                    let j = key_index(rt@, k@);
                    assert(v.relations[j].0 == v.relations[i as int].0);
                }
                return None;
            }
            rt.push_new(k.clone(), relations[i].copy());
            assert(rt@ =~= v.relations.take(i as int + 1));
            i = i + 1;
        }
        assert(v.relations.take(i as int) =~= v.relations);
        let mut bs: Vec<Book> = Vec::new();
        let mut i: usize = 0;
        while i < books.len()
            invariant
                i <= books@.len(),
                0 <= max_book_id,
                v == records_view(concepts@, relations@, books@, book_concepts@, last_insert_id, max_book_id, version@, meta),
                bs@.map_values(|b: Book| b@) == v.books.take(i as int),
                forall|a: int| 0 <= a < i ==> 0 < #[trigger] v.books[a].id <= max_book_id,
                forall|a: int, b: int| 0 <= a < b < i ==> #[trigger] v.books[a].id < #[trigger] v.books[b].id,
                forall|a: int, b: int| 0 <= a < i && 0 <= b < i && a != b ==> #[trigger] v.books[a].file_hash != #[trigger] v.books[b].file_hash,
            decreases books@.len() - i,
        {
            let id = books[i].id;
            if id <= 0 || id > max_book_id {
                assert(v.books[i as int].id == id);
                return None;
            }
            if i > 0 && books[i - 1].id >= id {
                assert(v.books[i - 1].id >= v.books[i as int].id);
                return None;
            }
            let mut j: usize = 0;
            while j < i
                invariant
                    j <= i < books@.len(),
                    v == records_view(concepts@, relations@, books@, book_concepts@, last_insert_id, max_book_id, version@, meta),
                    forall|a: int| 0 <= a < j ==> #[trigger] v.books[a].file_hash != v.books[i as int].file_hash,
                decreases i - j,
            {
                if str_eq(books[j].file_hash.as_str(), books[i].file_hash.as_str()) {
                    assert(v.books[j as int].file_hash == v.books[i as int].file_hash);
                    return None;
                }
                j = j + 1;
            }
            let ghost before = bs@;
            bs.push(books[i].copy());
            assert(bs@.map_values(|b: Book| b@) =~= before.map_values(|b: Book| b@).push(books@[i as int]@));
            assert(bs@.map_values(|b: Book| b@) =~= v.books.take(i as int + 1));
            assert forall|a: int, b: int| 0 <= a < b < i + 1 implies #[trigger] v.books[a].id < #[trigger] v.books[b].id by {
                if b == i && a < i - 1 {
                    assert(v.books[a].id < v.books[i - 1].id);
                }
            }
            i = i + 1;
        }
        assert(v.books.take(i as int) =~= v.books);
        let mut bcs: Vec<BookConcept> = Vec::new();
        let mut i: usize = 0;
        while i < book_concepts.len()
            invariant
                i <= book_concepts@.len(),
                v == records_view(concepts@, relations@, books@, book_concepts@, last_insert_id, max_book_id, version@, meta),
                bcs@.map_values(|b: BookConcept| b@) == v.book_concepts.take(i as int),
                forall|a: int, b: int| 0 <= a < i && 0 <= b < i && a != b
                    ==> (#[trigger] v.book_concepts[a].book_id, v.book_concepts[a].concept_name) != (#[trigger] v.book_concepts[b].book_id, v.book_concepts[b].concept_name),
            decreases book_concepts@.len() - i,
        {
            let mut j: usize = 0;
            while j < i
                invariant
                    j <= i < book_concepts@.len(),
                    v == records_view(concepts@, relations@, books@, book_concepts@, last_insert_id, max_book_id, version@, meta),
                    forall|a: int| 0 <= a < j ==> (#[trigger] v.book_concepts[a].book_id, v.book_concepts[a].concept_name)
                        != (v.book_concepts[i as int].book_id, v.book_concepts[i as int].concept_name),
                decreases i - j,
            {
                if book_concepts[j].book_id == book_concepts[i].book_id
                    && str_eq(book_concepts[j].concept_name.as_str(), book_concepts[i].concept_name.as_str()) {
                    assert(v.book_concepts[j as int].book_id == v.book_concepts[i as int].book_id);
                    assert(v.book_concepts[j as int].concept_name == v.book_concepts[i as int].concept_name);
                    return None;
                }
                j = j + 1;
            }
            let ghost before = bcs@;
            let bc = BookConcept {
                book_id: book_concepts[i].book_id,
                concept_name: book_concepts[i].concept_name.clone(),
                mention_count: book_concepts[i].mention_count,
            };
            bcs.push(bc);
            assert(bcs@.map_values(|b: BookConcept| b@) =~= before.map_values(|b: BookConcept| b@).push(book_concepts@[i as int]@));
            assert(bcs@.map_values(|b: BookConcept| b@) =~= v.book_concepts.take(i as int + 1));
            i = i + 1;
        }
        assert(v.book_concepts.take(i as int) =~= v.book_concepts);
        let b = Brain {
            concepts: ct,
            relations: rt,
            books: bs,
            book_concepts: bcs,
            last_insert_id,
            max_book_id,
            version: to_string(version),
            meta,
        };
        assert(b@ == v);
        Some(b)
    }
}

} // verus!
