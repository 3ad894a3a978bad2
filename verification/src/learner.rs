//! Hebbian learning: tokens that occur close together in a text strengthen
//! the relation between them ("neurons that fire together, wire together").
//!
//! Weights and energies are fixed-point numbers in units of `1 / UNIT`.

use vstd::prelude::*;
use crate::brain::{
    add_sat, add_sat32, capped_u32, is_timestamp_text, make_relation_key, opt_view,
    relation_key, relations_touching, sat_add, sat_add32, Brain, BrainView, ConceptView,
    LearningBatch, Concept, Relation, RelationView, UNIT,
};
use crate::sort::{is_stable_desc_order, stable_desc_order};
use crate::nlp::{jieba_segments, tokens_of, TokenizerWrapper};
use crate::table::{Table, keys_of, lookup, upsert};
use crate::text::{
    chars_of, is_ascii_punctuation, is_whitespace, lowercase, spec_is_ascii_punctuation,
    spec_is_whitespace, str_contains, str_eq, str_less, str_lt, string_of_chars, string_of_range,
    to_lowercase, to_string, trim_str, utf8_len, utf8_len_at_least, views,
};

verus! {

/// Number of consecutive tokens that are related to each other.
pub const WINDOW_SIZE: usize = 6;

/// Relations weaker than this (0.01) are pruned by `cleanup`.
pub const MIN_WEIGHT: u64 = 10_000;

/// Concepts with less energy than this (0.1) are pruned by `cleanup`.
pub const MIN_ENERGY: u64 = 100_000;

/// Energy a concept gains per mention (0.1).
pub const ENERGY_PER_MENTION: u64 = 100_000;

/// Weight factor when both tokens of a pair match the focus concept (2.0).
pub const FOCUS_BOOST: u64 = 2_000_000;

/// Weight factor when one token of a pair matches the focus concept: the
/// square root of `FOCUS_BOOST`, 1.414214.
pub const FOCUS_BOOST_SQRT: u64 = 1_414_214;

/// Texts longer than this many bytes are cut to this many characters.
pub const MAX_TEXT_LENGTH: usize = 50000;

// ---------------------------------------------------------------------------
// Preprocessing
// ---------------------------------------------------------------------------

/// `s` with every whitespace character replaced by a space.
pub open spec fn whitespace_to_spaces(s: Seq<char>) -> Seq<char> {
    s.map_values(|c: char| if spec_is_whitespace(c) { ' ' } else { c })
}

/// A text prepared for learning: trimmed, whitespace turned into spaces, and
/// cut to `MAX_TEXT_LENGTH` characters when it is longer than that many bytes.
pub open spec fn preprocessed(text: Seq<char>) -> Seq<char> {
    let t = whitespace_to_spaces(crate::text::trim(text));
    if utf8_len(t) > MAX_TEXT_LENGTH {
        t.take(if t.len() < MAX_TEXT_LENGTH { t.len() as int } else { MAX_TEXT_LENGTH as int })
    } else {
        t
    }
}

/// Prepares a text for learning (see `preprocessed`).
pub fn preprocess_text(text: &str) -> (r: String)
    ensures
        r@ == preprocessed(text@),
{
    let t = trim_str(text);
    let v = chars_of(t.as_str());
    let mut w: Vec<char> = Vec::new();
    let mut i: usize = 0;
    while i < v.len()
        invariant
            i <= v.len(),
            w@ == whitespace_to_spaces(v@.take(i as int)),
        decreases v.len() - i,
    {
        let c = v[i];
        if is_whitespace(c) {
            w.push(' ');
        } else {
            w.push(c);
        }
        assert(w@ =~= whitespace_to_spaces(v@.take(i as int + 1)));
        i = i + 1;
    }
    assert(v@.take(i as int) =~= v@);
    if utf8_len_at_least(&w, MAX_TEXT_LENGTH + 1) {
        let k = if w.len() < MAX_TEXT_LENGTH {
            w.len()
        } else {
            MAX_TEXT_LENGTH
        };
        let r = string_of_range(&w, 0, k);
        assert(w@.subrange(0, k as int) =~= w@.take(k as int));
        r
    } else {
        string_of_chars(&w)
    }
}

// ---------------------------------------------------------------------------
// Which tokens count
// ---------------------------------------------------------------------------

/// CJK symbols and punctuation (U+3000..U+303F), halfwidth and fullwidth
/// forms (U+FF00..U+FFEF) and ASCII punctuation.
pub open spec fn is_token_punctuation(c: char) -> bool {
    ('\u{3000}' <= c && c <= '\u{303f}') || ('\u{ff00}' <= c && c <= '\u{ffef}')
        || spec_is_ascii_punctuation(c)
}

/// Function words that never become concepts.
pub open spec fn learner_stop_words() -> Seq<Seq<char>> {
    seq![
        "的"@, "是"@, "在"@, "了"@, "和"@, "与"@, "或"@, "有"@, "这"@, "那"@,
        "the"@, "is"@, "are"@, "was"@, "been"@, "being"@, "have"@, "has"@, "and"@, "but"@,
        "它"@, "其"@, "此"@, "彼"@, "各"@, "每"@, "某"@,
    ]
}

/// A token that can become a concept: at least two bytes long, without
/// punctuation among its non-whitespace characters, and whose lowercase form
/// is not a stop word.
pub open spec fn valid_token(t: Seq<char>) -> bool {
    &&& utf8_len(t) >= 2
    &&& forall|i: int| 0 <= i < t.len() && !spec_is_whitespace(#[trigger] t[i]) ==> !is_token_punctuation(t[i])
    &&& !learner_stop_words().contains(lowercase(t))
}

fn is_learner_stop_word(w: &str) -> (r: bool)
    ensures
        r == learner_stop_words().contains(w@),
{
    let words: Vec<&str> = vec![
        "的", "是", "在", "了", "和", "与", "或", "有", "这", "那",
        "the", "is", "are", "was", "been", "being", "have", "has", "and", "but",
        "它", "其", "此", "彼", "各", "每", "某",
    ];
    assert(words@.map_values(|s: &str| s@) =~= learner_stop_words());
    let mut i: usize = 0;
    while i < words.len()
        invariant
            i <= words@.len(),
            words@.map_values(|s: &str| s@) == learner_stop_words(),
            forall|k: int| 0 <= k < i ==> learner_stop_words()[k] != w@,
        decreases words@.len() - i,
    {
        if str_eq(words[i], w) {
            assert(learner_stop_words()[i as int] == w@);
            return true;
        }
        assert(learner_stop_words()[i as int] == words@[i as int]@);
        i = i + 1;
    }
    false
}

fn free_of_token_punctuation(v: &Vec<char>) -> (r: bool)
    ensures
        r == (forall|i: int| 0 <= i < v@.len() && !spec_is_whitespace(#[trigger] v@[i]) ==> !is_token_punctuation(v@[i])),
{
    let mut i: usize = 0;
    while i < v.len()
        invariant
            i <= v.len(),
            forall|k: int| 0 <= k < i && !spec_is_whitespace(#[trigger] v@[k]) ==> !is_token_punctuation(v@[k]),
        decreases v.len() - i,
    {
        let c = v[i];
        if !is_whitespace(c) && (('\u{3000}' <= c && c <= '\u{303f}') || ('\u{ff00}' <= c && c <= '\u{ffef}')
            || is_ascii_punctuation(c)) {
            return false;
        }
        i = i + 1;
    }
    true
}

/// Whether `token` can become a concept (see `valid_token`).
pub fn is_valid_token(token: &str) -> (r: bool)
    ensures
        r == valid_token(token@),
{
    let v = chars_of(token);
    if !utf8_len_at_least(&v, 2) {
        return false;
    }
    if !free_of_token_punctuation(&v) {
        return false;
    }
    let lower = to_lowercase(token);
    !is_learner_stop_word(lower.as_str())
}

// ---------------------------------------------------------------------------
// Focus concept
// ---------------------------------------------------------------------------

/// The view of an optional string slice.
pub open spec fn opt_str(o: Option<&str>) -> Option<Seq<char>> {
    match o {
        Some(s) => Some(s@),
        None => None,
    }
}

/// How many of the two words contain the focus concept, compared in
/// lowercase (0 without a focus concept).
pub open spec fn focus_level(a: Seq<char>, b: Seq<char>, focus: Option<Seq<char>>) -> nat {
    match focus {
        Some(f) => {
            let am = crate::text::contains(lowercase(a), lowercase(f));
            let bm = crate::text::contains(lowercase(b), lowercase(f));
            if am && bm {
                2
            } else if am || bm {
                1
            } else {
                0
            }
        },
        None => 0,
    }
}

/// The weight factor of a focus level: 2.0, its square root, or 1.0.
pub open spec fn boost_factor(level: nat) -> u64 {
    if level == 2 {
        FOCUS_BOOST
    } else if level == 1 {
        FOCUS_BOOST_SQRT
    } else {
        UNIT
    }
}

/// The weight factor for a pair of words given the focus concept.
pub fn calculate_focus_boost(word_a: &str, word_b: &str, focus_concept: Option<&str>) -> (r: u64)
    ensures
        r == boost_factor(focus_level(word_a@, word_b@, opt_str(focus_concept))),
{
    match focus_concept {
        Some(f) => {
            let fl = to_lowercase(f);
            let al = to_lowercase(word_a);
            let bl = to_lowercase(word_b);
            let am = str_contains(al.as_str(), fl.as_str());
            let bm = str_contains(bl.as_str(), fl.as_str());
            if am && bm {
                FOCUS_BOOST
            } else if am || bm {
                FOCUS_BOOST_SQRT
            } else {
                UNIT
            }
        },
        None => UNIT,
    }
}

/// The weight a pair of tokens `distance` apart gains:
/// `0.1 * boost / (1 + distance / 2)`, rounded down.
pub open spec fn pair_weight(distance: int, boost: u64) -> u64 {
    (boost as int / (5 * (2 + distance))) as u64
}

/// The energy a mention gives a token: 0.1, or 0.2 when it contains the
/// focus concept (compared in lowercase).
pub open spec fn mention_energy(t: Seq<char>, focus: Option<Seq<char>>) -> u64 {
    match focus {
        Some(f) => if crate::text::contains(lowercase(t), lowercase(f)) {
            (2 * ENERGY_PER_MENTION) as u64
        } else {
            ENERGY_PER_MENTION
        },
        None => ENERGY_PER_MENTION,
    }
}

// ---------------------------------------------------------------------------
// Building a batch
// ---------------------------------------------------------------------------

/// One more mention of `name` with `energy`: energy and count added to its
/// entry, or a new entry.
pub open spec fn add_mention(cs: Seq<(Seq<char>, (u64, u32))>, name: Seq<char>, energy: u64) -> Seq<(Seq<char>, (u64, u32))> {
    upsert(cs, name, match lookup(cs, name) {
        Some(v) => (sat_add(v.0, energy), sat_add32(v.1, 1)),
        None => (energy, 1u32),
    })
}

/// One more co-occurrence of `a` and `b` with `weight`, under their
/// order-independent key; a new entry records the two names in order.
pub open spec fn add_pair(
    rs: Seq<(Seq<char>, (u64, u32, Seq<char>, Seq<char>))>,
    a: Seq<char>,
    b: Seq<char>,
    weight: u64,
) -> Seq<(Seq<char>, (u64, u32, Seq<char>, Seq<char>))> {
    let key = relation_key(a, b);
    upsert(rs, key, match lookup(rs, key) {
        Some(v) => (sat_add(v.0, weight), sat_add32(v.1, 1), v.2, v.3),
        None => if str_less(a, b) {
            (weight, 1u32, a, b)
        } else {
            (weight, 1u32, b, a)
        },
    })
}

/// The pair `(j, k)` of window `w`, when both tokens are valid.
pub open spec fn pair_step(
    rs: Seq<(Seq<char>, (u64, u32, Seq<char>, Seq<char>))>,
    w: Seq<Seq<char>>,
    j: int,
    k: int,
    focus: Option<Seq<char>>,
) -> Seq<(Seq<char>, (u64, u32, Seq<char>, Seq<char>))> {
    if valid_token(w[j]) && valid_token(w[k]) {
        add_pair(rs, w[j], w[k], pair_weight(k - j, boost_factor(focus_level(w[j], w[k], focus))))
    } else {
        rs
    }
}

/// The pairs `(j, k)` for `j < k < k_end`, in order of `k`.
pub open spec fn row_pairs(
    rs: Seq<(Seq<char>, (u64, u32, Seq<char>, Seq<char>))>,
    w: Seq<Seq<char>>,
    j: int,
    k_end: int,
    focus: Option<Seq<char>>,
) -> Seq<(Seq<char>, (u64, u32, Seq<char>, Seq<char>))>
    decreases k_end - j,
{
    if k_end <= j + 1 {
        rs
    } else {
        pair_step(row_pairs(rs, w, j, k_end - 1, focus), w, j, k_end - 1, focus)
    }
}

/// All pairs `(j, k)` with `j < j_end` and `j < k` of a window, in order.
pub open spec fn window_pairs(
    rs: Seq<(Seq<char>, (u64, u32, Seq<char>, Seq<char>))>,
    w: Seq<Seq<char>>,
    j_end: int,
    focus: Option<Seq<char>>,
) -> Seq<(Seq<char>, (u64, u32, Seq<char>, Seq<char>))>
    decreases j_end,
{
    if j_end <= 0 {
        rs
    } else {
        row_pairs(window_pairs(rs, w, j_end - 1, focus), w, j_end - 1, w.len() as int, focus)
    }
}

/// The mentions of the first `m` valid tokens of a window, in order.
pub open spec fn window_mentions(
    cs: Seq<(Seq<char>, (u64, u32))>,
    w: Seq<Seq<char>>,
    m: int,
    focus: Option<Seq<char>>,
) -> Seq<(Seq<char>, (u64, u32))>
    decreases m,
{
    if m <= 0 {
        cs
    } else {
        let c = window_mentions(cs, w, m - 1, focus);
        if valid_token(w[m - 1]) {
            add_mention(c, w[m - 1], mention_energy(w[m - 1], focus))
        } else {
            c
        }
    }
}

/// The window starting at token `i`: up to `WINDOW_SIZE` tokens.
pub open spec fn window_at(tokens: Seq<Seq<char>>, i: int) -> Seq<Seq<char>> {
    tokens.subrange(i, if i + WINDOW_SIZE < tokens.len() { i + WINDOW_SIZE } else { tokens.len() as int })
}

/// The batch after the windows starting at tokens `0..i_end`.
pub open spec fn learn_windows(
    cs: Seq<(Seq<char>, (u64, u32))>,
    rs: Seq<(Seq<char>, (u64, u32, Seq<char>, Seq<char>))>,
    tokens: Seq<Seq<char>>,
    i_end: int,
    focus: Option<Seq<char>>,
) -> (Seq<(Seq<char>, (u64, u32))>, Seq<(Seq<char>, (u64, u32, Seq<char>, Seq<char>))>)
    decreases i_end,
{
    if i_end <= 0 {
        (cs, rs)
    } else {
        let p = learn_windows(cs, rs, tokens, i_end - 1, focus);
        let w = window_at(tokens, i_end - 1);
        (window_mentions(p.0, w, w.len() as int, focus), window_pairs(p.1, w, w.len() as int, focus))
    }
}

/// The batch entry of the focus concept: two mentions' energy, one count.
pub open spec fn focus_entries(focus: Option<Seq<char>>) -> Seq<(Seq<char>, (u64, u32))> {
    match focus {
        Some(f) => seq![(f, ((2 * ENERGY_PER_MENTION) as u64, 1u32))],
        None => Seq::empty(),
    }
}

/// The batch learned from `tokens`: the focus concept's entry, then, for
/// every token but the last, the window starting there: every pair of
/// valid tokens in it and every valid token in it.
pub open spec fn learning_batch(tokens: Seq<Seq<char>>, focus: Option<Seq<char>>) -> (
    Seq<(Seq<char>, (u64, u32))>,
    Seq<(Seq<char>, (u64, u32, Seq<char>, Seq<char>))>,
) {
    learn_windows(focus_entries(focus), Seq::empty(), tokens, tokens.len() - 1, focus)
}

/// Tokens with their validity and lowercase forms computed once.
pub open spec fn prepared(tokens: Seq<Seq<char>>, valid: Seq<bool>, lowers: Seq<Seq<char>>) -> bool {
    &&& valid.len() == tokens.len()
    &&& lowers.len() == tokens.len()
    &&& forall|i: int| 0 <= i < tokens.len() ==> #[trigger] valid[i] == valid_token(tokens[i])
    &&& forall|i: int| 0 <= i < tokens.len() ==> #[trigger] lowers[i] == lowercase(tokens[i])
}

/// The lowercase form of the focus concept.
pub open spec fn lowered(focus: Option<Seq<char>>) -> Option<Seq<char>> {
    match focus {
        Some(f) => Some(lowercase(f)),
        None => None,
    }
}

fn add_mention_to(cs: &mut Table<(u64, u32)>, name: &String, energy: u64)
    requires
        old(cs).wf(),
    ensures
        final(cs).wf(),
        final(cs)@ == add_mention(old(cs)@, name@, energy),
{
    let v = match cs.get(name.as_str()) {
        Some(e) => (add_sat(e.0, energy), add_sat32(e.1, 1)),
        None => (energy, 1u32),
    };
    cs.insert(name.clone(), v);
}

fn add_pair_to(rs: &mut Table<(u64, u32, String, String)>, a: &String, b: &String, weight: u64)
    requires
        old(rs).wf(),
    ensures
        final(rs).wf(),
        final(rs)@ == add_pair(old(rs)@, a@, b@, weight),
{
    let key = make_relation_key(a.as_str(), b.as_str());
    let v = match rs.get(key.as_str()) {
        Some(e) => (add_sat(e.0, weight), add_sat32(e.1, 1), e.2.clone(), e.3.clone()),
        None => if str_lt(a.as_str(), b.as_str()) {
            (weight, 1u32, a.clone(), b.clone())
        } else {
            (weight, 1u32, b.clone(), a.clone())
        },
    };
    rs.insert(key, v);
}

/// The boost factor of tokens `ia` and `ib` from their lowercase forms.
fn boost_of(lowers: &Vec<String>, ia: usize, ib: usize, fl: &Option<String>) -> (r: u64)
    requires
        ia < lowers.len(),
        ib < lowers.len(),
    ensures
        r == boost_factor(match opt_view(*fl) {
            Some(f) => {
                let am = crate::text::contains(lowers@[ia as int]@, f);
                let bm = crate::text::contains(lowers@[ib as int]@, f);
                if am && bm { 2nat } else if am || bm { 1nat } else { 0nat }
            },
            None => 0nat,
        }),
{
    match fl {
        Some(f) => {
            let am = str_contains(lowers[ia].as_str(), f.as_str());
            let bm = str_contains(lowers[ib].as_str(), f.as_str());
            if am && bm {
                FOCUS_BOOST
            } else if am || bm {
                FOCUS_BOOST_SQRT
            } else {
                UNIT
            }
        },
        None => UNIT,
    }
}

/// The pairs `(j, k)` of the window `tokens[lo..hi]` for one `j`.
fn add_row(
    rs: &mut Table<(u64, u32, String, String)>,
    tokens: &Vec<String>,
    valid: &Vec<bool>,
    lowers: &Vec<String>,
    fl: &Option<String>,
    lo: usize,
    hi: usize,
    j: usize,
    Ghost(focus): Ghost<Option<Seq<char>>>,
)
    requires
        old(rs).wf(),
        prepared(views(tokens@), valid@, views(lowers@)),
        opt_view(*fl) == lowered(focus),
        lo <= hi <= tokens.len(),
        hi - lo <= WINDOW_SIZE,
        j < hi - lo,
    ensures
        final(rs).wf(),
        final(rs)@ == row_pairs(old(rs)@, views(tokens@).subrange(lo as int, hi as int), j as int, (hi - lo) as int, focus),
{
    let ghost w = views(tokens@).subrange(lo as int, hi as int);
    let mut k: usize = j + 1;
    while k < hi - lo
        invariant
            rs.wf(),
            prepared(views(tokens@), valid@, views(lowers@)),
            opt_view(*fl) == lowered(focus),
            lo <= hi <= tokens.len(),
            hi - lo <= WINDOW_SIZE,
            j < k <= hi - lo,
            w == views(tokens@).subrange(lo as int, hi as int),
            rs@ == row_pairs(old(rs)@, w, j as int, k as int, focus),
        decreases hi - lo - k,
    {
        let ia = lo + j;
        let ib = lo + k;
        assert(w[j as int] == tokens@[ia as int]@);
        assert(w[k as int] == tokens@[ib as int]@);
        assert(valid@[ia as int] == valid_token(views(tokens@)[ia as int]));
        assert(valid@[ib as int] == valid_token(views(tokens@)[ib as int]));
        if valid[ia] && valid[ib] {
            let boost = boost_of(lowers, ia, ib, fl);
            assert(views(lowers@)[ia as int] == lowercase(views(tokens@)[ia as int]));
            assert(views(lowers@)[ib as int] == lowercase(views(tokens@)[ib as int]));
            assert(boost == boost_factor(focus_level(w[j as int], w[k as int], focus)));
            let d = (k - j) as u64;
            let weight = boost / (5 * (2 + d));
            add_pair_to(rs, &tokens[ia], &tokens[ib], weight);
        }
        k = k + 1;
    }
}

/// Every pair of the window `tokens[lo..hi]`.
fn add_window_pairs(
    rs: &mut Table<(u64, u32, String, String)>,
    tokens: &Vec<String>,
    valid: &Vec<bool>,
    lowers: &Vec<String>,
    fl: &Option<String>,
    lo: usize,
    hi: usize,
    Ghost(focus): Ghost<Option<Seq<char>>>,
)
    requires
        old(rs).wf(),
        prepared(views(tokens@), valid@, views(lowers@)),
        opt_view(*fl) == lowered(focus),
        lo <= hi <= tokens.len(),
        hi - lo <= WINDOW_SIZE,
    ensures
        final(rs).wf(),
        final(rs)@ == window_pairs(old(rs)@, views(tokens@).subrange(lo as int, hi as int), (hi - lo) as int, focus),
{
    let ghost w = views(tokens@).subrange(lo as int, hi as int);
    let mut j: usize = 0;
    while j < hi - lo
        invariant
            rs.wf(),
            prepared(views(tokens@), valid@, views(lowers@)),
            opt_view(*fl) == lowered(focus),
            lo <= hi <= tokens.len(),
            hi - lo <= WINDOW_SIZE,
            j <= hi - lo,
            w == views(tokens@).subrange(lo as int, hi as int),
            w.len() == hi - lo,
            rs@ == window_pairs(old(rs)@, w, j as int, focus),
        decreases hi - lo - j,
    {
        add_row(rs, tokens, valid, lowers, fl, lo, hi, j, Ghost(focus));
        j = j + 1;
    }
}

/// Every valid token of the window `tokens[lo..hi]`.
fn add_window_mentions(
    cs: &mut Table<(u64, u32)>,
    tokens: &Vec<String>,
    valid: &Vec<bool>,
    lowers: &Vec<String>,
    fl: &Option<String>,
    lo: usize,
    hi: usize,
    Ghost(focus): Ghost<Option<Seq<char>>>,
)
    requires
        old(cs).wf(),
        prepared(views(tokens@), valid@, views(lowers@)),
        opt_view(*fl) == lowered(focus),
        lo <= hi <= tokens.len(),
    ensures
        final(cs).wf(),
        final(cs)@ == window_mentions(old(cs)@, views(tokens@).subrange(lo as int, hi as int), (hi - lo) as int, focus),
{
    let ghost w = views(tokens@).subrange(lo as int, hi as int);
    let mut m: usize = 0;
    while m < hi - lo
        invariant
            cs.wf(),
            prepared(views(tokens@), valid@, views(lowers@)),
            opt_view(*fl) == lowered(focus),
            lo <= hi <= tokens.len(),
            m <= hi - lo,
            w == views(tokens@).subrange(lo as int, hi as int),
            cs@ == window_mentions(old(cs)@, w, m as int, focus),
        decreases hi - lo - m,
    {
        let idx = lo + m;
        assert(w[m as int] == tokens@[idx as int]@);
        assert(valid@[idx as int] == valid_token(views(tokens@)[idx as int]));
        assert(views(lowers@)[idx as int] == lowercase(views(tokens@)[idx as int]));
        if valid[idx] {
            let energy = match fl {
                Some(f) => if str_contains(lowers[idx].as_str(), f.as_str()) {
                    2 * ENERGY_PER_MENTION
                } else {
                    ENERGY_PER_MENTION
                },
                None => ENERGY_PER_MENTION,
            };
            assert(energy == mention_energy(w[m as int], focus));
            add_mention_to(cs, &tokens[idx], energy);
        }
        m = m + 1;
    }
}

/// The validity and lowercase form of every token.
fn prepare(tokens: &Vec<String>) -> (r: (Vec<bool>, Vec<String>))
    ensures
        prepared(views(tokens@), r.0@, views(r.1@)),
{
    let mut valid: Vec<bool> = Vec::new();
    let mut lowers: Vec<String> = Vec::new();
    let mut i: usize = 0;
    while i < tokens.len()
        invariant
            i <= tokens.len(),
            valid@.len() == i,
            lowers@.len() == i,
            forall|k: int| 0 <= k < i ==> #[trigger] valid@[k] == valid_token(tokens@[k]@),
            forall|k: int| 0 <= k < i ==> #[trigger] lowers@[k]@ == lowercase(tokens@[k]@),
        decreases tokens.len() - i,
    {
        valid.push(is_valid_token(tokens[i].as_str()));
        lowers.push(to_lowercase(tokens[i].as_str()));
        i = i + 1;
    }
    proof {
        assert forall|k: int| 0 <= k < tokens@.len() implies #[trigger] views(lowers@)[k] == lowercase(views(tokens@)[k]) by {
            assert(views(lowers@)[k] == lowers@[k]@);
        }
    }
    (valid, lowers)
}

/// The learning batch of `tokens` with an optional focus concept (see
/// `learning_batch`).
pub fn build_batch(tokens: &Vec<String>, focus: Option<&str>) -> (r: LearningBatch)
    ensures
        r.wf(),
        (r.concepts@, r.relations@) == learning_batch(views(tokens@), opt_str(focus)),
{
    let ghost fv = opt_str(focus);
    let (valid, lowers) = prepare(tokens);
    let fl: Option<String> = match focus {
        Some(f) => Some(to_lowercase(f)),
        None => None,
    };
    let mut batch = LearningBatch::new();
    match focus {
        Some(f) => {
            batch.concepts.insert(to_string(f), (2 * ENERGY_PER_MENTION, 1u32));
            assert(batch.concepts@ =~= focus_entries(fv));
        },
        None => {
            assert(batch.concepts@ =~= focus_entries(fv));
        },
    }
    let n = tokens.len();
    let i_end: usize = if n > 0 {
        n - 1
    } else {
        0
    };
    let mut i: usize = 0;
    while i < i_end
        invariant
            batch.wf(),
            prepared(views(tokens@), valid@, views(lowers@)),
            opt_view(fl) == lowered(fv),
            n == tokens.len(),
            i_end == (if n > 0 { n - 1 } else { 0 }),
            i <= i_end,
            (batch.concepts@, batch.relations@) == learn_windows(focus_entries(fv), Seq::empty(), views(tokens@), i as int, fv),
        decreases i_end - i,
    {
        let hi = if n - i > WINDOW_SIZE {
            i + WINDOW_SIZE
        } else {
            n
        };
        add_window_pairs(&mut batch.relations, tokens, &valid, &lowers, &fl, i, hi, Ghost(fv));
        add_window_mentions(&mut batch.concepts, tokens, &valid, &lowers, &fl, i, hi, Ghost(fv));
        i = i + 1;
    }
    batch
}

// ---------------------------------------------------------------------------
// Results
// ---------------------------------------------------------------------------

/// The outcome of `learn_from_text`.
#[derive(Debug, Clone)]
pub struct LearnResult {
    pub success: bool,
    pub tokens_processed: usize,
    pub relations_added: u32,
    pub concepts_updated: u32,
    pub elapsed_ms: u128,
    pub performance: String,
}

/// The outcome of `cleanup`.
#[derive(Debug, Clone)]
pub struct CleanupResult {
    pub pruned_relations: u32,
    pub pruned_concepts: u32,
    pub remaining_relations: u32,
    pub remaining_concepts: u32,
}

/// A concept among the most energetic ones.
#[derive(Debug, Clone)]
pub struct TopConcept {
    pub name: String,
    pub energy: u64,
    pub count: u32,
}

/// Statistics of the knowledge graph.
#[derive(Debug, Clone)]
pub struct Stats {
    pub total_concepts: u32,
    pub total_relations: u32,
    /// Mean relation weight, rounded down (fixed point).
    pub avg_weight: u64,
    /// Mean concept energy, rounded down (fixed point).
    pub avg_energy: u64,
    pub top_concepts: Vec<TopConcept>,
}

/// The rating of a learning run by its duration.
pub open spec fn performance_text(elapsed_ms: u128) -> Seq<char> {
    if elapsed_ms < 100 {
        "excellent"@
    } else if elapsed_ms < 500 {
        "good"@
    } else {
        "slow"@
    }
}

/// "excellent" under 100 ms, "good" under 500 ms, else "slow".
pub fn performance_label(elapsed_ms: u128) -> (r: String)
    ensures
        r@ == performance_text(elapsed_ms),
{
    if elapsed_ms < 100 {
        to_string("excellent")
    } else if elapsed_ms < 500 {
        to_string("good")
    } else {
        to_string("slow")
    }
}

// ---------------------------------------------------------------------------
// Trusted clock
// ---------------------------------------------------------------------------

#[verifier::external_type_specification]
#[verifier::external_body]
pub struct ExInstant(std::time::Instant);

/// `Instant::now()`.  Nothing is stated: it is the time.
#[verifier::external_body]
fn instant_now() -> (r: std::time::Instant) {
    std::time::Instant::now()
}

/// `start.elapsed().as_millis()`.  Nothing is stated: it is the time.
#[verifier::external_body]
fn millis_since(start: &std::time::Instant) -> (r: u128) {
    start.elapsed().as_millis()
}

// ---------------------------------------------------------------------------
// Graph statistics and traversal
// ---------------------------------------------------------------------------

/// Sum of the relation weights.
pub open spec fn weight_sum(rs: Seq<(Seq<char>, RelationView)>) -> nat
    decreases rs.len(),
{
    if rs.len() == 0 {
        0
    } else {
        weight_sum(rs.drop_last()) + rs.last().1.weight as nat
    }
}

/// Sum of the concept energies.
pub open spec fn energy_sum(cs: Seq<(Seq<char>, ConceptView)>) -> nat
    decreases cs.len(),
{
    if cs.len() == 0 {
        0
    } else {
        energy_sum(cs.drop_last()) + cs.last().1.energy as nat
    }
}

/// The mean of a sum over `n` items, rounded down; 0 for no items.
pub open spec fn mean(sum: nat, n: nat) -> u64 {
    if n == 0 {
        0
    } else {
        (sum / n) as u64
    }
}

proof fn lemma_weight_sum_bound(rs: Seq<(Seq<char>, RelationView)>)
    ensures
        weight_sum(rs) <= rs.len() * (u64::MAX as nat),
    decreases rs.len(),
{
    if rs.len() > 0 {
        lemma_weight_sum_bound(rs.drop_last());
    }
}

proof fn lemma_energy_sum_bound(cs: Seq<(Seq<char>, ConceptView)>)
    ensures
        energy_sum(cs) <= cs.len() * (u64::MAX as nat),
    decreases cs.len(),
{
    if cs.len() > 0 {
        lemma_energy_sum_bound(cs.drop_last());
    }
}

proof fn lemma_mean_fits(sum: nat, n: nat)
    requires
        n > 0,
        sum <= n * (u64::MAX as nat),
    ensures
        sum / n <= u64::MAX,
{
    assert(sum / n <= u64::MAX) by (nonlinear_arith)
        requires
            n > 0,
            sum <= n * (u64::MAX as nat),
    ;
}

proof fn lemma_total_fits(k: nat, n: nat)
    requires
        k <= n,
        n <= usize::MAX,
    ensures
        k * (u64::MAX as nat) < u128::MAX,
{
    assert(k * (u64::MAX as nat) <= (usize::MAX as nat) * (u64::MAX as nat)) by (nonlinear_arith)
        requires
            k <= n,
            n <= usize::MAX,
    ;
}

/// The sort keys of concepts by energy.
pub open spec fn energy_keys(cs: Seq<(Seq<char>, ConceptView)>) -> Seq<i128> {
    cs.map_values(|e: (Seq<char>, ConceptView)| e.1.energy as i128)
}

/// The sort keys of related concepts by weight.
pub open spec fn weight_keys(rel: Seq<(Seq<char>, u64)>) -> Seq<i128> {
    rel.map_values(|e: (Seq<char>, u64)| e.1 as i128)
}

/// The view of a top concept: name, energy, count.
pub open spec fn top_view(t: TopConcept) -> (Seq<char>, u64, u32) {
    (t.name@, t.energy, t.count)
}

/// The other end of a relation touching `cur`.
pub open spec fn other_end(r: RelationView, cur: Seq<char>) -> Seq<char> {
    if r.source == cur {
        r.target
    } else {
        r.source
    }
}

/// Depth-first traversal from `cur` at `depth`: unless `cur` was visited or
/// the depth exceeds `max_depth`, `cur` is marked visited and each relation
/// touching it is followed in order; an unvisited neighbour is recorded with
/// the weight of the relation that reached it (a later record replaces an
/// earlier one in place) and traversed one level deeper.
pub open spec fn traversal(
    rels: Seq<(Seq<char>, RelationView)>,
    cur: Seq<char>,
    depth: int,
    max_depth: int,
    st: (Seq<Seq<char>>, Seq<(Seq<char>, u64)>),
) -> (Seq<Seq<char>>, Seq<(Seq<char>, u64)>)
    decreases max_depth - depth + 1, 1int, 0int,
{
    if depth > max_depth || st.0.contains(cur) {
        st
    } else {
        traversal_edges(rels, cur, depth, max_depth, (st.0.push(cur), st.1), relations_touching(rels, cur).len() as int)
    }
}

/// The traversal of the first `m` relations touching `cur`.
pub open spec fn traversal_edges(
    rels: Seq<(Seq<char>, RelationView)>,
    cur: Seq<char>,
    depth: int,
    max_depth: int,
    st: (Seq<Seq<char>>, Seq<(Seq<char>, u64)>),
    m: int,
) -> (Seq<Seq<char>>, Seq<(Seq<char>, u64)>)
    decreases max_depth - depth + 1, 0int, m,
{
    if m <= 0 || depth > max_depth {
        st
    } else {
        let s1 = traversal_edges(rels, cur, depth, max_depth, st, m - 1);
        let r = relations_touching(rels, cur)[m - 1];
        let n = other_end(r, cur);
        if s1.0.contains(n) {
            s1
        } else {
            traversal(rels, n, depth + 1, max_depth, (s1.0, upsert(s1.1, n, r.weight)))
        }
    }
}

/// The concepts reached from `name` within `max_depth` steps, each with the
/// weight of the relation that reached it (see `traversal`).
pub open spec fn related_concepts(rels: Seq<(Seq<char>, RelationView)>, name: Seq<char>, max_depth: int) -> Seq<(Seq<char>, u64)> {
    traversal(rels, name, 0, max_depth, (Seq::empty(), Seq::empty())).1
}

/// The tokens the learner's tokenizer gives for a text.
pub open spec fn learner_tokens(added: Seq<Seq<char>>, stop: Set<Seq<char>>, text: Seq<char>) -> Seq<Seq<char>> {
    if text.len() == 0 {
        Seq::empty()
    } else {
        tokens_of(jieba_segments(added, text), stop, false)
    }
}

/// The graph after tracking each of `names`, in order, for book `book_id`.
pub open spec fn track_names(s: BrainView, book_id: i64, names: Seq<Seq<char>>) -> BrainView
    decreases names.len(),
{
    if names.len() == 0 {
        s
    } else {
        track_names(s, book_id, names.drop_last()).track_book_concept(book_id, names.last())
    }
}

/// The graph after tracking `names` for the current book, if there is one.
pub open spec fn after_tracking(s: BrainView, book: Option<i64>, names: Seq<Seq<char>>) -> BrainView {
    match book {
        Some(id) => track_names(s, id, names),
        None => s,
    }
}

/// Whether a file is learned: when no book with its hash was learned yet,
/// or when re-learning is forced.
pub fn should_learn_file(already_learned: bool, force: bool) -> (r: bool)
    ensures
        r == (!already_learned || force),
{
    !already_learned || force
}

/// The learning engine: a knowledge graph, where it is stored, a tokenizer
/// and the book being learned, if any.
pub struct IncrementalLearner {
    pub brain: Brain,
    pub brain_path: String,
    pub tokenizer: TokenizerWrapper,
    pub current_book_id: Option<i64>,
}

impl IncrementalLearner {
    /// The book being learned.
    pub open spec fn book(&self) -> Option<i64> {
        self.current_book_id
    }

    /// The words added to the tokenizer's dictionary.
    pub open spec fn added_words(&self) -> Seq<Seq<char>> {
        self.tokenizer.added_words()
    }

    /// The tokenizer's stop words.
    pub open spec fn stop_set(&self) -> Set<Seq<char>> {
        self.tokenizer.stop_set()
    }

    /// A learner over `brain`, stored at `brain_path`, tokenizing with
    /// `tokenizer`, with no current book.
    pub fn new(brain: Brain, brain_path: String, tokenizer: TokenizerWrapper) -> (r: IncrementalLearner)
        ensures
            r.brain@ == brain@,
            r.brain_path@ == brain_path@,
            r.book() is None,
            r.added_words() == tokenizer.added_words(),
            r.stop_set() == tokenizer.stop_set(),
    {
        IncrementalLearner { brain, brain_path, tokenizer, current_book_id: None }
    }

    /// Makes `book_id` the current book.
    pub fn start_book(&mut self, book_id: i64)
        ensures
            final(self).book() == Some(book_id),
            final(self).brain@ == old(self).brain@,
            final(self).brain_path@ == old(self).brain_path@,
            final(self).added_words() == old(self).added_words(),
            final(self).stop_set() == old(self).stop_set(),
    {
        self.current_book_id = Some(book_id);
    }

    /// Leaves the current book.
    pub fn end_book(&mut self)
        ensures
            final(self).book() is None,
            final(self).brain@ == old(self).brain@,
            final(self).brain_path@ == old(self).brain_path@,
            final(self).added_words() == old(self).added_words(),
            final(self).stop_set() == old(self).stop_set(),
    {
        self.current_book_id = None;
    }

    /// The current book.
    pub fn current_book_id(&self) -> (r: Option<i64>)
        ensures
            r == self.book(),
    {
        self.current_book_id
    }

    /// Counts a mention of `concept_name` in the current book, if any.
    fn track_book_concept(&mut self, concept_name: &str)
        requires
            old(self).brain.wf(),
        ensures
            final(self).brain.wf(),
            final(self).brain@ == after_tracking(old(self).brain@, old(self).book(), seq![concept_name@]),
            final(self).book() == old(self).book(),
            final(self).brain_path@ == old(self).brain_path@,
            final(self).added_words() == old(self).added_words(),
            final(self).stop_set() == old(self).stop_set(),
    {
        proof {
            reveal_with_fuel(track_names, 2);
            assert(seq![concept_name@].drop_last() =~= Seq::<Seq<char>>::empty());
        }
        match self.current_book_id {
            Some(id) => {
                self.brain.track_book_concept(id, concept_name);
            },
            None => {},
        }
    }

    /// Learns from `text` with an optional focus concept: the text is
    /// preprocessed and tokenized, the learning batch of the tokens is
    /// written to the graph, and each concept of the batch is counted as
    /// mentioned in the current book (if any), in batch order.
    pub fn learn_from_text(&mut self, text: &str, focus_concept: Option<&str>) -> (r: LearnResult)
        requires
            old(self).brain.wf(),
        ensures
            final(self).brain.wf(),
            ({
                let toks = learner_tokens(old(self).added_words(), old(self).stop_set(), preprocessed(text@));
                let b = learning_batch(toks, opt_str(focus_concept));
                &&& exists|now: Seq<char>, now_ms: u64| is_timestamp_text(now) && final(self).brain@ == after_tracking(
                    old(self).brain@.apply_batch(b.0, b.1, now, now_ms),
                    old(self).book(),
                    keys_of(b.0),
                )
                &&& r.success
                &&& r.tokens_processed == toks.len()
                &&& r.relations_added == capped_u32(b.1.len())
                &&& r.concepts_updated == capped_u32(b.0.len())
            }),
            r.performance@ == performance_text(r.elapsed_ms),
            crate::inference_laws::weights_at_most_one(old(self).brain@.relations) ==> crate::inference_laws::weights_at_most_one(
                final(self).brain@.relations,
            ),
            forall|k: Seq<char>| #[trigger] old(self).brain@.concept(k) is Some ==> final(self).brain@.concept(k) is Some,
            forall|k: Seq<char>| #[trigger] old(self).brain@.relation(k) is Some ==> final(self).brain@.relation(k) is Some,
            opt_str(focus_concept) matches Some(f) ==> final(self).brain@.concept(f) is Some,
            final(self).brain@.concepts.len() >= old(self).brain@.concepts.len(),
            final(self).brain@.relations.len() >= old(self).brain@.relations.len(),
            final(self).book() == old(self).book(),
            final(self).brain_path@ == old(self).brain_path@,
            final(self).added_words() == old(self).added_words(),
            final(self).stop_set() == old(self).stop_set(),
    {
        let start = instant_now();
        let prepared_text = preprocess_text(text);
        let tokens = self.tokenizer.tokenize(prepared_text.as_str());
        let ghost toks = learner_tokens(self.added_words(), self.stop_set(), preprocessed(text@));
        assert(views(tokens@) =~= toks);
        let batch = build_batch(&tokens, focus_concept);
        let ghost b = learning_batch(toks, opt_str(focus_concept));
        let mut names: Vec<String> = Vec::new();
        let mut i: usize = 0;
        while i < batch.concepts.len()
            invariant
                batch.wf(),
                i <= batch.concepts@.len(),
                views(names@) == keys_of(batch.concepts@).take(i as int),
            decreases batch.concepts@.len() - i,
        {
            let ghost before = names@;
            names.push(batch.concepts.key_at(i).clone());
            assert(views(names@) =~= views(before).push(batch.concepts@[i as int].0));
            assert(keys_of(batch.concepts@).take(i as int + 1) =~= keys_of(batch.concepts@).take(i as int).push(batch.concepts@[i as int].0));
            i = i + 1;
        }
        assert(keys_of(batch.concepts@).take(i as int) =~= keys_of(batch.concepts@));
        let ghost bc = batch.concepts@;
        let ghost br = batch.relations@;
        let (relations_added, concepts_updated) = self.brain.apply_batch(batch);
        let ghost applied = self.brain@;
        let ghost stamp: (Seq<char>, u64) = choose|now: Seq<char>, now_ms: u64| is_timestamp_text(now) && applied == old(self).brain@.apply_batch(
            bc,
            br,
            now,
            now_ms,
        );
        let mut k: usize = 0;
        while k < names.len()
            invariant
                self.brain.wf(),
                k <= names@.len(),
                self.brain@ == after_tracking(applied, self.book(), views(names@).take(k as int)),
                self.book() == old(self).book(),
                self.brain_path@ == old(self).brain_path@,
                self.added_words() == old(self).added_words(),
                self.stop_set() == old(self).stop_set(),
            decreases names@.len() - k,
        {
            proof {
                assert(views(names@).take(k as int + 1).drop_last() =~= views(names@).take(k as int));
                assert(views(names@).take(k as int + 1).last() == names@[k as int]@);
                reveal_with_fuel(track_names, 2);
                assert(seq![names@[k as int]@].drop_last() =~= Seq::<Seq<char>>::empty());
            }
            self.track_book_concept(names[k].as_str());
            k = k + 1;
        }
        assert(views(names@).take(k as int) =~= views(names@));
        proof {
            assert((bc, br) == b);
            let now = stamp.0;
            let now_ms: u64 = stamp.1;
            crate::learner_laws::law_learning_from_text(
                old(self).brain@,
                old(self).added_words(),
                old(self).stop_set(),
                preprocessed(text@),
                opt_str(focus_concept),
                old(self).book(),
                now,
                now_ms,
            );
        }
        let elapsed = millis_since(&start);
        LearnResult {
            success: true,
            tokens_processed: tokens.len(),
            relations_added,
            concepts_updated,
            elapsed_ms: elapsed,
            performance: performance_label(elapsed),
        }
    }

    /// Decays the graph and prunes relations weaker than `MIN_WEIGHT` and
    /// concepts with less energy than `MIN_ENERGY` (and, when `aggressive`,
    /// concepts no relation touches); reports what was pruned and what is
    /// left.
    pub fn cleanup(&mut self, aggressive: bool) -> (r: CleanupResult)
        requires
            old(self).brain.wf(),
        ensures
            final(self).brain.wf(),
            exists|now: Seq<char>, now_ms: u64| is_timestamp_text(now) && final(self).brain@ == old(self).brain@.cleanup(MIN_WEIGHT, MIN_ENERGY, aggressive, now, now_ms),
            r.pruned_relations == (old(self).brain@.relations.len() - final(self).brain@.relations.len()) as u32,
            r.pruned_concepts == (old(self).brain@.concepts.len() - final(self).brain@.concepts.len()) as u32,
            r.remaining_relations == final(self).brain@.relations.len() as u32,
            r.remaining_concepts == final(self).brain@.concepts.len() as u32,
            final(self).book() == old(self).book(),
            final(self).brain_path@ == old(self).brain_path@,
            final(self).added_words() == old(self).added_words(),
            final(self).stop_set() == old(self).stop_set(),
    {
        let (pruned_relations, pruned_concepts) = self.brain.cleanup(MIN_WEIGHT, MIN_ENERGY, aggressive);
        CleanupResult {
            pruned_relations,
            pruned_concepts,
            remaining_relations: self.brain.total_relations() as u32,
            remaining_concepts: self.brain.total_concepts() as u32,
        }
    }

    /// Counts, mean weight and energy (rounded down), and the ten most
    /// energetic concepts (ties in graph order).
    pub fn get_stats(&self) -> (r: Stats)
        requires
            self.brain.wf(),
        ensures
            r.total_concepts == self.brain@.concepts.len() as u32,
            r.total_relations == self.brain@.relations.len() as u32,
            r.avg_weight == mean(weight_sum(self.brain@.relations), self.brain@.relations.len()),
            r.avg_energy == mean(energy_sum(self.brain@.concepts), self.brain@.concepts.len()),
            r.top_concepts@.len() == if self.brain@.concepts.len() < 10 { self.brain@.concepts.len() } else { 10 },
            forall|a: int, b: int| 0 <= a < b < r.top_concepts@.len() ==> #[trigger] r.top_concepts@[a].energy
                >= #[trigger] r.top_concepts@[b].energy,
            exists|order: Seq<usize>|
                #[trigger] is_stable_desc_order(energy_keys(self.brain@.concepts), order)
                && r.top_concepts@.map_values(|t: TopConcept| top_view(t)) == order.take(
                    if order.len() < 10 { order.len() as int } else { 10 },
                ).map_values(|i: usize| (
                    self.brain@.concepts[i as int].0,
                    self.brain@.concepts[i as int].1.energy,
                    self.brain@.concepts[i as int].1.count,
                )),
    {
        let cs = self.brain.concepts();
        let rs = self.brain.relations();
        let ghost cv = self.brain@.concepts;
        let ghost rv = self.brain@.relations;
        // Mean weight.
        let mut wsum: u128 = 0;
        let mut i: usize = 0;
        while i < rs.len()
            invariant
                rs@ == rv,
                i <= rv.len(),
                wsum == weight_sum(rv.take(i as int)),
            decreases rv.len() - i,
        {
            proof {
                assert(rv.take(i as int + 1).drop_last() =~= rv.take(i as int));
                lemma_weight_sum_bound(rv.take(i as int + 1));
                lemma_total_fits((i + 1) as nat, rv.len());
            }
            wsum = wsum + rs.value_at(i).weight as u128;
            i = i + 1;
        }
        assert(rv.take(i as int) =~= rv);
        let avg_weight: u64 = if rs.len() == 0 {
            0
        } else {
            proof {
                lemma_weight_sum_bound(rv);
                lemma_mean_fits(weight_sum(rv), rv.len());
            }
            (wsum / rs.len() as u128) as u64
        };
        // Mean energy.
        let mut esum: u128 = 0;
        let mut j: usize = 0;
        while j < cs.len()
            invariant
                cs@ == cv,
                j <= cv.len(),
                esum == energy_sum(cv.take(j as int)),
            decreases cv.len() - j,
        {
            proof {
                assert(cv.take(j as int + 1).drop_last() =~= cv.take(j as int));
                lemma_energy_sum_bound(cv.take(j as int + 1));
                lemma_total_fits((j + 1) as nat, cv.len());
            }
            esum = esum + cs.value_at(j).energy as u128;
            j = j + 1;
        }
        assert(cv.take(j as int) =~= cv);
        let avg_energy: u64 = if cs.len() == 0 {
            0
        } else {
            proof {
                lemma_energy_sum_bound(cv);
                lemma_mean_fits(energy_sum(cv), cv.len());
            }
            (esum / cs.len() as u128) as u64
        };
        // The most energetic concepts.
        let mut keys: Vec<i128> = Vec::new();
        let mut k: usize = 0;
        while k < cs.len()
            invariant
                cs@ == cv,
                k <= cv.len(),
                keys@ == energy_keys(cv).take(k as int),
            decreases cv.len() - k,
        {
            keys.push(cs.value_at(k).energy as i128);
            assert(keys@ =~= energy_keys(cv).take(k as int + 1));
            k = k + 1;
        }
        assert(keys@ =~= energy_keys(cv));
        let order = stable_desc_order(&keys);
        let top_n: usize = if order.len() < 10 {
            order.len()
        } else {
            10
        };
        let ghost f = |i: usize| (cv[i as int].0, cv[i as int].1.energy, cv[i as int].1.count);
        let mut top: Vec<TopConcept> = Vec::new();
        let mut t: usize = 0;
        while t < top_n
            invariant
                cs@ == cv,
                is_stable_desc_order(keys@, order@),
                keys@.len() == cv.len(),
                top_n <= order@.len(),
                t <= top_n,
                f == (|i: usize| (cv[i as int].0, cv[i as int].1.energy, cv[i as int].1.count)),
                top@.map_values(|x: TopConcept| top_view(x)) == order@.take(t as int).map_values(f),
            decreases top_n - t,
        {
            let idx = order[t];
            assert(idx < cv.len());
            let c = cs.value_at(idx);
            let item = TopConcept { name: cs.key_at(idx).clone(), energy: c.energy, count: c.count };
            let ghost before = top@;
            top.push(item);
            assert(top@.map_values(|x: TopConcept| top_view(x)) =~= before.map_values(|x: TopConcept| top_view(x)).push(f(idx)));
            assert(order@.take(t as int + 1).map_values(f) =~= order@.take(t as int).map_values(f).push(f(idx)));
            t = t + 1;
        }
        proof {
            crate::learner_laws::law_top_concepts_by_energy(cv, order@);
            let tv = top@.map_values(|x: TopConcept| top_view(x));
            assert forall|a: int, b: int| 0 <= a < b < top@.len() implies #[trigger] top@[a].energy >= #[trigger] top@[b].energy by {
                assert(tv[a] == f(order@[a]));
                assert(tv[b] == f(order@[b]));
                assert(tv[a].1 == top@[a].energy && tv[b].1 == top@[b].energy);
            }
        }
        Stats {
            total_concepts: self.brain.total_concepts() as u32,
            total_relations: self.brain.total_relations() as u32,
            avg_weight,
            avg_energy,
            top_concepts: top,
        }
    }

    /// A copy of the concept named `name`.
    pub fn get_concept(&self, name: &str) -> (r: Option<Concept>)
        requires
            self.brain.wf(),
        ensures
            match r {
                Some(c) => self.brain@.concept(name@) == Some(c@),
                None => self.brain@.concept(name@) is None,
            },
    {
        self.brain.get_concept(name)
    }

    /// The concepts reached from `name` within `max_depth` steps (see
    /// `related_concepts`), strongest relation first (ties in the order
    /// they were first reached).
    pub fn get_related_concepts(&self, name: &str, max_depth: usize) -> (r: Vec<(String, u64)>)
        requires
            self.brain.wf(),
        ensures
            ({
                let rel = related_concepts(self.brain@.relations, name@, max_depth as int);
                exists|order: Seq<usize>|
                    #[trigger] is_stable_desc_order(weight_keys(rel), order)
                    && r@.map_values(|e: (String, u64)| (e.0@, e.1)) == order.map_values(|i: usize| rel[i as int])
            }),
    {
        let mut visited: Vec<String> = Vec::new();
        let mut related: Table<u64> = Table::new();
        assert(views(visited@) =~= Seq::<Seq<char>>::empty());
        self.traverse(name, 0, max_depth, &mut visited, &mut related);
        let ghost rel = related@;
        let mut keys: Vec<i128> = Vec::new();
        let mut k: usize = 0;
        while k < related.len()
            invariant
                related@ == rel,
                k <= rel.len(),
                keys@ == weight_keys(rel).take(k as int),
            decreases rel.len() - k,
        {
            keys.push(*related.value_at(k) as i128);
            assert(keys@ =~= weight_keys(rel).take(k as int + 1));
            k = k + 1;
        }
        assert(keys@ =~= weight_keys(rel));
        let order = stable_desc_order(&keys);
        let ghost f = |i: usize| rel[i as int];
        let mut out: Vec<(String, u64)> = Vec::new();
        let mut t: usize = 0;
        while t < order.len()
            invariant
                related@ == rel,
                is_stable_desc_order(keys@, order@),
                keys@.len() == rel.len(),
                t <= order@.len(),
                f == (|i: usize| rel[i as int]),
                out@.map_values(|e: (String, u64)| (e.0@, e.1)) == order@.take(t as int).map_values(f),
            decreases order@.len() - t,
        {
            let idx = order[t];
            assert(idx < rel.len());
            let item = (related.key_at(idx).clone(), *related.value_at(idx));
            let ghost before = out@;
            out.push(item);
            assert(out@.map_values(|e: (String, u64)| (e.0@, e.1)) =~= before.map_values(|e: (String, u64)| (e.0@, e.1)).push(f(idx)));
            assert(order@.take(t as int + 1).map_values(f) =~= order@.take(t as int).map_values(f).push(f(idx)));
            t = t + 1;
        }
        assert(order@.take(order@.len() as int) =~= order@);
        assert(rel == related_concepts(self.brain@.relations, name@, max_depth as int));
        assert(is_stable_desc_order(weight_keys(rel), order@));
        assert(out@.map_values(|e: (String, u64)| (e.0@, e.1)) == order@.map_values(|i: usize| rel[i as int]));
        out
    }

    fn traverse(
        &self,
        current: &str,
        depth: usize,
        max_depth: usize,
        visited: &mut Vec<String>,
        related: &mut Table<u64>,
    )
        requires
            self.brain.wf(),
            old(related).wf(),
            depth <= max_depth,
        ensures
            final(related).wf(),
            (views(final(visited)@), final(related)@) == traversal(
                self.brain@.relations,
                current@,
                depth as int,
                max_depth as int,
                (views(old(visited)@), old(related)@),
            ),
        decreases max_depth - depth,
    {
        let ghost rels = self.brain@.relations;
        if crate::text::contains_string(visited, current) {
            return;
        }
        let ghost before = visited@;
        visited.push(to_string(current));
        assert(views(visited@) =~= views(before).push(current@));
        let touching = self.brain.get_relations_for_concept(current);
        let ghost es = relations_touching(rels, current@);
        assert(touching@.map_values(|x: Relation| x@) == es);
        assert(touching@.len() == es.len());
        let ghost st0 = (views(visited@), related@);
        let mut i: usize = 0;
        while i < touching.len()
            invariant
                self.brain.wf(),
                rels == self.brain@.relations,
                related.wf(),
                depth <= max_depth,
                touching@.map_values(|x: Relation| x@) == es,
                touching@.len() == es.len(),
                es == relations_touching(rels, current@),
                i <= touching@.len(),
                (views(visited@), related@) == traversal_edges(rels, current@, depth as int, max_depth as int, st0, i as int),
            decreases touching@.len() - i,
        {
            let r = &touching[i];
            assert(r@ == es[i as int]);
            let n: &String = if str_eq(r.source.as_str(), current) {
                &r.target
            } else {
                &r.source
            };
            assert(n@ == other_end(es[i as int], current@));
            let ghost s1 = (views(visited@), related@);
            if !crate::text::contains_string(visited, n.as_str()) {
                related.insert(n.clone(), r.weight);
                assert(related@ == upsert(s1.1, n@, es[i as int].weight));
                if depth < max_depth {
                    self.traverse(n.as_str(), depth + 1, max_depth, visited, related);
                } else {
                    assert(traversal(rels, n@, depth + 1, max_depth as int, (s1.0, related@)) == (s1.0, related@));
                }
                assert((views(visited@), related@) == traversal(rels, n@, depth + 1, max_depth as int, (s1.0, upsert(s1.1, n@, es[i as int].weight))));
            }
            assert((views(visited@), related@) == traversal_edges(rels, current@, depth as int, max_depth as int, st0, i + 1));
            i = i + 1;
        }
    }

    /// Removes every concept, relation, book and book-concept record.
    pub fn clear(&mut self)
        requires
            old(self).brain.wf(),
        ensures
            final(self).brain.wf(),
            final(self).brain@ == (BrainView {
                concepts: Seq::empty(),
                relations: Seq::empty(),
                books: Seq::empty(),
                book_concepts: Seq::empty(),
                ..old(self).brain@
            }),
            final(self).book() == old(self).book(),
            final(self).brain_path@ == old(self).brain_path@,
            final(self).added_words() == old(self).added_words(),
            final(self).stop_set() == old(self).stop_set(),
    {
        self.brain.clear();
    }

    /// Sets the description of concept `name` when it is not empty and
    /// longer than the current one (or there is none).
    pub fn set_concept_description(&mut self, name: &str, description: &str)
        requires
            old(self).brain.wf(),
        ensures
            final(self).brain.wf(),
            final(self).brain@ == old(self).brain@.set_description(name@, description@),
            final(self).book() == old(self).book(),
            final(self).brain_path@ == old(self).brain_path@,
            final(self).added_words() == old(self).added_words(),
            final(self).stop_set() == old(self).stop_set(),
    {
        self.brain.set_concept_description(name, description);
    }
}

} // verus!
