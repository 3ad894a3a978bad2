//! Natural-language answers from graph knowledge, built from templates.
//!
//! Weights are fixed-point numbers in units of `1 / UNIT` (0.6 is 600_000).

use vstd::prelude::*;
use vstd::string::*;
use crate::brain::Brain;
use crate::text::{
    contains, join, join_strings, lowercase, starts_with_char, str_contains, str_utf8_len_at_least,
    to_lowercase, to_string, utf8_len, views,
};

verus! {

/// The kinds of relation a pair of concept names can suggest.
#[derive(Debug, Clone, Copy, PartialEq, Eq, Structural)]
pub enum RelationType {
    /// A is a kind of B.
    IsA,
    /// A is part of B.
    PartOf,
    /// A is related to B.
    RelatedTo,
    /// A causes B.
    Causes,
    /// A has property B.
    HasProperty,
    /// Nothing is known.
    Unknown,
}

/// Words that suggest a part-of relation.
pub open spec fn part_indicators() -> Seq<Seq<char>> {
    seq!["部分"@, "分支"@, "子领域"@, "子类"@, "类型"@, "种类"@]
}

/// Words that suggest a causal relation.
pub open spec fn cause_indicators() -> Seq<Seq<char>> {
    seq!["导致"@, "引起"@, "产生"@, "造成"@, "影响"@]
}

/// Words that suggest a property.
pub open spec fn property_indicators() -> Seq<Seq<char>> {
    seq!["技术"@, "方法"@, "特点"@, "特征"@, "能力"@, "功能"@]
}

/// Whether `s` contains one of `words`.
pub open spec fn contains_any(s: Seq<char>, words: Seq<Seq<char>>) -> bool {
    exists|i: int| 0 <= i < words.len() && contains(s, #[trigger] words[i])
}

/// The relation suggested by the names (compared in lowercase): "是" in
/// either name gives `IsA`; a part-of word in either gives `PartOf`; a causal
/// word in either gives `Causes`; a property word in the target gives
/// `HasProperty`; otherwise `RelatedTo`.
pub open spec fn relation_kind(source: Seq<char>, target: Seq<char>) -> RelationType {
    let s = lowercase(source);
    let t = lowercase(target);
    if contains(s, "是"@) || contains(t, "是"@) {
        RelationType::IsA
    } else if contains_any(s, part_indicators()) || contains_any(t, part_indicators()) {
        RelationType::PartOf
    } else if contains_any(s, cause_indicators()) || contains_any(t, cause_indicators()) {
        RelationType::Causes
    } else if contains_any(t, property_indicators()) {
        RelationType::HasProperty
    } else {
        RelationType::RelatedTo
    }
}

fn contains_any_of(s: &str, words: &Vec<&str>) -> (r: bool)
    ensures
        r == contains_any(s@, words@.map_values(|w: &str| w@)),
{
    let ghost ws = words@.map_values(|w: &str| w@);
    let mut i: usize = 0;
    while i < words.len()
        invariant
            i <= words@.len(),
            ws == words@.map_values(|w: &str| w@),
            forall|k: int| 0 <= k < i ==> !contains(s@, #[trigger] ws[k]),
        decreases words@.len() - i,
    {
        assert(ws[i as int] == words@[i as int]@);
        if str_contains(s, words[i]) {
            return true;
        }
        i = i + 1;
    }
    false
}

/// The relation suggested by two concept names (see `relation_kind`).
pub fn infer_relation_type(source: &str, target: &str) -> (r: RelationType)
    ensures
        r == relation_kind(source@, target@),
{
    let s = to_lowercase(source);
    let t = to_lowercase(target);
    if str_contains(s.as_str(), "是") || str_contains(t.as_str(), "是") {
        return RelationType::IsA;
    }
    let part: Vec<&str> = vec!["部分", "分支", "子领域", "子类", "类型", "种类"];
    assert(part@.map_values(|w: &str| w@) =~= part_indicators());
    if contains_any_of(s.as_str(), &part) || contains_any_of(t.as_str(), &part) {
        return RelationType::PartOf;
    }
    let cause: Vec<&str> = vec!["导致", "引起", "产生", "造成", "影响"];
    assert(cause@.map_values(|w: &str| w@) =~= cause_indicators());
    if contains_any_of(s.as_str(), &cause) || contains_any_of(t.as_str(), &cause) {
        return RelationType::Causes;
    }
    let property: Vec<&str> = vec!["技术", "方法", "特点", "特征", "能力", "功能"];
    assert(property@.map_values(|w: &str| w@) =~= property_indicators());
    if contains_any_of(t.as_str(), &property) {
        return RelationType::HasProperty;
    }
    RelationType::RelatedTo
}

/// How strong a weight reads: above 0.6 "密切", above 0.3 "一定", else "某种".
pub open spec fn strength_word(weight: u64) -> Seq<char> {
    if weight > 600_000 {
        "密切"@
    } else if weight > 300_000 {
        "一定"@
    } else {
        "某种"@
    }
}

/// The sentence describing a relation of the given kind.
pub open spec fn sentence(source: Seq<char>, target: Seq<char>, weight: u64, kind: RelationType) -> Seq<char> {
    match kind {
        RelationType::IsA => source + "是"@ + target + "的一种。"@,
        RelationType::PartOf => source + "属于"@ + target + "的范畴。"@,
        RelationType::Causes => source + "对"@ + target + "有着"@ + strength_word(weight) + "影响。"@,
        RelationType::HasProperty => source + "具有"@ + target + "的特点。"@,
        RelationType::RelatedTo => if weight > 500_000 {
            source + "与"@ + target + "有着"@ + strength_word(weight) + "的关联。"@
        } else {
            source + "与"@ + target + "存在一定的联系。"@
        },
        RelationType::Unknown => source + "与"@ + target + "相关。"@,
    }
}

fn strength(weight: u64) -> (r: &'static str)
    ensures
        r@ == strength_word(weight),
{
    if weight > 600_000 {
        "密切"
    } else if weight > 300_000 {
        "一定"
    } else {
        "某种"
    }
}

/// The sentence describing a relation (see `sentence`).
pub fn relation_to_sentence(source: &str, target: &str, weight: u64, rel_type: &RelationType) -> (r: String)
    ensures
        r@ == sentence(source@, target@, weight, *rel_type),
{
    let mut r = to_string(source);
    match rel_type {
        RelationType::IsA => {
            r.append("是");
            r.append(target);
            r.append("的一种。");
        },
        RelationType::PartOf => {
            r.append("属于");
            r.append(target);
            r.append("的范畴。");
        },
        RelationType::Causes => {
            r.append("对");
            r.append(target);
            r.append("有着");
            r.append(strength(weight));
            r.append("影响。");
        },
        RelationType::HasProperty => {
            r.append("具有");
            r.append(target);
            r.append("的特点。");
        },
        RelationType::RelatedTo => {
            if weight > 500_000 {
                r.append("与");
                r.append(target);
                r.append("有着");
                r.append(strength(weight));
                r.append("的关联。");
            } else {
                r.append("与");
                r.append(target);
                r.append("存在一定的联系。");
            }
        },
        RelationType::Unknown => {
            r.append("与");
            r.append(target);
            r.append("相关。");
        },
    }
    r
}

// ---------------------------------------------------------------------------
// Paragraphs
// ---------------------------------------------------------------------------

/// The views of relation triples.
pub open spec fn triple_views(v: Seq<(String, String, u64)>) -> Seq<(Seq<char>, Seq<char>, u64)> {
    v.map_values(|e: (String, String, u64)| (e.0@, e.1@, e.2))
}

/// Which way round a relation is told: from the main concept or an already
/// mentioned one when possible.
pub open spec fn paragraph_orientation(
    source: Seq<char>,
    target: Seq<char>,
    main: Seq<char>,
    mentioned: Seq<Seq<char>>,
) -> (Seq<char>, Seq<char>) {
    if source == main || mentioned.contains(source) {
        (source, target)
    } else if target == main || mentioned.contains(target) {
        (target, source)
    } else {
        (source, target)
    }
}

/// The sentences and mentioned concepts after the first `k` relations; once
/// four sentences are written the rest are ignored, and a sentence already
/// written is not repeated.
pub open spec fn paragraph_state(
    rels: Seq<(Seq<char>, Seq<char>, u64)>,
    main: Seq<char>,
    k: int,
) -> (Seq<Seq<char>>, Seq<Seq<char>>)
    decreases k,
{
    if k <= 0 {
        (Seq::empty(), seq![main])
    } else {
        let st = paragraph_state(rels, main, k - 1);
        if st.0.len() >= 4 {
            st
        } else {
            let r = rels[k - 1];
            let o = paragraph_orientation(r.0, r.1, main, st.1);
            let s = sentence(o.0, o.1, r.2, relation_kind(o.0, o.1));
            if st.0.contains(s) {
                st
            } else {
                (st.0.push(s), st.1.push(o.0).push(o.1))
            }
        }
    }
}

/// A paragraph about `main` from relation triples (source, target, weight).
pub open spec fn paragraph(rels: Seq<(Seq<char>, Seq<char>, u64)>, main: Seq<char>) -> Seq<char> {
    if rels.len() == 0 {
        "关于\""@ + main + "\"，我目前了解的信息还不够多。"@
    } else {
        join(paragraph_state(rels, main, rels.len() as int).0, ""@)
    }
}

/// A paragraph of at most four distinct sentences about `main_concept` (see
/// `paragraph`).
pub fn generate_paragraph(relations: &[(String, String, u64)], main_concept: &str) -> (r: String)
    ensures
        r@ == paragraph(triple_views(relations@), main_concept@),
{
    let ghost rv = triple_views(relations@);
    if relations.len() == 0 {
        let mut r = to_string("关于\"");
        r.append(main_concept);
        r.append("\"，我目前了解的信息还不够多。");
        return r;
    }
    let mut sentences: Vec<String> = Vec::new();
    let mut mentioned: Vec<String> = Vec::new();
    mentioned.push(to_string(main_concept));
    assert(views(sentences@) =~= Seq::<Seq<char>>::empty());
    assert(views(mentioned@) =~= seq![main_concept@]);
    let mut i: usize = 0;
    while i < relations.len()
        invariant
            i <= relations@.len(),
            rv == triple_views(relations@),
            (views(sentences@), views(mentioned@)) == paragraph_state(rv, main_concept@, i as int),
        decreases relations@.len() - i,
    {
        if sentences.len() < 4 {
            let (source, target, weight) = (&relations[i].0, &relations[i].1, relations[i].2);
            assert(rv[i as int] == (source@, target@, weight));
            let (from, to) = if crate::text::str_eq(source.as_str(), main_concept)
                || crate::text::contains_string(&mentioned, source.as_str()) {
                (source, target)
            } else if crate::text::str_eq(target.as_str(), main_concept)
                || crate::text::contains_string(&mentioned, target.as_str()) {
                (target, source)
            } else {
                (source, target)
            };
            let kind = infer_relation_type(from.as_str(), to.as_str());
            let s = relation_to_sentence(from.as_str(), to.as_str(), weight, &kind);
            if !crate::text::contains_string(&sentences, s.as_str()) {
                let ghost s0 = sentences@;
                let ghost m0 = mentioned@;
                sentences.push(s);
                mentioned.push(from.clone());
                mentioned.push(to.clone());
                assert(views(sentences@) =~= views(s0).push(s@));
                assert(views(mentioned@) =~= views(m0).push(from@).push(to@));
            }
        }
        i = i + 1;
    }
    join_strings(&sentences, "")
}

// ---------------------------------------------------------------------------
// Single-concept answers
// ---------------------------------------------------------------------------

/// The views of (name, weight) pairs.
pub open spec fn pair_views(v: Seq<(String, u64)>) -> Seq<(Seq<char>, u64)> {
    v.map_values(|e: (String, u64)| (e.0@, e.1))
}

/// The names of (name, weight) pairs.
pub open spec fn names_of(v: Seq<(Seq<char>, u64)>) -> Seq<Seq<char>> {
    v.map_values(|e: (Seq<char>, u64)| e.0)
}

/// The first `n` items of `s`, or all of them when there are fewer.
pub open spec fn first_n<A>(s: Seq<A>, n: int) -> Seq<A> {
    if s.len() < n {
        s
    } else {
        s.take(n)
    }
}

/// Whether a name starts with a Chinese comma or full stop.
pub open spec fn starts_with_cjk_stop(s: Seq<char>) -> bool {
    s.len() > 0 && (s[0] == '，' || s[0] == '。')
}

/// Related concepts worth mentioning: at least two bytes long, weight above
/// 0.01, not starting with a Chinese comma or full stop.
pub open spec fn keep_related(e: (Seq<char>, u64)) -> bool {
    utf8_len(e.0) >= 2 && e.1 > 10_000 && !starts_with_cjk_stop(e.0)
}

/// The answer about one concept from its related concepts: strongly (weight
/// above 0.3), moderately (above 0.1) and weakly related ones, at most three,
/// three and two of them, the weak ones only when there are several.
pub open spec fn single_concept_text(concept: Seq<char>, related: Seq<(Seq<char>, u64)>) -> Seq<char> {
    if related.len() == 0 {
        "关于\""@ + concept + "\"，这是我刚刚学到的新概念。如果你能告诉我更多相关信息，我可以更好地理解它。"@
    } else {
        let filtered = related.filter(|e: (Seq<char>, u64)| keep_related(e));
        if filtered.len() == 0 {
            "关于\""@ + concept + "\"，我目前了解的信息还不够多。建议我通过 `./seed init \""@ + concept
                + "\"` 来获取更多信息？"@
        } else {
            let strong = filtered.filter(|e: (Seq<char>, u64)| e.1 > 300_000);
            let medium = filtered.filter(|e: (Seq<char>, u64)| e.1 > 100_000 && e.1 <= 300_000);
            let weak = filtered.filter(|e: (Seq<char>, u64)| e.1 <= 100_000);
            "关于\""@ + concept + "\"，我了解到：\n\n"@
                + (if strong.len() > 0 {
                    "它与"@ + join(names_of(first_n(strong, 3)), "、"@) + "等概念有着密切的关联。\n"@
                } else {
                    Seq::empty()
                })
                + (if medium.len() > 0 {
                    "此外，它还与"@ + join(names_of(first_n(medium, 3)), "、"@) + "等概念有所关联。\n"@
                } else {
                    Seq::empty()
                })
                + (if weak.len() > 1 {
                    "另外，"@ + join(names_of(first_n(weak, 2)), "和"@) + "也值得了解。\n"@
                } else {
                    Seq::empty()
                })
        }
    }
}

/// The related concepts passing `keep_related`, in order.
fn filter_related(related: &[(String, u64)]) -> (r: Vec<(String, u64)>)
    ensures
        pair_views(r@) == pair_views(related@).filter(|e: (Seq<char>, u64)| keep_related(e)),
{
    let ghost f = |e: (Seq<char>, u64)| keep_related(e);
    let ghost rv = pair_views(related@);
    let mut out: Vec<(String, u64)> = Vec::new();
    let mut i: usize = 0;
    while i < related.len()
        invariant
            i <= related@.len(),
            rv == pair_views(related@),
            f == (|e: (Seq<char>, u64)| keep_related(e)),
            pair_views(out@) == rv.take(i as int).filter(f),
        decreases related@.len() - i,
    {
        proof {
            reveal_with_fuel(Seq::<_>::filter, 1);
            assert(rv.take(i as int + 1).drop_last() =~= rv.take(i as int));
        }
        let c = &related[i].0;
        let w = related[i].1;
        assert(rv[i as int] == (c@, w));
        if str_utf8_len_at_least(c.as_str(), 2) && w > 10_000 && !starts_with_char(c.as_str(), '，')
            && !starts_with_char(c.as_str(), '。') {
            let ghost before = out@;
            out.push((c.clone(), w));
            assert(pair_views(out@) =~= pair_views(before).push((c@, w)));
        }
        i = i + 1;
    }
    assert(rv.take(i as int) =~= rv);
    out
}

/// The names of the first `n` pairs of `v` that pass `p`.
fn first_names_where(v: &Vec<(String, u64)>, lo: u64, hi: u64, n: usize) -> (r: Vec<String>)
    ensures
        views(r@) == names_of(first_n(pair_views(v@).filter(|e: (Seq<char>, u64)| lo < e.1 && e.1 <= hi), n as int)),
{
    let ghost f = |e: (Seq<char>, u64)| lo < e.1 && e.1 <= hi;
    let ghost pv = pair_views(v@);
    let mut out: Vec<String> = Vec::new();
    let mut i: usize = 0;
    while i < v.len()
        invariant
            i <= v@.len(),
            pv == pair_views(v@),
            f == (|e: (Seq<char>, u64)| lo < e.1 && e.1 <= hi),
            views(out@) == names_of(first_n(pv.take(i as int).filter(f), n as int)),
        decreases v@.len() - i,
    {
        proof {
            reveal_with_fuel(Seq::<_>::filter, 1);
            assert(pv.take(i as int + 1).drop_last() =~= pv.take(i as int));
        }
        let w = v[i].1;
        assert(pv[i as int] == (v@[i as int].0@, w));
        if lo < w && w <= hi {
            let ghost fl = pv.take(i as int).filter(f);
            assert(views(out@).len() == out@.len());
            assert(first_n(fl, n as int).len() == (if fl.len() < n { fl.len() as int } else { n as int }));
            if out.len() < n {
                let ghost before = out@;
                out.push(v[i].0.clone());
                proof {
                    assert(fl.len() < n);
                    assert(first_n(fl, n as int) == fl);
                    assert(first_n(fl.push(pv[i as int]), n as int) =~= fl.push(pv[i as int]));
                    assert(names_of(fl.push(pv[i as int])) =~= names_of(fl).push(pv[i as int].0));
                    assert(views(out@) =~= views(before).push(v@[i as int].0@));
                    assert(views(out@) =~= names_of(first_n(fl.push(pv[i as int]), n as int)));
                }
            } else {
                proof {
                    assert(fl.len() >= n);
                    assert(first_n(fl.push(pv[i as int]), n as int) =~= first_n(fl, n as int));
                }
            }
        }
        i = i + 1;
    }
    assert(pv.take(i as int) =~= pv);
    out
}

/// The answer about `concept` from its related concepts (see
/// `single_concept_text`).
pub fn generate_single_concept_answer(concept: &str, related: &[(String, u64)]) -> (r: String)
    ensures
        r@ == single_concept_text(concept@, pair_views(related@)),
{
    let ghost rv = pair_views(related@);
    if related.len() == 0 {
        let mut r = to_string("关于\"");
        r.append(concept);
        r.append("\"，这是我刚刚学到的新概念。如果你能告诉我更多相关信息，我可以更好地理解它。");
        return r;
    }
    let filtered = filter_related(related);
    let ghost fv = pair_views(filtered@);
    if filtered.len() == 0 {
        let mut r = to_string("关于\"");
        r.append(concept);
        r.append("\"，我目前了解的信息还不够多。建议我通过 `./seed init \"");
        r.append(concept);
        r.append("\"` 来获取更多信息？");
        return r;
    }
    let strong = first_names_where(&filtered, 300_000, u64::MAX, 3);
    let medium = first_names_where(&filtered, 100_000, 300_000, 3);
    let weak = first_names_where(&filtered, 0, 100_000, 2);
    let weak_count = count_where(&filtered, 0, 100_000);
    proof {
        lemma_bands(rv);
        lemma_first_n_nonempty(fv.filter(|e: (Seq<char>, u64)| e.1 > 300_000), 3);
        lemma_first_n_nonempty(fv.filter(|e: (Seq<char>, u64)| e.1 > 100_000 && e.1 <= 300_000), 3);
    }
    let mut r = to_string("关于\"");
    r.append(concept);
    r.append("\"，我了解到：\n\n");
    let s1 = band_text("它与", &strong, "、", "等概念有着密切的关联。\n", strong.len() > 0);
    let s2 = band_text("此外，它还与", &medium, "、", "等概念有所关联。\n", medium.len() > 0);
    let s3 = band_text("另外，", &weak, "和", "也值得了解。\n", weak_count > 1);
    r.append(s1.as_str());
    r.append(s2.as_str());
    r.append(s3.as_str());
    r
}

/// `prefix`, the names joined by `sep`, and `suffix`, when `show`; else
/// nothing.
fn band_text(prefix: &str, names: &Vec<String>, sep: &str, suffix: &str, show: bool) -> (r: String)
    ensures
        r@ == (if show { prefix@ + join(views(names@), sep@) + suffix@ } else { Seq::<char>::empty() }),
{
    if show {
        let mut r = to_string(prefix);
        let j = join_strings(names, sep);
        r.append(j.as_str());
        r.append(suffix);
        r
    } else {
        String::new()
    }
}

/// The three weight bands of the kept related concepts, as `first_names_where`
/// and `count_where` select them.
proof fn lemma_bands(rel: Seq<(Seq<char>, u64)>)
    ensures
        ({
            let fv = rel.filter(|e: (Seq<char>, u64)| keep_related(e));
            &&& fv.filter(|e: (Seq<char>, u64)| 300_000 < e.1 && e.1 <= u64::MAX) == fv.filter(|e: (Seq<char>, u64)| e.1 > 300_000)
            &&& fv.filter(|e: (Seq<char>, u64)| 100_000 < e.1 && e.1 <= 300_000) == fv.filter(|e: (Seq<char>, u64)| e.1 > 100_000 && e.1 <= 300_000)
            &&& fv.filter(|e: (Seq<char>, u64)| 0 < e.1 && e.1 <= 100_000) == fv.filter(|e: (Seq<char>, u64)| e.1 <= 100_000)
        }),
{
    let keep = |e: (Seq<char>, u64)| keep_related(e);
    let fv = rel.filter(keep);
    lemma_same_filter(fv, |e: (Seq<char>, u64)| 300_000 < e.1 && e.1 <= u64::MAX, |e: (Seq<char>, u64)| e.1 > 300_000);
    lemma_same_filter(fv, |e: (Seq<char>, u64)| 100_000 < e.1 && e.1 <= 300_000, |e: (Seq<char>, u64)| e.1 > 100_000 && e.1 <= 300_000);
    assert forall|k: int| 0 <= k < fv.len() implies #[trigger] fv[k].1 > 0 by {
        rel.lemma_filter_pred(keep, k);
    }
    lemma_same_filter(fv, |e: (Seq<char>, u64)| 0 < e.1 && e.1 <= 100_000, |e: (Seq<char>, u64)| e.1 <= 100_000);
}

proof fn lemma_same_filter<A>(s: Seq<A>, p: spec_fn(A) -> bool, q: spec_fn(A) -> bool)
    requires
        forall|k: int| 0 <= k < s.len() ==> p(#[trigger] s[k]) == q(s[k]),
    ensures
        s.filter(p) == s.filter(q),
    decreases s.len(),
{
    reveal_with_fuel(Seq::<_>::filter, 1);
    if s.len() > 0 {
        lemma_same_filter(s.drop_last(), p, q);
        assert(p(s.last()) == q(s[s.len() - 1]));
    }
}

proof fn lemma_first_n_nonempty<A>(s: Seq<A>, n: int)
    requires
        n > 0,
    ensures
        (first_n(s, n).len() > 0) == (s.len() > 0),
{
}

/// How many pairs of `v` have a weight in `lo < w <= hi`.
fn count_where(v: &Vec<(String, u64)>, lo: u64, hi: u64) -> (r: usize)
    ensures
        r == pair_views(v@).filter(|e: (Seq<char>, u64)| lo < e.1 && e.1 <= hi).len(),
{
    let ghost f = |e: (Seq<char>, u64)| lo < e.1 && e.1 <= hi;
    let ghost pv = pair_views(v@);
    let mut c: usize = 0;
    let mut i: usize = 0;
    while i < v.len()
        invariant
            i <= v@.len(),
            pv == pair_views(v@),
            f == (|e: (Seq<char>, u64)| lo < e.1 && e.1 <= hi),
            c == pv.take(i as int).filter(f).len(),
            c <= i,
        decreases v@.len() - i,
    {
        proof {
            reveal_with_fuel(Seq::<_>::filter, 1);
            assert(pv.take(i as int + 1).drop_last() =~= pv.take(i as int));
        }
        let w = v[i].1;
        assert(pv[i as int] == (v@[i as int].0@, w));
        if lo < w && w <= hi {
            c = c + 1;
        }
        i = i + 1;
    }
    assert(pv.take(i as int) =~= pv);
    c
}

/// The answer about one concept when its description is known: the name in
/// bold followed by the description; without a (non-empty) description, the
/// answer from its related concepts.
pub open spec fn described_concept_text(
    concept: Seq<char>,
    related: Seq<(Seq<char>, u64)>,
    description: Option<Seq<char>>,
) -> Seq<char> {
    match description {
        Some(d) => if d.len() > 0 {
            "**"@ + concept + "**\n\n"@ + d
        } else {
            single_concept_text(concept, related)
        },
        None => single_concept_text(concept, related),
    }
}

/// The answer about `concept` given its description, if any (see
/// `described_concept_text`).
pub fn generate_described_concept_answer(
    concept: &str,
    related: &[(String, u64)],
    description: Option<&str>,
) -> (r: String)
    ensures
        r@ == described_concept_text(concept@, pair_views(related@), match description {
            Some(d) => Some(d@),
            None => None,
        }),
{
    match description {
        Some(d) => {
            if d.is_empty() {
                generate_single_concept_answer(concept, related)
            } else {
                let mut r = to_string("**");
                r.append(concept);
                r.append("**\n\n");
                r.append(d);
                r
            }
        },
        None => generate_single_concept_answer(concept, related),
    }
}

// ---------------------------------------------------------------------------
// Multi-concept answers
// ---------------------------------------------------------------------------

/// Path nodes worth showing: at least two bytes long and not starting with
/// a Chinese comma or full stop.
pub open spec fn keep_path_node(p: Seq<char>) -> bool {
    utf8_len(p) >= 2 && !starts_with_cjk_stop(p)
}

/// The arrows of the chain `clean[1..i_end]`: "→ name " each.
pub open spec fn chain_text(clean: Seq<Seq<char>>, i_end: int) -> Seq<char>
    decreases i_end,
{
    if i_end <= 1 {
        Seq::empty()
    } else {
        chain_text(clean, i_end - 1) + "→ "@ + clean[i_end - 1] + " "@
    }
}

/// The bullet lines for the links `clean[i] - clean[i + 1]`, `i < i_end`.
pub open spec fn bullet_text(clean: Seq<Seq<char>>, i_end: int) -> Seq<char>
    decreases i_end,
{
    if i_end <= 0 {
        Seq::empty()
    } else {
        bullet_text(clean, i_end - 1) + "• "@ + clean[i_end - 1] + "与"@ + clean[i_end] + "存在关联\n"@
    }
}

/// The smaller of two integers.
pub open spec fn min_int(a: int, b: int) -> int {
    if a < b {
        a
    } else {
        b
    }
}

/// The answer about how the first two concepts relate, given a path between
/// them and the relation triples along it: a direct link is told as one
/// sentence; a longer path as a chain of at most five shown nodes and at
/// most three links.
pub open spec fn multi_concept_text(
    concepts: Seq<Seq<char>>,
    path: Seq<Seq<char>>,
    details: Seq<(Seq<char>, Seq<char>, u64)>,
) -> Seq<char> {
    if concepts.len() < 2 {
        single_concept_text(concepts[0], Seq::empty())
    } else {
        let a = concepts[0];
        let b = concepts[1];
        if path.len() < 2 {
            "\""@ + a + "\"和\""@ + b
                + "\"是两个不同的概念。目前我还没有发现它们之间的直接关联。\n\n也许你可以告诉我更多关于它们的关系？"@
        } else if path.len() == 2 {
            sentence(a, b, details[0].2, relation_kind(a, b))
        } else {
            let clean = path.filter(|p: Seq<char>| keep_path_node(p));
            if clean.len() < 2 {
                "\""@ + a + "\"和\""@ + b + "\"虽然都与某些概念有关联，但我还不能清晰地描述它们之间的关系。"@
            } else {
                "\""@ + a + "\"和\""@ + b + "\"之间可以通过以下路径联系起来：\n\n"@ + clean[0] + " "@
                    + chain_text(clean, min_int(clean.len() as int, 5)) + "\n\n"@ + "简单来说：\n"@
                    + bullet_text(clean, min_int(clean.len() - 1, 3))
            }
        }
    }
}

fn clean_path(path: &[String]) -> (r: Vec<String>)
    ensures
        views(r@) == views(path@).filter(|p: Seq<char>| keep_path_node(p)),
{
    let ghost f = |p: Seq<char>| keep_path_node(p);
    let ghost pv = views(path@);
    let mut out: Vec<String> = Vec::new();
    let mut i: usize = 0;
    while i < path.len()
        invariant
            i <= path@.len(),
            pv == views(path@),
            f == (|p: Seq<char>| keep_path_node(p)),
            views(out@) == pv.take(i as int).filter(f),
        decreases path@.len() - i,
    {
        proof {
            reveal_with_fuel(Seq::<_>::filter, 1);
            assert(pv.take(i as int + 1).drop_last() =~= pv.take(i as int));
        }
        let p = &path[i];
        assert(pv[i as int] == p@);
        if str_utf8_len_at_least(p.as_str(), 2) && !starts_with_char(p.as_str(), '，')
            && !starts_with_char(p.as_str(), '。') {
            let ghost before = out@;
            out.push(p.clone());
            assert(views(out@) =~= views(before).push(p@));
        }
        i = i + 1;
    }
    assert(pv.take(i as int) =~= pv);
    out
}

/// The answer about how `concepts[0]` and `concepts[1]` relate (see
/// `multi_concept_text`).
pub fn generate_multi_concept_answer(
    concepts: &[String],
    path: &[String],
    path_details: &[(String, String, u64)],
) -> (r: String)
    requires
        concepts@.len() >= 1,
        path@.len() == 2 && concepts@.len() >= 2 ==> path_details@.len() >= 1,
    ensures
        r@ == multi_concept_text(views(concepts@), views(path@), triple_views(path_details@)),
{
    if concepts.len() < 2 {
        let empty: Vec<(String, u64)> = Vec::new();
        assert(pair_views(empty@) =~= Seq::<(Seq<char>, u64)>::empty());
        return generate_single_concept_answer(concepts[0].as_str(), empty.as_slice());
    }
    let a = &concepts[0];
    let b = &concepts[1];
    assert(views(concepts@)[0] == a@ && views(concepts@)[1] == b@);
    if path.len() < 2 {
        let mut r = to_string("\"");
        r.append(a.as_str());
        r.append("\"和\"");
        r.append(b.as_str());
        r.append("\"是两个不同的概念。目前我还没有发现它们之间的直接关联。\n\n也许你可以告诉我更多关于它们的关系？");
        return r;
    }
    if path.len() == 2 {
        let kind = infer_relation_type(a.as_str(), b.as_str());
        assert(triple_views(path_details@)[0].2 == path_details@[0].2);
        return relation_to_sentence(a.as_str(), b.as_str(), path_details[0].2, &kind);
    }
    let clean = clean_path(path);
    let ghost cv = views(clean@);
    if clean.len() < 2 {
        let mut r = to_string("\"");
        r.append(a.as_str());
        r.append("\"和\"");
        r.append(b.as_str());
        r.append("\"虽然都与某些概念有关联，但我还不能清晰地描述它们之间的关系。");
        return r;
    }
    let mut r = to_string("\"");
    r.append(a.as_str());
    r.append("\"和\"");
    r.append(b.as_str());
    r.append("\"之间可以通过以下路径联系起来：\n\n");
    r.append(clean[0].as_str());
    r.append(" ");
    assert(cv[0] == clean@[0]@);
    let chain_end: usize = if clean.len() < 5 {
        clean.len()
    } else {
        5
    };
    let mut chain = String::new();
    let mut i: usize = 1;
    while i < chain_end
        invariant
            1 <= i <= chain_end,
            chain_end <= clean@.len(),
            cv == views(clean@),
            chain@ == chain_text(cv, i as int),
        decreases chain_end - i,
    {
        assert(cv[i as int] == clean@[i as int]@);
        chain.append("→ ");
        chain.append(clean[i].as_str());
        chain.append(" ");
        i = i + 1;
    }
    r.append(chain.as_str());
    r.append("\n\n");
    r.append("简单来说：\n");
    let bullet_end: usize = if clean.len() - 1 < 3 {
        clean.len() - 1
    } else {
        3
    };
    let mut bullets = String::new();
    let mut k: usize = 0;
    while k < bullet_end
        invariant
            k <= bullet_end,
            bullet_end < clean@.len(),
            cv == views(clean@),
            bullets@ == bullet_text(cv, k as int),
        decreases bullet_end - k,
    {
        assert(cv[k as int] == clean@[k as int]@);
        assert(cv[k as int + 1] == clean@[k as int + 1]@);
        bullets.append("• ");
        bullets.append(clean[k].as_str());
        bullets.append("与");
        bullets.append(clean[k + 1].as_str());
        bullets.append("存在关联\n");
        k = k + 1;
    }
    r.append(bullets.as_str());
    r
}

/// The answer to a question from its matched concepts: about the concept
/// when there is one; about the first path when there are several and a
/// path; a note that no link is known when there are several and no path;
/// else a note that nothing was found.
pub open spec fn human_answer_text(
    question: Seq<char>,
    matches: Seq<Seq<char>>,
    paths: Seq<Seq<Seq<char>>>,
    details: Seq<(Seq<char>, Seq<char>, u64)>,
    related: Seq<(Seq<char>, u64)>,
) -> Seq<char> {
    if matches.len() == 1 {
        single_concept_text(matches[0], related)
    } else if matches.len() >= 2 && paths.len() > 0 {
        multi_concept_text(matches, paths[0], details)
    } else if matches.len() >= 2 {
        "你提到了"@ + join(matches, "和"@)
            + "这两个概念。目前我还没有发现它们之间的直接关联。\n\n如果你能提供更多上下文，我可以更好地回答你的问题。"@
    } else {
        "我暂时没有找到与\""@ + question
            + "\"相关的信息。\n\n你可以使用 `./seed init \"概念名\"` 或 `./seed learn-file <文件>` 来帮助我学习新知识。"@
    }
}

/// The views of a sequence of paths.
pub open spec fn path_views(v: Seq<Vec<String>>) -> Seq<Seq<Seq<char>>> {
    v.map_values(|p: Vec<String>| views(p@))
}

/// The human-readable answer (see `human_answer_text`).
pub fn generate_human_answer(
    question: &str,
    brain: &Brain,
    matches: &[String],
    paths: &[Vec<String>],
    path_details: &[(String, String, u64)],
    related: &[(String, u64)],
) -> (r: String)
    requires
        matches@.len() >= 2 && paths@.len() > 0 && paths@[0]@.len() == 2 ==> path_details@.len() >= 1,
    ensures
        r@ == human_answer_text(question@, views(matches@), path_views(paths@), triple_views(path_details@), pair_views(related@)),
{
    if matches.len() == 1 {
        assert(views(matches@)[0] == matches@[0]@);
        generate_single_concept_answer(matches[0].as_str(), related)
    } else if matches.len() >= 2 && paths.len() > 0 {
        assert(path_views(paths@)[0] == views(paths@[0]@));
        generate_multi_concept_answer(matches, paths[0].as_slice(), path_details)
    } else if matches.len() >= 2 {
        let mut r = to_string("你提到了");
        let mut names: Vec<String> = Vec::new();
        let mut i: usize = 0;
        while i < matches.len()
            invariant
                i <= matches@.len(),
                views(names@) == views(matches@).take(i as int),
            decreases matches@.len() - i,
        {
            let ghost before = names@;
            let m = matches[i].clone();
            assert(m@ == matches@[i as int]@);
            names.push(m);
            assert(views(names@) =~= views(before).push(matches@[i as int]@));
            assert(views(matches@).take(i as int + 1) =~= views(matches@).take(i as int).push(matches@[i as int]@));
            i = i + 1;
        }
        assert(views(matches@).take(i as int) =~= views(matches@));
        let j = join_strings(&names, "和");
        r.append(j.as_str());
        r.append("这两个概念。目前我还没有发现它们之间的直接关联。\n\n如果你能提供更多上下文，我可以更好地回答你的问题。");
        r
    } else {
        let mut r = to_string("我暂时没有找到与\"");
        r.append(question);
        r.append("\"相关的信息。\n\n你可以使用 `./seed init \"概念名\"` 或 `./seed learn-file <文件>` 来帮助我学习新知识。");
        r
    }
}

// ---------------------------------------------------------------------------
// Refinement by the language model
// ---------------------------------------------------------------------------

/// The prompt asking the language model to restate an answer: a fixed
/// request followed by the answer's first 200 characters.
pub open spec fn refine_prompt_text(answer: Seq<char>) -> Seq<char> {
    "请用更自然的语言重述："@ + (if answer.len() < 200 { answer } else { answer.take(200) })
}

/// The prompt for refining `answer` (see `refine_prompt_text`).
pub fn refine_prompt(answer: &str) -> (r: String)
    ensures
        r@ == refine_prompt_text(answer@),
{
    let v = crate::text::chars_of(answer);
    let n: usize = if v.len() < 200 {
        v.len()
    } else {
        200
    };
    let head = crate::text::string_of_range(&v, 0, n);
    assert(v@.subrange(0, n as int) =~= (if answer@.len() < 200 { answer@ } else { answer@.take(200) }));
    let mut r = to_string("请用更自然的语言重述：");
    r.append(head.as_str());
    r
}

/// Which text to show after refinement: the refined text, unless it is
/// shorter than ten bytes, then the original answer.
pub open spec fn refined_choice(answer: Seq<char>, refined: Seq<char>) -> Seq<char> {
    if utf8_len(refined) < 10 {
        answer
    } else {
        refined
    }
}

/// Picks the refined text or the original answer (see `refined_choice`).
pub fn choose_refined(answer: &str, refined: String) -> (r: String)
    ensures
        r@ == refined_choice(answer@, refined@),
{
    if str_utf8_len_at_least(refined.as_str(), 10) {
        refined
    } else {
        to_string(answer)
    }
}

/// The length of the word that joins the source to the target in a
/// relation sentence of the given kind (是, 属于, 对, 具有, 与).
pub open spec fn connector_len(kind: RelationType) -> int {
    match kind {
        RelationType::PartOf => 2,
        RelationType::HasProperty => 2,
        _ => 1,
    }
}

/// A relation sentence names the source first, as its subject, and the
/// target right after the joining word; an "is a" sentence reads
/// "source 是 target 的一种。", the source being the kind of the target.
pub proof fn law_sentence_source_first(source: Seq<char>, target: Seq<char>, weight: u64, kind: RelationType)
    ensures
        sentence(source, target, weight, kind).len() >= source.len() + connector_len(kind) + target.len(),
        sentence(source, target, weight, kind).take(source.len() as int) == source,
        sentence(source, target, weight, kind).subrange(
            source.len() + connector_len(kind),
            source.len() + connector_len(kind) + target.len(),
        ) == target,
        kind == RelationType::IsA ==> {
            let t = sentence(source, target, weight, kind);
            &&& t.len() == source.len() + target.len() + 5
            &&& t[source.len() as int] == '是'
            &&& t.subrange(source.len() as int + 1 + target.len(), t.len() as int) == "的一种。"@
        },
{
    reveal_strlit("是");
    reveal_strlit("属于");
    reveal_strlit("对");
    reveal_strlit("具有");
    reveal_strlit("与");
    reveal_strlit("的一种。");
    let t = sentence(source, target, weight, kind);
    let c = connector_len(kind);
    let conn: Seq<char> = match kind {
        RelationType::IsA => "是"@,
        RelationType::PartOf => "属于"@,
        RelationType::Causes => "对"@,
        RelationType::HasProperty => "具有"@,
        _ => "与"@,
    };
    assert(conn.len() == c);
    let rest = t.skip(source.len() + c + target.len());
    assert(t =~= source + conn + target + rest);
    assert(t.take(source.len() as int) =~= source);
    assert(t.subrange(source.len() + c, source.len() + c + target.len()) =~= target);
    if kind == RelationType::IsA {
        assert(t.subrange(source.len() as int + 1 + target.len(), t.len() as int) =~= "的一种。"@);
    }
}

} // verus!
