//! Properties of tokenization.

use vstd::prelude::*;
use crate::nlp::{all_ascii_alphabetic, decode_code_points, keeps_token, segment_token, tokens_of};
use crate::text::{ascii_lower, spec_is_ascii_alphabetic, utf8_len};

verus! {

/// What a token of a segment is: not empty, not a stop word, at least two
/// bytes long when short segments are all dropped, and in lowercase when it
/// is made of ASCII letters.
pub open spec fn good_token(t: Seq<char>, stop: Set<Seq<char>>, any_short: bool) -> bool {
    &&& t.len() > 0
    &&& !stop.contains(t)
    &&& any_short ==> utf8_len(t) >= 2
    &&& all_ascii_alphabetic(t) ==> forall|i: int| 0 <= i < t.len() ==> 'a' <= #[trigger] t[i] && t[i] <= 'z'
}

proof fn lemma_segment_token(w: Seq<char>, stop: Set<Seq<char>>, any_short: bool)
    ensures
        segment_token(w, stop, any_short) matches Some(t) ==> good_token(t, stop, any_short),
{
    let t = crate::text::trim(w);
    if let Some(r) = segment_token(w, stop, any_short) {
        if all_ascii_alphabetic(t) {
            let l = ascii_lower(t);
            assert(r == l);
            assert(l.len() == t.len());
            if l.len() == 0 {
                assert(false);
            }
            assert forall|i: int| 0 <= i < l.len() implies 'a' <= #[trigger] l[i] && l[i] <= 'z' by {
                assert(spec_is_ascii_alphabetic(t[i]));
            }
        } else {
            assert(r == t);
        }
    }
}

/// Tokenization yields each token once, and every token is good: not
/// empty, not a stop word, at least two bytes long when short segments are
/// dropped, and lowercase when made of ASCII letters.
pub proof fn law_tokens_distinct_and_good(segs: Seq<Seq<char>>, stop: Set<Seq<char>>, any_short: bool)
    ensures
        forall|i: int, j: int| 0 <= i < j < tokens_of(segs, stop, any_short).len() ==>
            #[trigger] tokens_of(segs, stop, any_short)[i] != #[trigger] tokens_of(segs, stop, any_short)[j],
        forall|i: int| 0 <= i < tokens_of(segs, stop, any_short).len() ==> good_token(#[trigger] tokens_of(segs, stop, any_short)[i], stop, any_short),
    decreases segs.len(),
{
    if segs.len() > 0 {
        let d = segs.drop_last();
        law_tokens_distinct_and_good(d, stop, any_short);
        lemma_segment_token(segs.last(), stop, any_short);
        let p = tokens_of(d, stop, any_short);
        let q = tokens_of(segs, stop, any_short);
        if let Some(t) = segment_token(segs.last(), stop, any_short) {
            if !p.contains(t) {
                assert(q == p.push(t));
                assert forall|i: int, j: int| 0 <= i < j < q.len() implies #[trigger] q[i] != #[trigger] q[j] by {
                    if j == q.len() - 1 {
                        assert(q[i] == p[i]);
                        if q[i] == t {
                            assert(p.contains(t));
                        }
                    } else {
                        assert(q[i] == p[i] && q[j] == p[j]);
                    }
                }
                assert forall|i: int| 0 <= i < q.len() implies good_token(#[trigger] q[i], stop, any_short) by {
                    if i < p.len() {
                        assert(q[i] == p[i]);
                    }
                }
            }
        }
    }
}

/// Decoding the code points of a text gives the text back.
pub proof fn law_decode_encode(text: Seq<char>)
    ensures
        decode_code_points(text.map_values(|c: char| c as u32)) == text,
    decreases text.len(),
{
    if text.len() > 0 {
        let ids = text.map_values(|c: char| c as u32);
        law_decode_encode(text.drop_last());
        assert(ids.drop_last() =~= text.drop_last().map_values(|c: char| c as u32));
        let c = text.last();
        vstd::utf8::char_is_scalar(c);
        vstd::utf8::char_u32_cast(c, c as u32);
        assert(ids.last() == c as u32);
        assert(text.drop_last().push(c) =~= text);
    }
}

/// Filtering a list of tokens keeps no duplicates in when there were none.
pub proof fn lemma_filter_no_duplicates(s: Seq<Seq<char>>, f: spec_fn(Seq<char>) -> bool)
    requires
        s.no_duplicates(),
    ensures
        s.filter(f).no_duplicates(),
    decreases s.len(),
{
    reveal(Seq::filter);
    if s.len() > 0 {
        let d = s.drop_last();
        assert forall|i: int, j: int| 0 <= i < d.len() && 0 <= j < d.len() && i != j implies d[i] != d[j] by {
            assert(d[i] == s[i] && d[j] == s[j]);
        }
        lemma_filter_no_duplicates(d, f);
        let a = d.filter(f);
        if f(s.last()) {
            if a.contains(s.last()) {
                d.lemma_filter_contains_rev(f, s.last());
                let k = choose|k: int| 0 <= k < d.len() && d[k] == s.last();
                assert(s[k] == s[s.len() - 1]);
            }
            let b = a.push(s.last());
            assert forall|i: int, j: int| 0 <= i < b.len() && 0 <= j < b.len() && i != j implies b[i] != b[j] by {
                if i < a.len() && j < a.len() {
                    assert(b[i] == a[i] && b[j] == a[j]);
                } else if i < a.len() {
                    assert(b[i] == a[i]);
                    assert(a.contains(a[i]));
                } else {
                    assert(b[j] == a[j]);
                    assert(a.contains(a[j]));
                }
            }
        }
    }
}

/// Filtering tokens a second time removes nothing more.
pub proof fn law_filter_idempotent(tokens: Seq<Seq<char>>, stop: Set<Seq<char>>)
    ensures
        tokens.filter(|t: Seq<char>| keeps_token(t, stop)).filter(|t: Seq<char>| keeps_token(t, stop))
            == tokens.filter(|t: Seq<char>| keeps_token(t, stop)),
    decreases tokens.len(),
{
    reveal(Seq::filter);
    let f = |t: Seq<char>| keeps_token(t, stop);
    if tokens.len() > 0 {
        law_filter_idempotent(tokens.drop_last(), stop);
        let a = tokens.drop_last().filter(f);
        if f(tokens.last()) {
            let b = a.push(tokens.last());
            assert(b.drop_last() =~= a);
            assert(b.last() == tokens.last());
        }
    }
}

} // verus!
