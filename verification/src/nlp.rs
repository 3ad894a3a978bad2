//! Tokenization: Jieba word segmentation followed by normalisation, stop-word
//! filtering and de-duplication.

use vstd::prelude::*;
use vstd::hash_map::StringHashMap;
use crate::text::{
    all_whitespace, is_whitespace, spec_is_whitespace, starts_with_char, string_of_range, trim_start, ascii_lower, ascii_lower_char, chars_of, is_ascii_alphabetic,
    spec_is_ascii_alphabetic, string_of_chars, to_lowercase, lowercase, trim, trim_str, utf8_len,
    utf8_len_at_least, views,
};

verus! {

// ---------------------------------------------------------------------------
// Trusted calls into jieba-rs and stop-words
// ---------------------------------------------------------------------------

#[verifier::external_type_specification]
#[verifier::external_body]
pub struct ExJieba(jieba_rs::Jieba);

/// The words added to a Jieba dictionary on top of its built-in one, in the
/// order they were added.
pub uninterp spec fn jieba_added_words(j: jieba_rs::Jieba) -> Seq<Seq<char>>;

/// What `Jieba::cut(text, false)` returns for a Jieba built with the default
/// dictionary and then `added` words, in order.
pub uninterp spec fn jieba_segments(added: Seq<Seq<char>>, text: Seq<char>) -> Seq<Seq<char>>;

/// `Jieba::new()`: the built-in dictionary, no words added.
#[verifier::external_body]
fn jieba_new() -> (r: jieba_rs::Jieba)
    ensures
        jieba_added_words(r) == Seq::<Seq<char>>::empty(),
{
    jieba_rs::Jieba::new()
}

/// `Jieba::add_word(word, None, None)`: adds `word` to the dictionary.
#[verifier::external_body]
fn jieba_add_word(j: &mut jieba_rs::Jieba, word: &str)
    ensures
        jieba_added_words(*final(j)) == jieba_added_words(*old(j)).push(word@),
{
    j.add_word(word, None, None);
}

/// `Jieba::cut(text, false)`: the segments of `text`, named
/// `jieba_segments` of the added words and the text.
#[verifier::external_body]
fn jieba_cut(j: &jieba_rs::Jieba, text: &str) -> (r: Vec<String>)
    ensures
        views(r@) == jieba_segments(jieba_added_words(*j), text@),
{
    j.cut(text, false).into_iter().map(|w| w.to_string()).collect()
}

/// What `stop_words::get` returns for English (`true`) or Chinese (`false`).
pub uninterp spec fn stop_word_list(english: bool) -> Seq<Seq<char>>;

/// `stop_words::get(LANGUAGE::English)` or `stop_words::get(LANGUAGE::Chinese)`.
#[verifier::external_body]
fn stop_words_get(english: bool) -> (r: Vec<String>)
    ensures
        views(r@) == stop_word_list(english),
{
    if english {
        stop_words::get(stop_words::LANGUAGE::English)
    } else {
        stop_words::get(stop_words::LANGUAGE::Chinese)
    }
}

// ---------------------------------------------------------------------------
// Stop words
// ---------------------------------------------------------------------------

/// Common Chinese function words that are stop words besides the library's
/// lists.
pub open spec fn extra_stop_words() -> Seq<Seq<char>> {
    seq![
        "个"@, "一"@, "不"@, "也"@, "都"@, "就"@, "而"@, "及"@, "以"@, "对"@,
        "可"@, "能"@, "会"@, "被"@, "于"@, "从"@, "到"@, "把"@, "将"@, "为"@,
        "但"@, "却"@, "又"@, "如"@, "因"@, "所"@, "并"@, "其"@, "之"@, "来"@,
        "去"@, "上"@, "下"@, "中"@, "大"@, "小"@, "多"@, "少"@, "最"@, "更"@,
        "很"@, "太"@, "过"@, "要"@, "该"@, "它"@, "此"@, "则"@, "着"@, "过"@,
        "得"@, "地"@, "等"@, "当"@, "给"@, "让"@, "使"@, "比"@, "由"@, "出"@,
    ]
}

/// The stop words: the Chinese list, the English list lowercased, and the
/// extra Chinese words.
pub open spec fn stop_word_set() -> Set<Seq<char>> {
    stop_word_list(false).to_set()
        + stop_word_list(true).map_values(|w: Seq<char>| lowercase(w)).to_set()
        + extra_stop_words().to_set()
}

/// A set of stop words.
pub struct StopWords {
    set: StringHashMap<()>,
}

impl View for StopWords {
    type V = Set<Seq<char>>;

    closed spec fn view(&self) -> Set<Seq<char>> {
        self.set@.dom()
    }
}

impl StopWords {
    fn insert_all(&mut self, words: &Vec<String>, lower: bool)
        ensures
            final(self)@ == old(self)@ + (if lower {
                views(words@).map_values(|w: Seq<char>| lowercase(w))
            } else {
                views(words@)
            }).to_set(),
    {
        let ghost src = if lower {
            views(words@).map_values(|w: Seq<char>| lowercase(w))
        } else {
            views(words@)
        };
        let mut i: usize = 0;
        while i < words.len()
            invariant
                i <= words@.len(),
                src.len() == words@.len(),
                src == (if lower { views(words@).map_values(|w: Seq<char>| lowercase(w)) } else { views(words@) }),
                self@ == old(self)@ + src.take(i as int).to_set(),
            decreases words@.len() - i,
        {
            let w = if lower {
                to_lowercase(words[i].as_str())
            } else {
                words[i].clone()
            };
            assert(w@ == src[i as int]);
            let ghost before = self@;
            self.set.insert(w, ());
            proof {
                assert(src.take(i as int + 1) =~= src.take(i as int).push(src[i as int]));
                src.take(i as int).lemma_push_to_set_commute(src[i as int]);
                assert(self@ =~= before.insert(src[i as int]));
                assert(self@ =~= old(self)@ + src.take(i as int + 1).to_set());
            }
            i = i + 1;
        }
        assert(src.take(i as int) =~= src);
    }

    /// The stop words of `stop_word_set`.
    pub fn new() -> (r: StopWords)
        ensures
            r@ == stop_word_set(),
    {
        let mut s = StopWords { set: StringHashMap::new() };
        assert(s@ =~= Set::<Seq<char>>::empty());
        let zh = stop_words_get(false);
        s.insert_all(&zh, false);
        let en = stop_words_get(true);
        s.insert_all(&en, true);
        let extra: Vec<&str> = vec![
            "个", "一", "不", "也", "都", "就", "而", "及", "以", "对",
            "可", "能", "会", "被", "于", "从", "到", "把", "将", "为",
            "但", "却", "又", "如", "因", "所", "并", "其", "之", "来",
            "去", "上", "下", "中", "大", "小", "多", "少", "最", "更",
            "很", "太", "过", "要", "该", "它", "此", "则", "着", "过",
            "得", "地", "等", "当", "给", "让", "使", "比", "由", "出",
        ];
        let mut extra_words: Vec<String> = Vec::new();
        let mut i: usize = 0;
        while i < extra.len()
            invariant
                i <= extra@.len(),
                views(extra_words@) == extra@.take(i as int).map_values(|w: &str| w@),
            decreases extra@.len() - i,
        {
            let ghost before = extra_words@;
            let e = crate::text::to_string(extra[i]);
            extra_words.push(e);
            proof {
                assert(views(extra_words@) =~= views(before).push(extra@[i as int]@));
                assert(extra@.take(i as int + 1).map_values(|w: &str| w@)
                    =~= extra@.take(i as int).map_values(|w: &str| w@).push(extra@[i as int]@));
            }
            i = i + 1;
        }
        assert(extra@.take(i as int) =~= extra@);
        assert(extra@.map_values(|w: &str| w@) =~= extra_stop_words());
        s.insert_all(&extra_words, false);
        assert(s@ =~= stop_word_set());
        s
    }

    /// Whether `w` is a stop word.
    pub fn contains(&self, w: &str) -> (r: bool)
        ensures
            r == self@.contains(w@),
    {
        self.set.contains_key(w)
    }
}

/// The tokens kept by `filter_stop_words`: at least two bytes long and not a
/// stop word.
pub open spec fn keeps_token(t: Seq<char>, stop: Set<Seq<char>>) -> bool {
    utf8_len(t) >= 2 && !stop.contains(t)
}

/// `tokens` without stop words and without tokens shorter than two bytes.
pub fn filter_with(tokens: &[String], stop: &StopWords) -> (r: Vec<String>)
    ensures
        views(r@) == views(tokens@).filter(|t: Seq<char>| keeps_token(t, stop@)),
{
    let ghost f = |t: Seq<char>| keeps_token(t, stop@);
    let mut out: Vec<String> = Vec::new();
    let mut i: usize = 0;
    while i < tokens.len()
        invariant
            i <= tokens@.len(),
            f == (|t: Seq<char>| keeps_token(t, stop@)),
            views(out@) == views(tokens@).take(i as int).filter(f),
        decreases tokens@.len() - i,
    {
        proof {
            reveal_with_fuel(Seq::<_>::filter, 1);
            assert(views(tokens@).take(i as int + 1).drop_last() =~= views(tokens@).take(i as int));
        }
        let t = &tokens[i];
        let tv = chars_of(t.as_str());
        if utf8_len_at_least(&tv, 2) && !stop.contains(t.as_str()) {
            out.push(t.clone());
            assert(views(out@) =~= views(tokens@).take(i as int).filter(f).push(t@));
        }
        i = i + 1;
    }
    assert(views(tokens@).take(i as int) =~= views(tokens@));
    out
}

/// Filters stop words (and tokens shorter than two bytes) out of `tokens`.
pub fn filter_stop_words(tokens: &[String]) -> (r: Vec<String>)
    ensures
        views(r@) == views(tokens@).filter(|t: Seq<char>| keeps_token(t, stop_word_set())),
{
    let stop = StopWords::new();
    filter_with(tokens, &stop)
}

// ---------------------------------------------------------------------------
// From segments to tokens
// ---------------------------------------------------------------------------

/// Whether every character is an ASCII letter.
pub open spec fn all_ascii_alphabetic(s: Seq<char>) -> bool {
    forall|i: int| 0 <= i < s.len() ==> spec_is_ascii_alphabetic(#[trigger] s[i])
}

/// The token a segment yields, if any.  The segment is trimmed; empty
/// segments and stop words yield nothing.  When `any_short`, so do segments
/// shorter than two bytes; otherwise short segments are kept (a single
/// ideograph, three bytes long, is always kept).  Words of ASCII letters are
/// lowercased and must still be two bytes long and not stop words.
pub open spec fn segment_token(w: Seq<char>, stop: Set<Seq<char>>, any_short: bool) -> Option<Seq<char>> {
    let t = trim(w);
    if t.len() == 0 {
        None
    } else if any_short && utf8_len(t) < 2 {
        None
    } else if stop.contains(t) {
        None
    } else if all_ascii_alphabetic(t) {
        let l = ascii_lower(t);
        if utf8_len(l) < 2 || stop.contains(l) {
            None
        } else {
            Some(l)
        }
    } else {
        Some(t)
    }
}

/// The tokens of a sequence of segments: the tokens they yield, each kept
/// only the first time it occurs.
pub open spec fn tokens_of(segs: Seq<Seq<char>>, stop: Set<Seq<char>>, any_short: bool) -> Seq<Seq<char>>
    decreases segs.len(),
{
    if segs.len() == 0 {
        Seq::empty()
    } else {
        let p = tokens_of(segs.drop_last(), stop, any_short);
        match segment_token(segs.last(), stop, any_short) {
            Some(t) => if p.contains(t) {
                p
            } else {
                p.push(t)
            },
            None => p,
        }
    }
}

fn all_ascii_alpha_chars(v: &Vec<char>) -> (r: bool)
    ensures
        r == all_ascii_alphabetic(v@),
{
    let mut i: usize = 0;
    while i < v.len()
        invariant
            i <= v.len(),
            forall|k: int| 0 <= k < i ==> spec_is_ascii_alphabetic(#[trigger] v@[k]),
        decreases v.len() - i,
    {
        if !is_ascii_alphabetic(v[i]) {
            return false;
        }
        i = i + 1;
    }
    true
}

fn ascii_lower_chars(v: &Vec<char>) -> (r: Vec<char>)
    ensures
        r@ == ascii_lower(v@),
{
    let mut r: Vec<char> = Vec::new();
    let mut i: usize = 0;
    while i < v.len()
        invariant
            i <= v.len(),
            r@ == ascii_lower(v@.take(i as int)),
        decreases v.len() - i,
    {
        r.push(ascii_lower_char(v[i]));
        assert(r@ =~= ascii_lower(v@.take(i as int + 1)));
        i = i + 1;
    }
    assert(v@.take(i as int) =~= v@);
    r
}

/// The token one segment yields (see `segment_token`).
fn token_of_segment(w: &str, stop: &StopWords, any_short: bool) -> (r: Option<String>)
    ensures
        match r {
            Some(t) => segment_token(w@, stop@, any_short) == Some(t@),
            None => segment_token(w@, stop@, any_short) is None,
        },
{
    let t = trim_str(w);
    let tv = chars_of(t.as_str());
    if tv.len() == 0 {
        return None;
    }
    if any_short && !utf8_len_at_least(&tv, 2) {
        return None;
    }
    if stop.contains(t.as_str()) {
        return None;
    }
    if all_ascii_alpha_chars(&tv) {
        let lv = ascii_lower_chars(&tv);
        let l = string_of_chars(&lv);
        if !utf8_len_at_least(&lv, 2) || stop.contains(l.as_str()) {
            None
        } else {
            Some(l)
        }
    } else {
        Some(t)
    }
}

/// The tokens of `segments` (see `tokens_of`).
pub fn tokens_from_segments(segments: &Vec<String>, stop: &StopWords, any_short: bool) -> (r: Vec<String>)
    ensures
        views(r@) == tokens_of(views(segments@), stop@, any_short),
{
    let ghost segs = views(segments@);
    let mut out: Vec<String> = Vec::new();
    let mut i: usize = 0;
    while i < segments.len()
        invariant
            i <= segments@.len(),
            segs == views(segments@),
            views(out@) == tokens_of(segs.take(i as int), stop@, any_short),
        decreases segments@.len() - i,
    {
        proof {
            assert(segs.take(i as int + 1).drop_last() =~= segs.take(i as int));
            assert(segs.take(i as int + 1).last() == segments@[i as int]@);
        }
        match token_of_segment(segments[i].as_str(), stop, any_short) {
            Some(t) => {
                if !crate::text::contains_string(&out, t.as_str()) {
                    let ghost before = out@;
                    out.push(t);
                    assert(views(out@) =~= views(before).push(t@));
                }
            },
            None => {},
        }
        i = i + 1;
    }
    assert(segs.take(i as int) =~= segs);
    out
}

// ---------------------------------------------------------------------------
// Custom dictionary files
// ---------------------------------------------------------------------------

/// The first word of `s` when it does not start with whitespace: its
/// characters up to the first whitespace.
pub open spec fn leading_word(s: Seq<char>) -> Seq<char>
    decreases s.len(),
{
    if s.len() == 0 || spec_is_whitespace(s[0]) {
        Seq::empty()
    } else {
        seq![s[0]] + leading_word(s.drop_first())
    }
}

/// The first whitespace-separated word of a line, empty if there is none
/// (`line.split_whitespace().next().unwrap_or("")`).
pub open spec fn first_word(line: Seq<char>) -> Seq<char> {
    leading_word(trim_start(line))
}

/// `s` split at every newline: one piece more than there are newlines.
pub open spec fn newline_pieces(s: Seq<char>) -> Seq<Seq<char>>
    decreases s.len(),
{
    if s.len() == 0 {
        seq![Seq::empty()]
    } else {
        let p = newline_pieces(s.drop_last());
        if s.last() == '\n' {
            p.push(Seq::empty())
        } else {
            p.update(p.len() - 1, p.last().push(s.last()))
        }
    }
}

/// Whether a dictionary line's first word is an entry: not empty and not a
/// `#` comment.
pub open spec fn is_dict_entry(w: Seq<char>) -> bool {
    w.len() > 0 && w[0] != '#'
}

/// The words a custom dictionary file adds: the first word of each line,
/// skipping lines without one and lines whose first word starts with `#`.
/// (A line's trailing carriage return is whitespace, so splitting at `\n`
/// alone gives the same words as `str::lines`.)
pub open spec fn dict_entries(content: Seq<char>) -> Seq<Seq<char>> {
    newline_pieces(content).map_values(|l: Seq<char>| first_word(l)).filter(|w: Seq<char>| is_dict_entry(w))
}

proof fn lemma_newline_pieces_len(s: Seq<char>)
    ensures
        newline_pieces(s).len() >= 1,
    decreases s.len(),
{
    if s.len() > 0 {
        lemma_newline_pieces_len(s.drop_last());
    }
}

/// The first word of the piece `v[lo..hi]`.
fn first_word_in(v: &Vec<char>, lo: usize, hi: usize) -> (r: String)
    requires
        lo <= hi <= v.len(),
    ensures
        r@ == first_word(v@.subrange(lo as int, hi as int)),
{
    let mut j: usize = lo;
    while j < hi && is_whitespace(v[j])
        invariant
            lo <= j <= hi <= v.len(),
            trim_start(v@.subrange(lo as int, hi as int)) == trim_start(v@.subrange(j as int, hi as int)),
        decreases hi - j,
    {
        assert(v@.subrange(j as int, hi as int).drop_first() =~= v@.subrange(j as int + 1, hi as int));
        j = j + 1;
    }
    assert(trim_start(v@.subrange(j as int, hi as int)) == v@.subrange(j as int, hi as int));
    let mut k: usize = j;
    while k < hi && !is_whitespace(v[k])
        invariant
            j <= k <= hi <= v.len(),
            leading_word(v@.subrange(j as int, hi as int))
                == v@.subrange(j as int, k as int) + leading_word(v@.subrange(k as int, hi as int)),
        decreases hi - k,
    {
        assert(v@.subrange(k as int, hi as int).drop_first() =~= v@.subrange(k as int + 1, hi as int));
        assert(v@.subrange(j as int, k as int + 1) =~= v@.subrange(j as int, k as int) + seq![v@[k as int]]);
        k = k + 1;
    }
    assert(leading_word(v@.subrange(k as int, hi as int)) =~= Seq::<char>::empty());
    assert(v@.subrange(j as int, k as int) + Seq::<char>::empty() =~= v@.subrange(j as int, k as int));
    string_of_range(v, j, k)
}

/// The entries of a custom dictionary file's `content` (see `dict_entries`).
pub fn custom_dict_words(content: &str) -> (r: Vec<String>)
    ensures
        views(r@) == dict_entries(content@),
{
    let v = chars_of(content);
    let ghost f = |l: Seq<char>| first_word(l);
    let ghost keep = |w: Seq<char>| is_dict_entry(w);
    let mut out: Vec<String> = Vec::new();
    let mut start: usize = 0;
    let mut i: usize = 0;
    while i < v.len()
        invariant
            start <= i <= v.len(),
            v@ == content@,
            f == (|l: Seq<char>| first_word(l)),
            keep == (|w: Seq<char>| is_dict_entry(w)),
            newline_pieces(v@.take(i as int)).len() >= 1,
            newline_pieces(v@.take(i as int)).last() == v@.subrange(start as int, i as int),
            views(out@) == newline_pieces(v@.take(i as int)).drop_last().map_values(f).filter(keep),
        decreases v.len() - i,
    {
        let ghost p = newline_pieces(v@.take(i as int));
        assert(v@.take(i as int + 1).drop_last() =~= v@.take(i as int));
        assert(v@.take(i as int + 1).last() == v@[i as int]);
        if v[i] == '\n' {
            let w = first_word_in(&v, start, i);
            proof {
                reveal_with_fuel(Seq::<_>::filter, 1);
                assert(newline_pieces(v@.take(i as int + 1)) == p.push(Seq::empty()));
                assert(newline_pieces(v@.take(i as int + 1)).drop_last() =~= p);
                assert(p.map_values(f) =~= p.drop_last().map_values(f).push(f(p.last())));
                assert(p.map_values(f).drop_last() =~= p.drop_last().map_values(f));
            }
            if !w.as_str().is_empty() && !starts_with_char(w.as_str(), '#') {
                let ghost before = out@;
                proof {
                    assert(w@[0] != '#');
                }
                out.push(w);
                assert(views(out@) =~= views(before).push(f(p.last())));
            }
            start = i + 1;
            proof {
                assert(v@.subrange(start as int, i as int + 1) =~= Seq::<char>::empty());
            }
        } else {
            proof {
                let q = p.update(p.len() - 1, p.last().push(v@[i as int]));
                assert(newline_pieces(v@.take(i as int + 1)) == q);
                assert(q.drop_last() =~= p.drop_last());
                assert(v@.subrange(start as int, i as int + 1) =~= v@.subrange(start as int, i as int).push(v@[i as int]));
            }
        }
        i = i + 1;
    }
    let ghost p = newline_pieces(v@.take(i as int));
    let w = first_word_in(&v, start, i);
    proof {
        reveal_with_fuel(Seq::<_>::filter, 1);
        assert(v@.take(i as int) =~= v@);
        assert(p.map_values(f).drop_last() =~= p.drop_last().map_values(f));
        assert(p.map_values(f) =~= p.drop_last().map_values(f).push(f(p.last())));
    }
    if !w.as_str().is_empty() && !starts_with_char(w.as_str(), '#') {
        let ghost before = out@;
        out.push(w);
        assert(views(out@) =~= views(before).push(f(p.last())));
    }
    out
}

// ---------------------------------------------------------------------------
// Tokenizers
// ---------------------------------------------------------------------------

/// A Jieba segmenter together with the stop words.
pub struct TokenizerWrapper {
    jieba: jieba_rs::Jieba,
    stop: StopWords,
}

impl TokenizerWrapper {
    /// The words added to the built-in dictionary.
    pub closed spec fn added_words(&self) -> Seq<Seq<char>> {
        jieba_added_words(self.jieba)
    }

    /// The stop words in use.
    pub closed spec fn stop_set(&self) -> Set<Seq<char>> {
        self.stop@
    }

    /// A tokenizer with Jieba's built-in dictionary.
    pub fn new() -> (r: TokenizerWrapper)
        ensures
            r.added_words() == Seq::<Seq<char>>::empty(),
            r.stop_set() == stop_word_set(),
    {
        TokenizerWrapper { jieba: jieba_new(), stop: StopWords::new() }
    }

    /// A tokenizer whose dictionary also holds `words`.
    pub fn with_custom_words(words: &Vec<String>) -> (r: TokenizerWrapper)
        ensures
            r.added_words() == views(words@),
            r.stop_set() == stop_word_set(),
    {
        let mut t = TokenizerWrapper::new();
        let mut i: usize = 0;
        while i < words.len()
            invariant
                i <= words@.len(),
                t.added_words() == views(words@).take(i as int),
                t.stop_set() == stop_word_set(),
            decreases words@.len() - i,
        {
            jieba_add_word(&mut t.jieba, words[i].as_str());
            assert(t.added_words() =~= views(words@).take(i as int + 1));
            i = i + 1;
        }
        assert(views(words@).take(i as int) =~= views(words@));
        t
    }

    /// A tokenizer whose dictionary also holds the entries of a custom
    /// dictionary file's `content`.
    pub fn with_custom_dict(content: &str) -> (r: TokenizerWrapper)
        ensures
            r.added_words() == dict_entries(content@),
            r.stop_set() == stop_word_set(),
    {
        let words = custom_dict_words(content);
        TokenizerWrapper::with_custom_words(&words)
    }

    /// The tokens of `text`: its Jieba segments trimmed, without stop words
    /// or empty pieces (single ideographs are kept), ASCII words lowercased
    /// and at least two bytes long, each token once in order of first
    /// occurrence.
    pub fn tokenize(&self, text: &str) -> (r: Vec<String>)
        ensures
            text@.len() == 0 ==> r@.len() == 0,
            text@.len() > 0 ==> views(r@) == tokens_of(jieba_segments(self.added_words(), text@), self.stop_set(), false),
    {
        if text.is_empty() {
            return Vec::new();
        }
        let segments = jieba_cut(&self.jieba, text);
        tokens_from_segments(&segments, &self.stop, false)
    }

    /// Same as `tokenize` (which already filters stop words).
    pub fn tokenize_filtered(&self, text: &str) -> (r: Vec<String>)
        ensures
            text@.len() == 0 ==> r@.len() == 0,
            text@.len() > 0 ==> views(r@) == tokens_of(jieba_segments(self.added_words(), text@), self.stop_set(), false),
    {
        self.tokenize(text)
    }

    /// The code points of `text` (character-level model input).
    pub fn encode(&self, text: &str) -> (r: Vec<u32>)
        ensures
            r@ == text@.map_values(|c: char| c as u32),
    {
        let v = chars_of(text);
        let mut out: Vec<u32> = Vec::new();
        let mut i: usize = 0;
        while i < v.len()
            invariant
                i <= v.len(),
                out@ == v@.take(i as int).map_values(|c: char| c as u32),
            decreases v.len() - i,
        {
            out.push(v[i] as u32);
            assert(out@ =~= v@.take(i as int + 1).map_values(|c: char| c as u32));
            i = i + 1;
        }
        assert(v@.take(i as int) =~= v@);
        out
    }

    /// The text of the code points in `ids`, skipping values that are not
    /// characters.
    pub fn decode(&self, ids: &[u32]) -> (r: String)
        ensures
            r@ == decode_code_points(ids@),
    {
        let mut out = String::new();
        let mut i: usize = 0;
        while i < ids.len()
            invariant
                i <= ids@.len(),
                out@ == decode_code_points(ids@.take(i as int)),
            decreases ids@.len() - i,
        {
            proof {
                assert(ids@.take(i as int + 1).drop_last() =~= ids@.take(i as int));
            }
            match char_from_u32(ids[i]) {
                Some(c) => crate::text::push_char(&mut out, c),
                None => {},
            }
            i = i + 1;
        }
        assert(ids@.take(i as int) =~= ids@);
        out
    }
}

impl Default for TokenizerWrapper {
    fn default() -> (r: TokenizerWrapper)
        ensures
            r.added_words() == Seq::<Seq<char>>::empty(),
            r.stop_set() == stop_word_set(),
    {
        TokenizerWrapper::new()
    }
}

/// Whether `u` is a Unicode scalar value (what `char::from_u32` accepts).
pub open spec fn is_scalar_value(u: u32) -> bool {
    u < 0xD800 || (0xE000 <= u && u <= 0x10FFFF)
}

/// The characters of the code points in `ids`, skipping non-characters.
pub open spec fn decode_code_points(ids: Seq<u32>) -> Seq<char>
    decreases ids.len(),
{
    if ids.len() == 0 {
        Seq::empty()
    } else if is_scalar_value(ids.last()) {
        decode_code_points(ids.drop_last()).push(ids.last() as char)
    } else {
        decode_code_points(ids.drop_last())
    }
}

/// `char::from_u32`: the character with code point `u`, when `u` is neither
/// a surrogate nor above U+10FFFF.
#[verifier::external_body]
fn char_from_u32(u: u32) -> (r: Option<char>)
    ensures
        r == (if is_scalar_value(u) { Some(u as char) } else { None }),
{
    char::from_u32(u)
}

/// Word-level tokenization with a fresh Jieba (built-in dictionary): segments
/// trimmed, pieces shorter than two bytes and stop words dropped, ASCII words
/// lowercased, each token once in order of first occurrence.
pub fn simple_tokenize(text: &str) -> (r: Vec<String>)
    ensures
        text@.len() == 0 ==> r@.len() == 0,
        text@.len() > 0 ==> views(r@) == tokens_of(jieba_segments(Seq::empty(), text@), stop_word_set(), true),
{
    if text.is_empty() {
        return Vec::new();
    }
    let jieba = jieba_new();
    let segments = jieba_cut(&jieba, text);
    let stop = StopWords::new();
    tokens_from_segments(&segments, &stop, true)
}

/// The same as `simple_tokenize`.
pub fn tokenize(text: &str) -> (r: Vec<String>)
    ensures
        text@.len() == 0 ==> r@.len() == 0,
        text@.len() > 0 ==> views(r@) == tokens_of(jieba_segments(Seq::empty(), text@), stop_word_set(), true),
{
    simple_tokenize(text)
}

/// A tokenizer with the built-in dictionary.
pub fn get_tokenizer() -> (r: TokenizerWrapper)
    ensures
        r.added_words() == Seq::<Seq<char>>::empty(),
        r.stop_set() == stop_word_set(),
{
    TokenizerWrapper::new()
}

} // verus!
