//! Web search for learning: request URLs for Wikipedia and DuckDuckGo, and
//! the search results made of their answers.

use vstd::prelude::*;
use vstd::string::*;
use crate::brain::opt_view;
use crate::text::{byte_len, chars_of, join, join_strings, occurs_at, str_eq, str_utf8_len_at_least, string_of_range, to_string, utf8_len, views};

verus! {

/// A search result.
#[derive(Debug, Clone)]
pub struct SearchResult {
    pub title: String,
    pub snippet: String,
    pub url: String,
    pub source: String,
}

/// The view of a search result: title, snippet, url, source.
pub open spec fn result_view(r: SearchResult) -> (Seq<char>, Seq<char>, Seq<char>, Seq<char>) {
    (r.title@, r.snippet@, r.url@, r.source@)
}

/// The text a concept is learned from: each result as "title: snippet",
/// joined by spaces.
pub open spec fn results_text_view(rs: Seq<SearchResult>) -> Seq<char> {
    join(rs.map_values(|r: SearchResult| r.title@ + ": "@ + r.snippet@), " "@)
}

/// The text learned from search results (see `results_text_view`).
pub fn results_text(results: &Vec<SearchResult>) -> (r: String)
    ensures
        r@ == results_text_view(results@),
{
    let mut parts: Vec<String> = Vec::new();
    let mut i: usize = 0;
    while i < results.len()
        invariant
            i <= results@.len(),
            views(parts@) == results@.take(i as int).map_values(|r: SearchResult| r.title@ + ": "@ + r.snippet@),
        decreases results@.len() - i,
    {
        let mut p = results[i].title.clone();
        p.append(": ");
        p.append(results[i].snippet.as_str());
        let ghost before = parts@;
        parts.push(p);
        assert(views(parts@) =~= views(before).push(p@));
        assert(views(parts@) =~= results@.take(i as int + 1).map_values(|r: SearchResult| r.title@ + ": "@ + r.snippet@));
        i = i + 1;
    }
    assert(results@.take(i as int) =~= results@);
    join_strings(&parts, " ")
}

// ---------------------------------------------------------------------------
// URL encoding
// ---------------------------------------------------------------------------

/// Characters left as they are in a URL: ASCII letters and digits, `-`,
/// `_`, `.` and `~`.
pub open spec fn unreserved(c: char) -> bool {
    ('A' <= c && c <= 'Z') || ('a' <= c && c <= 'z') || ('0' <= c && c <= '9') || c == '-' || c == '_'
        || c == '.' || c == '~'
}

/// The UTF-8 encoding of a character.
pub open spec fn utf8_bytes(c: char) -> Seq<u8> {
    let u = c as u32;
    if u < 0x80 {
        seq![u as u8]
    } else if u < 0x800 {
        seq![(0xC0 + u / 64) as u8, (0x80 + u % 64) as u8]
    } else if u < 0x10000 {
        seq![(0xE0 + u / 4096) as u8, (0x80 + (u / 64) % 64) as u8, (0x80 + u % 64) as u8]
    } else {
        seq![(0xF0 + u / 262144) as u8, (0x80 + (u / 4096) % 64) as u8, (0x80 + (u / 64) % 64) as u8, (0x80 + u % 64) as u8]
    }
}

/// The uppercase hexadecimal digits.
pub open spec fn upper_hex_digits() -> Seq<char> {
    seq!['0', '1', '2', '3', '4', '5', '6', '7', '8', '9', 'A', 'B', 'C', 'D', 'E', 'F']
}

/// Bytes as `%XX` escapes with uppercase hexadecimal digits.
pub open spec fn percent_escapes(bytes: Seq<u8>) -> Seq<char>
    decreases bytes.len(),
{
    if bytes.len() == 0 {
        Seq::empty()
    } else {
        let b = bytes.last();
        percent_escapes(bytes.drop_last()) + seq!['%', upper_hex_digits()[(b / 16) as int], upper_hex_digits()[(b % 16) as int]]
    }
}

/// `s` encoded for a URL: unreserved characters kept, every other
/// character replaced by the `%XX` escapes of its UTF-8 bytes.
pub open spec fn url_encoded(s: Seq<char>) -> Seq<char>
    decreases s.len(),
{
    if s.len() == 0 {
        Seq::empty()
    } else {
        let c = s.last();
        url_encoded(s.drop_last()) + if unreserved(c) { seq![c] } else { percent_escapes(utf8_bytes(c)) }
    }
}

fn utf8_of(c: char) -> (r: Vec<u8>)
    ensures
        r@ == utf8_bytes(c),
{
    let u = c as u32;
    let mut r: Vec<u8> = Vec::new();
    if u < 0x80 {
        r.push(u as u8);
    } else if u < 0x800 {
        r.push((0xC0 + u / 64) as u8);
        r.push((0x80 + u % 64) as u8);
    } else if u < 0x10000 {
        r.push((0xE0 + u / 4096) as u8);
        r.push((0x80 + (u / 64) % 64) as u8);
        r.push((0x80 + u % 64) as u8);
    } else {
        r.push((0xF0 + u / 262144) as u8);
        r.push((0x80 + (u / 4096) % 64) as u8);
        r.push((0x80 + (u / 64) % 64) as u8);
        r.push((0x80 + u % 64) as u8);
    }
    assert(r@ =~= utf8_bytes(c));
    r
}

/// `s` encoded for a URL (see `url_encoded`).
pub fn url_encode(s: &str) -> (r: String)
    ensures
        r@ == url_encoded(s@),
{
    let digits: Vec<char> = vec!['0', '1', '2', '3', '4', '5', '6', '7', '8', '9', 'A', 'B', 'C', 'D', 'E', 'F'];
    assert(digits@ =~= upper_hex_digits());
    let v = chars_of(s);
    let mut out = String::new();
    let mut i: usize = 0;
    while i < v.len()
        invariant
            i <= v.len(),
            digits@ == upper_hex_digits(),
            out@ == url_encoded(v@.take(i as int)),
        decreases v.len() - i,
    {
        assert(v@.take(i as int + 1).drop_last() =~= v@.take(i as int));
        let c = v[i];
        if ('A' <= c && c <= 'Z') || ('a' <= c && c <= 'z') || ('0' <= c && c <= '9') || c == '-' || c == '_'
            || c == '.' || c == '~' {
            crate::text::push_char(&mut out, c);
            assert(out@ =~= url_encoded(v@.take(i as int + 1)));
        } else {
            let bytes = utf8_of(c);
            let ghost base = out@;
            let mut k: usize = 0;
            while k < bytes.len()
                invariant
                    k <= bytes@.len(),
                    digits@ == upper_hex_digits(),
                    out@ == base + percent_escapes(bytes@.take(k as int)),
                decreases bytes@.len() - k,
            {
                assert(bytes@.take(k as int + 1).drop_last() =~= bytes@.take(k as int));
                let b = bytes[k];
                crate::text::push_char(&mut out, '%');
                crate::text::push_char(&mut out, digits[(b / 16) as usize]);
                crate::text::push_char(&mut out, digits[(b % 16) as usize]);
                assert(out@ =~= base + percent_escapes(bytes@.take(k as int + 1)));
                k = k + 1;
            }
            assert(bytes@.take(k as int) =~= bytes@);
            assert(out@ =~= url_encoded(v@.take(i as int + 1)));
        }
        i = i + 1;
    }
    assert(v@.take(i as int) =~= v@);
    out
}

// ---------------------------------------------------------------------------
// Wikipedia
// ---------------------------------------------------------------------------

/// The summary endpoint of the Wikipedia of language `lang` for `query`.
pub open spec fn wikipedia_summary_url_text(query: Seq<char>, lang: Seq<char>) -> Seq<char> {
    "https://"@ + lang + ".wikipedia.org/api/rest_v1/page/summary/"@ + url_encoded(query)
}

/// The summary endpoint for `query` (see `wikipedia_summary_url_text`).
pub fn wikipedia_summary_url(query: &str, lang: &str) -> (r: String)
    ensures
        r@ == wikipedia_summary_url_text(query@, lang@),
{
    let mut r = to_string("https://");
    r.append(lang);
    r.append(".wikipedia.org/api/rest_v1/page/summary/");
    let e = url_encode(query);
    r.append(e.as_str());
    r
}

/// The article address of `query` on the Wikipedia of language `lang`.
pub open spec fn wikipedia_page_url_text(query: Seq<char>, lang: Seq<char>) -> Seq<char> {
    "https://"@ + lang + ".wikipedia.org/wiki/"@ + url_encoded(query)
}

/// The fields of a Wikipedia page summary that a search uses.
pub struct WikiSummary {
    pub page_type: Option<String>,
    pub extract: Option<String>,
    pub title: Option<String>,
    /// The desktop page address, when given.
    pub page_url: Option<String>,
}

/// The search result of a page summary: none without an extract or for a
/// disambiguation page whose extract is shorter than 20 bytes; otherwise the
/// page's title (or the query), its extract, its address (or the article
/// address of the query), from "wikipedia".
pub open spec fn wiki_result_view(
    query: Seq<char>,
    lang: Seq<char>,
    page_type: Option<Seq<char>>,
    extract: Option<Seq<char>>,
    title: Option<Seq<char>>,
    page_url: Option<Seq<char>>,
) -> Option<(Seq<char>, Seq<char>, Seq<char>, Seq<char>)> {
    match extract {
        None => None,
        Some(x) => if utf8_len(x) < 20 && page_type == Some("disambiguation"@) {
            None
        } else {
            Some((
                match title {
                    Some(t) => t,
                    None => query,
                },
                x,
                match page_url {
                    Some(u) => u,
                    None => wikipedia_page_url_text(query, lang),
                },
                "wikipedia"@,
            ))
        },
    }
}

/// The search result of a Wikipedia page summary (see `wiki_result_view`).
pub fn wiki_result(query: &str, lang: &str, data: WikiSummary) -> (r: Option<SearchResult>)
    ensures
        match r {
            Some(res) => wiki_result_view(query@, lang@, opt_view(data.page_type), opt_view(data.extract), opt_view(data.title), opt_view(data.page_url)) == Some(result_view(res)),
            None => wiki_result_view(query@, lang@, opt_view(data.page_type), opt_view(data.extract), opt_view(data.title), opt_view(data.page_url)) is None,
        },
{
    let extract = match data.extract {
        Some(x) => x,
        None => return None,
    };
    let disambiguation = match &data.page_type {
        Some(t) => str_eq(t.as_str(), "disambiguation"),
        None => false,
    };
    if !str_utf8_len_at_least(extract.as_str(), 20) && disambiguation {
        return None;
    }
    let title = match data.title {
        Some(t) => t,
        None => to_string(query),
    };
    let url = match data.page_url {
        Some(u) => u,
        None => {
            let mut u = to_string("https://");
            u.append(lang);
            u.append(".wikipedia.org/wiki/");
            let e = url_encode(query);
            u.append(e.as_str());
            u
        },
    };
    Some(SearchResult { title, snippet: extract, url, source: to_string("wikipedia") })
}

// ---------------------------------------------------------------------------
// DuckDuckGo
// ---------------------------------------------------------------------------

/// The Instant Answer endpoint of DuckDuckGo for `query`.
pub open spec fn duckduckgo_url_text(query: Seq<char>) -> Seq<char> {
    "https://api.duckduckgo.com/?q="@ + url_encoded(query) + "&format=json&no_html=1"@
}

/// The Instant Answer endpoint for `query` (see `duckduckgo_url_text`).
pub fn duckduckgo_url(query: &str) -> (r: String)
    ensures
        r@ == duckduckgo_url_text(query@),
{
    let mut r = to_string("https://api.duckduckgo.com/?q=");
    let e = url_encode(query);
    r.append(e.as_str());
    r.append("&format=json&no_html=1");
    r
}

/// A related topic of an Instant Answer.
pub struct RelatedTopic {
    pub text: Option<String>,
    pub first_url: Option<String>,
}

/// The fields of an Instant Answer that a search uses.
pub struct InstantAnswer {
    pub abstract_text: Option<String>,
    pub abstract_url: Option<String>,
    pub heading: Option<String>,
    pub related_topics: Vec<RelatedTopic>,
}

/// The first position at or after `from` where `needle` occurs in `hay`.
pub open spec fn first_occurrence(hay: Seq<char>, needle: Seq<char>, from: int) -> Option<int>
    decreases hay.len() - from,
{
    if from < 0 || from >= hay.len() || from + needle.len() > hay.len() {
        None
    } else if occurs_at(hay, needle, from) {
        Some(from)
    } else {
        first_occurrence(hay, needle, from + 1)
    }
}

/// The text before the first " - " (all of it when there is none).
pub open spec fn topic_title(text: Seq<char>) -> Seq<char> {
    match first_occurrence(text, " - "@, 0) {
        Some(i) => text.take(i),
        None => text,
    }
}

fn topic_title_of(text: &str) -> (r: String)
    ensures
        r@ == topic_title(text@),
{
    let v = chars_of(text);
    let sep = chars_of(" - ");
    proof {
        reveal_strlit(" - ");
    }
    assert(sep@.len() == 3);
    if v.len() < 3 {
        assert(first_occurrence(v@, sep@, 0) is None);
        let r = string_of_range(&v, 0, v.len());
        assert(v@.subrange(0, v@.len() as int) =~= v@);
        return r;
    }
    let mut i: usize = 0;
    while i <= v.len() - 3
        invariant
            sep@ == " - "@,
            sep@.len() == 3,
            v@ == text@,
            v@.len() >= 3,
            i <= v@.len() - 2,
            first_occurrence(v@, sep@, 0) == first_occurrence(v@, sep@, i as int),
        decreases v@.len() - i,
    {
        if v[i] == sep[0] && v[i + 1] == sep[1] && v[i + 2] == sep[2] {
            assert(v@.subrange(i as int, i + 3) =~= sep@);
            assert(first_occurrence(v@, sep@, i as int) == Some(i as int));
            let r = string_of_range(&v, 0, i);
            assert(v@.subrange(0, i as int) =~= v@.take(i as int));
            return r;
        }
        assert(!occurs_at(v@, sep@, i as int)) by {
            if occurs_at(v@, sep@, i as int) {
                assert(v@.subrange(i as int, i + 3)[0] == sep@[0]);
                assert(v@.subrange(i as int, i + 3)[1] == sep@[1]);
                assert(v@.subrange(i as int, i + 3)[2] == sep@[2]);
            }
        }
        i = i + 1;
    }
    assert(first_occurrence(v@, sep@, i as int) is None);
    let r = string_of_range(&v, 0, v.len());
    assert(v@.subrange(0, v@.len() as int) =~= v@);
    r
}

/// The views of optional text pairs of related topics.
pub open spec fn topic_views(ts: Seq<RelatedTopic>) -> Seq<(Option<Seq<char>>, Option<Seq<char>>)> {
    ts.map_values(|t: RelatedTopic| (opt_view(t.text), opt_view(t.first_url)))
}

/// The results from the first `k` related topics: those with a non-empty
/// text and an address, titled by the text before " - ".
pub open spec fn topic_results(ts: Seq<(Option<Seq<char>>, Option<Seq<char>>)>, k: int) -> Seq<(Seq<char>, Seq<char>, Seq<char>, Seq<char>)>
    decreases k,
{
    if k <= 0 {
        Seq::empty()
    } else {
        let p = topic_results(ts, k - 1);
        match ts[k - 1] {
            (Some(text), Some(url)) => if text.len() > 0 {
                p.push((topic_title(text), text, url, "duckduckgo"@))
            } else {
                p
            },
            _ => p,
        }
    }
}

/// The search results of an Instant Answer: its abstract (when not empty)
/// under its heading (or the query) with its address (or none), then the
/// results of its first three related topics.
pub open spec fn ddg_results_view(
    query: Seq<char>,
    abstract_text: Option<Seq<char>>,
    abstract_url: Option<Seq<char>>,
    heading: Option<Seq<char>>,
    topics: Seq<(Option<Seq<char>>, Option<Seq<char>>)>,
) -> Seq<(Seq<char>, Seq<char>, Seq<char>, Seq<char>)> {
    let first = match abstract_text {
        Some(a) => if a.len() > 0 {
            seq![(
                match heading {
                    Some(h) => h,
                    None => query,
                },
                a,
                match abstract_url {
                    Some(u) => u,
                    None => Seq::<char>::empty(),
                },
                "duckduckgo"@,
            )]
        } else {
            Seq::empty()
        },
        None => Seq::empty(),
    };
    first + topic_results(topics, if topics.len() < 3 { topics.len() as int } else { 3 })
}

/// The search results of an Instant Answer (see `ddg_results_view`).
pub fn ddg_results(query: &str, data: &InstantAnswer) -> (r: Vec<SearchResult>)
    ensures
        r@.map_values(|x: SearchResult| result_view(x)) == ddg_results_view(
            query@,
            opt_view(data.abstract_text),
            opt_view(data.abstract_url),
            opt_view(data.heading),
            topic_views(data.related_topics@),
        ),
{
    let mut out: Vec<SearchResult> = Vec::new();
    match &data.abstract_text {
        Some(a) => {
            if !a.as_str().is_empty() {
                let title = match &data.heading {
                    Some(h) => h.clone(),
                    None => to_string(query),
                };
                let url = match &data.abstract_url {
                    Some(u) => u.clone(),
                    None => String::new(),
                };
                out.push(SearchResult { title, snippet: a.clone(), url, source: to_string("duckduckgo") });
            }
        },
        None => {},
    }
    let ghost first = out@.map_values(|x: SearchResult| result_view(x));
    assert(first =~= ddg_results_view(
        query@,
        opt_view(data.abstract_text),
        opt_view(data.abstract_url),
        opt_view(data.heading),
        topic_views(data.related_topics@),
    ).take(first.len() as int)) by {
        assert(topic_results(topic_views(data.related_topics@), 0) =~= Seq::<(Seq<char>, Seq<char>, Seq<char>, Seq<char>)>::empty());
    }
    let ghost tv = topic_views(data.related_topics@);
    let n: usize = if data.related_topics.len() < 3 {
        data.related_topics.len()
    } else {
        3
    };
    let mut i: usize = 0;
    while i < n
        invariant
            i <= n,
            n <= data.related_topics@.len(),
            tv == topic_views(data.related_topics@),
            out@.map_values(|x: SearchResult| result_view(x)) == first + topic_results(tv, i as int),
        decreases n - i,
    {
        let t = &data.related_topics[i];
        assert(tv[i as int] == (opt_view(t.text), opt_view(t.first_url)));
        match (&t.text, &t.first_url) {
            (Some(text), Some(url)) => {
                if !text.as_str().is_empty() {
                    let title = topic_title_of(text.as_str());
                    let ghost before = out@;
                    out.push(SearchResult { title, snippet: text.clone(), url: url.clone(), source: to_string("duckduckgo") });
                    assert(out@.map_values(|x: SearchResult| result_view(x)) =~= before.map_values(|x: SearchResult| result_view(x)).push((topic_title(text@), text@, url@, "duckduckgo"@)));
                }
            },
            _ => {},
        }
        i = i + 1;
    }
    out
}

// ---------------------------------------------------------------------------
// Order of the sources
// ---------------------------------------------------------------------------

/// A place a concept is searched for.
#[derive(Debug, Clone, Copy, PartialEq, Eq, Structural)]
pub enum SearchSource {
    /// The English Wikipedia.
    WikipediaEn,
    /// The Chinese Wikipedia.
    WikipediaZh,
    /// DuckDuckGo's Instant Answers.
    DuckDuckGo,
}

/// The source to ask next: none once something was found; otherwise the
/// English Wikipedia first, then the Chinese one, then DuckDuckGo, then none.
pub open spec fn next_source(tried: Option<SearchSource>, found_any: bool) -> Option<SearchSource> {
    if found_any {
        None
    } else {
        match tried {
            None => Some(SearchSource::WikipediaEn),
            Some(SearchSource::WikipediaEn) => Some(SearchSource::WikipediaZh),
            Some(SearchSource::WikipediaZh) => Some(SearchSource::DuckDuckGo),
            Some(SearchSource::DuckDuckGo) => None,
        }
    }
}

/// The source a search asks after `tried` (see `next_source`).
pub fn next_search_source(tried: Option<SearchSource>, found_any: bool) -> (r: Option<SearchSource>)
    ensures
        r == next_source(tried, found_any),
{
    if found_any {
        return None;
    }
    match tried {
        None => Some(SearchSource::WikipediaEn),
        Some(SearchSource::WikipediaEn) => Some(SearchSource::WikipediaZh),
        Some(SearchSource::WikipediaZh) => Some(SearchSource::DuckDuckGo),
        Some(SearchSource::DuckDuckGo) => None,
    }
}

/// The language code of a Wikipedia source ("en" or "zh"); `None` for
/// DuckDuckGo.
pub fn wikipedia_language(source: SearchSource) -> (r: Option<&'static str>)
    ensures
        source == SearchSource::WikipediaEn ==> (r matches Some(l) && l@ == "en"@),
        source == SearchSource::WikipediaZh ==> (r matches Some(l) && l@ == "zh"@),
        source == SearchSource::DuckDuckGo ==> r is None,
{
    proof {
        reveal_strlit("en");
        reveal_strlit("zh");
    }
    match source {
        SearchSource::WikipediaEn => Some("en"),
        SearchSource::WikipediaZh => Some("zh"),
        SearchSource::DuckDuckGo => None,
    }
}

} // verus!
