//! Character-level string utilities shared by the rest of the library.
//!
//! Strings are modelled by their views, `Seq<char>`.  Byte lengths are the
//! lengths of the UTF-8 encodings.

use vstd::prelude::*;
use vstd::string::*;

verus! {

// ---------------------------------------------------------------------------
// Trusted calls into std
// ---------------------------------------------------------------------------

/// What `str::to_lowercase` returns for a string: its Unicode lowercase form.
pub uninterp spec fn lowercase(s: Seq<char>) -> Seq<char>;

/// `str::to_lowercase`: the result is the lowercase form named `lowercase`.
#[verifier::external_body]
pub(crate) fn to_lowercase(s: &str) -> (r: String)
    ensures
        r@ == lowercase(s@),
{
    s.to_lowercase()
}

/// `String::push`: appends one character.
#[verifier::external_body]
pub(crate) fn push_char(s: &mut String, c: char)
    ensures
        final(s)@ == old(s)@.push(c),
{
    s.push(c);
}

// ---------------------------------------------------------------------------
// Character classes
// ---------------------------------------------------------------------------

/// The Unicode `White_Space` property, which `char::is_whitespace` tests.
pub open spec fn spec_is_whitespace(c: char) -> bool {
    let u = c as u32;
    ||| 0x09 <= u <= 0x0D
    ||| u == 0x20
    ||| u == 0x85
    ||| u == 0xA0
    ||| u == 0x1680
    ||| 0x2000 <= u <= 0x200A
    ||| u == 0x2028
    ||| u == 0x2029
    ||| u == 0x202F
    ||| u == 0x205F
    ||| u == 0x3000
}

pub fn is_whitespace(c: char) -> (r: bool)
    ensures
        r == spec_is_whitespace(c),
{
    let u = c as u32;
    (0x09 <= u && u <= 0x0D) || u == 0x20 || u == 0x85 || u == 0xA0 || u == 0x1680 || (0x2000 <= u
        && u <= 0x200A) || u == 0x2028 || u == 0x2029 || u == 0x202F || u == 0x205F || u == 0x3000
}

pub open spec fn spec_is_ascii_alphabetic(c: char) -> bool {
    ('a' <= c && c <= 'z') || ('A' <= c && c <= 'Z')
}

pub fn is_ascii_alphabetic(c: char) -> (r: bool)
    ensures
        r == spec_is_ascii_alphabetic(c),
{
    ('a' <= c && c <= 'z') || ('A' <= c && c <= 'Z')
}

pub open spec fn spec_is_ascii_digit(c: char) -> bool {
    '0' <= c && c <= '9'
}

/// ASCII punctuation: `!"#$%&'()*+,-./:;<=>?@[\]^_`{|}~`.
pub open spec fn spec_is_ascii_punctuation(c: char) -> bool {
    let u = c as u32;
    (0x21 <= u <= 0x2F) || (0x3A <= u <= 0x40) || (0x5B <= u <= 0x60) || (0x7B <= u <= 0x7E)
}

pub fn is_ascii_punctuation(c: char) -> (r: bool)
    ensures
        r == spec_is_ascii_punctuation(c),
{
    let u = c as u32;
    (0x21 <= u && u <= 0x2F) || (0x3A <= u && u <= 0x40) || (0x5B <= u && u <= 0x60) || (0x7B <= u
        && u <= 0x7E)
}

pub open spec fn spec_ascii_lower_char(c: char) -> char {
    if 'A' <= c && c <= 'Z' {
        ((c as u32) + 32) as char
    } else {
        c
    }
}

/// The ASCII lowercase form of a string: `A`..`Z` mapped to `a`..`z`.
pub open spec fn ascii_lower(s: Seq<char>) -> Seq<char> {
    s.map_values(|c: char| spec_ascii_lower_char(c))
}

pub fn ascii_lower_char(c: char) -> (r: char)
    ensures
        r == spec_ascii_lower_char(c),
{
    if 'A' <= c && c <= 'Z' {
        let u = (c as u32) + 32;
        let b = u as u8;
        b as char
    } else {
        c
    }
}

/// `s` with ASCII letters lowercased (`str::to_ascii_lowercase`).
pub fn to_ascii_lower(s: &str) -> (r: String)
    ensures
        r@ == ascii_lower(s@),
{
    let v = chars_of(s);
    let mut r = String::new();
    let mut i: usize = 0;
    while i < v.len()
        invariant
            i <= v.len(),
            r@ == ascii_lower(v@.take(i as int)),
        decreases v.len() - i,
    {
        push_char(&mut r, ascii_lower_char(v[i]));
        assert(ascii_lower(v@.take(i as int + 1)) =~= ascii_lower(v@.take(i as int)).push(spec_ascii_lower_char(v@[i as int])));
        i = i + 1;
    }
    assert(v@.take(v.len() as int) =~= v@);
    r
}

// ---------------------------------------------------------------------------
// Conversions between `str`, `String` and `Vec<char>`
// ---------------------------------------------------------------------------

/// The characters of `s`, in order.
pub fn chars_of(s: &str) -> (r: Vec<char>)
    ensures
        r@ == s@,
{
    let mut r: Vec<char> = Vec::new();
    for c in it: s.chars()
        invariant
            r@ == it.seq().take(it.index() as int),
    {
        r.push(c);
    }
    r
}

/// The string made of `v[lo..hi]`.
pub fn string_of_range(v: &Vec<char>, lo: usize, hi: usize) -> (r: String)
    requires
        lo <= hi <= v.len(),
    ensures
        r@ == v@.subrange(lo as int, hi as int),
{
    let mut r = String::new();
    let mut i = lo;
    while i < hi
        invariant
            lo <= i <= hi <= v.len(),
            r@ == v@.subrange(lo as int, i as int),
        decreases hi - i,
    {
        push_char(&mut r, v[i]);
        i = i + 1;
    }
    r
}

/// The string made of all of `v`.
pub fn string_of_chars(v: &Vec<char>) -> (r: String)
    ensures
        r@ == v@,
{
    let r = string_of_range(v, 0, v.len());
    assert(v@.subrange(0, v@.len() as int) =~= v@);
    r
}

/// A one-character string.
pub fn string_of_char(c: char) -> (r: String)
    ensures
        r@ == seq![c],
{
    let mut r = String::new();
    push_char(&mut r, c);
    assert(r@ =~= seq![c]);
    r
}

/// A `String` holding a copy of `s`.
pub fn to_string(s: &str) -> (r: String)
    ensures
        r@ == s@,
{
    s.to_owned()
}

/// `a` followed by `b`.
pub fn concat(a: &str, b: &str) -> (r: String)
    ensures
        r@ == a@ + b@,
{
    let mut r = a.to_owned();
    r.append(b);
    r
}

/// Whether two strings hold the same characters.
pub fn str_eq(a: &str, b: &str) -> (r: bool)
    ensures
        r == (a@ == b@),
{
    let x = a.to_owned();
    let y = b.to_owned();
    x == y
}

// ---------------------------------------------------------------------------
// UTF-8 length
// ---------------------------------------------------------------------------

/// Number of bytes in the UTF-8 encoding of a character.
pub open spec fn char_utf8_len(c: char) -> nat {
    let u = c as u32;
    if u < 0x80 {
        1
    } else if u < 0x800 {
        2
    } else if u < 0x10000 {
        3
    } else {
        4
    }
}

/// Number of bytes in the UTF-8 encoding of a string (what `str::len` returns).
pub open spec fn utf8_len(s: Seq<char>) -> nat
    decreases s.len(),
{
    if s.len() == 0 {
        0
    } else {
        char_utf8_len(s[0]) + utf8_len(s.drop_first())
    }
}

pub proof fn lemma_utf8_len_append(a: Seq<char>, b: Seq<char>)
    ensures
        utf8_len(a + b) == utf8_len(a) + utf8_len(b),
    decreases a.len(),
{
    if a.len() == 0 {
        assert(a + b =~= b);
    } else {
        lemma_utf8_len_append(a.drop_first(), b);
        assert((a + b).drop_first() =~= a.drop_first() + b);
    }
}

pub proof fn lemma_utf8_len_push(a: Seq<char>, c: char)
    ensures
        utf8_len(a.push(c)) == utf8_len(a) + char_utf8_len(c),
{
    lemma_utf8_len_append(a, seq![c]);
    assert(a + seq![c] =~= a.push(c));
    assert(seq![c].drop_first() =~= Seq::<char>::empty());
    assert(utf8_len(seq![c].drop_first()) == 0);
    assert(utf8_len(seq![c]) == char_utf8_len(c));
}

pub proof fn lemma_utf8_len_ge_len(s: Seq<char>)
    ensures
        utf8_len(s) >= s.len(),
    decreases s.len(),
{
    if s.len() > 0 {
        lemma_utf8_len_ge_len(s.drop_first());
    }
}

pub fn char_len_utf8(c: char) -> (r: usize)
    ensures
        r == char_utf8_len(c),
{
    let u = c as u32;
    if u < 0x80 {
        1
    } else if u < 0x800 {
        2
    } else if u < 0x10000 {
        3
    } else {
        4
    }
}

/// The UTF-8 byte length of `s` (`str::len`), capped at `usize::MAX`.
pub fn byte_len(s: &str) -> (r: usize)
    ensures
        r == capped_len(utf8_len(s@)),
{
    let v = chars_of(s);
    let mut n: u128 = 0;
    let mut i: usize = 0;
    while i < v.len()
        invariant
            i <= v.len(),
            n == utf8_len(v@.take(i as int)),
            n <= 4 * i,
        decreases v.len() - i,
    {
        proof {
            lemma_utf8_len_push(v@.take(i as int), v@[i as int]);
            assert(v@.take(i as int).push(v@[i as int]) =~= v@.take(i as int + 1));
        }
        n = n + char_len_utf8(v[i]) as u128;
        i = i + 1;
    }
    assert(v@.take(v.len() as int) =~= v@);
    if n > usize::MAX as u128 {
        usize::MAX
    } else {
        n as usize
    }
}

/// A byte count as a `usize`: counts above `usize::MAX` (which no string in
/// memory reaches) are capped.
pub open spec fn capped_len(n: nat) -> usize {
    if n <= usize::MAX {
        n as usize
    } else {
        usize::MAX
    }
}

/// Whether the UTF-8 encoding of `v` has at least `k` bytes.
pub fn utf8_len_at_least(v: &Vec<char>, k: usize) -> (r: bool)
    ensures
        r == (utf8_len(v@) >= k),
{
    let mut n: u128 = 0;
    let mut i: usize = 0;
    while i < v.len()
        invariant
            i <= v.len(),
            n == utf8_len(v@.take(i as int)),
            n <= k + 4,
        decreases v.len() - i,
    {
        if n >= k as u128 {
            proof {
                lemma_utf8_len_append(v@.take(i as int), v@.skip(i as int));
                assert(v@.take(i as int) + v@.skip(i as int) =~= v@);
            }
            return true;
        }
        proof {
            lemma_utf8_len_push(v@.take(i as int), v@[i as int]);
            assert(v@.take(i as int).push(v@[i as int]) =~= v@.take(i as int + 1));
        }
        n = n + char_len_utf8(v[i]) as u128;
        i = i + 1;
    }
    assert(v@.take(v.len() as int) =~= v@);
    n >= k as u128
}

/// Whether the UTF-8 encoding of `s` has at least `k` bytes.
pub fn str_utf8_len_at_least(s: &str, k: usize) -> (r: bool)
    ensures
        r == (utf8_len(s@) >= k),
{
    let v = chars_of(s);
    utf8_len_at_least(&v, k)
}

// ---------------------------------------------------------------------------
// Trimming
// ---------------------------------------------------------------------------

/// `s` without its leading whitespace.
pub open spec fn trim_start(s: Seq<char>) -> Seq<char>
    decreases s.len(),
{
    if s.len() > 0 && spec_is_whitespace(s[0]) {
        trim_start(s.drop_first())
    } else {
        s
    }
}

/// `s` without its trailing whitespace.
pub open spec fn trim_end(s: Seq<char>) -> Seq<char>
    decreases s.len(),
{
    if s.len() > 0 && spec_is_whitespace(s.last()) {
        trim_end(s.drop_last())
    } else {
        s
    }
}

/// `s` without leading and trailing whitespace (`str::trim`).
pub open spec fn trim(s: Seq<char>) -> Seq<char> {
    trim_end(trim_start(s))
}

/// Whether every character of `s` is whitespace.
pub open spec fn all_whitespace(s: Seq<char>) -> bool {
    forall|i: int| 0 <= i < s.len() ==> spec_is_whitespace(#[trigger] s[i])
}

pub proof fn lemma_trim_start_empty(s: Seq<char>)
    ensures
        (trim_start(s).len() == 0) == all_whitespace(s),
    decreases s.len(),
{
    if s.len() > 0 && spec_is_whitespace(s[0]) {
        lemma_trim_start_empty(s.drop_first());
        if all_whitespace(s.drop_first()) {
            assert forall|i: int| 0 <= i < s.len() implies spec_is_whitespace(#[trigger] s[i]) by {
                if i > 0 {
                    assert(s[i] == s.drop_first()[i - 1]);
                }
            }
        } else {
            let j = choose|j: int| 0 <= j < s.drop_first().len() && !spec_is_whitespace(
                #[trigger] s.drop_first()[j],
            );
            assert(s[j + 1] == s.drop_first()[j]);
        }
    }
}

pub proof fn lemma_trim_start_first(s: Seq<char>)
    ensures
        trim_start(s).len() > 0 ==> !spec_is_whitespace(trim_start(s)[0]),
    decreases s.len(),
{
    if s.len() > 0 && spec_is_whitespace(s[0]) {
        lemma_trim_start_first(s.drop_first());
    }
}

pub proof fn lemma_trim_end_keeps_first(t: Seq<char>)
    requires
        t.len() > 0,
        !spec_is_whitespace(t[0]),
    ensures
        trim_end(t).len() > 0,
    decreases t.len(),
{
    if spec_is_whitespace(t.last()) {
        if t.len() == 1 {
        } else {
            lemma_trim_end_keeps_first(t.drop_last());
        }
    }
}

/// The bounds `lo..hi` of `trim(v)` inside `v`.
fn trim_bounds(v: &Vec<char>) -> (r: (usize, usize))
    ensures
        r.0 <= r.1 <= v.len(),
        trim(v@) == v@.subrange(r.0 as int, r.1 as int),
{
    let mut lo: usize = 0;
    assert(v@.subrange(0, v.len() as int) =~= v@);
    while lo < v.len() && is_whitespace(v[lo])
        invariant
            lo <= v.len(),
            trim_start(v@) == trim_start(v@.subrange(lo as int, v.len() as int)),
        decreases v.len() - lo,
    {
        proof {
            assert(v@.subrange(lo as int, v.len() as int).drop_first() =~= v@.subrange(
                lo as int + 1,
                v.len() as int,
            ));
        }
        lo = lo + 1;
    }
    let ghost mid = v@.subrange(lo as int, v.len() as int);
    assert(trim_start(v@) == mid);
    let mut hi: usize = v.len();
    while hi > lo && is_whitespace(v[hi - 1])
        invariant
            lo <= hi <= v.len(),
            trim_end(mid) == trim_end(v@.subrange(lo as int, hi as int)),
            mid == v@.subrange(lo as int, v.len() as int),
        decreases hi - lo,
    {
        proof {
            assert(v@.subrange(lo as int, hi as int).drop_last() =~= v@.subrange(
                lo as int,
                hi as int - 1,
            ));
        }
        hi = hi - 1;
    }
    (lo, hi)
}

/// `str::trim`: `s` without leading and trailing whitespace.
pub fn trim_str(s: &str) -> (r: String)
    ensures
        r@ == trim(s@),
{
    let v = chars_of(s);
    let (lo, hi) = trim_bounds(&v);
    string_of_range(&v, lo, hi)
}

/// Whether `s` holds only whitespace (`s.trim().is_empty()`).
pub fn is_blank(s: &str) -> (r: bool)
    ensures
        r == all_whitespace(s@),
        r == (trim(s@).len() == 0),
{
    let v = chars_of(s);
    let (lo, hi) = trim_bounds(&v);
    proof {
        lemma_trim_start_empty(s@);
        lemma_trim_start_first(s@);
        if trim_start(s@).len() > 0 {
            lemma_trim_end_keeps_first(trim_start(s@));
        }
    }
    lo == hi
}

// ---------------------------------------------------------------------------
// Searching
// ---------------------------------------------------------------------------

/// Whether `needle` occurs in `hay` starting at index `i`.
pub open spec fn occurs_at(hay: Seq<char>, needle: Seq<char>, i: int) -> bool {
    0 <= i && i + needle.len() <= hay.len() && hay.subrange(i, i + needle.len()) == needle
}

/// Whether `needle` is a substring of `hay` (`str::contains`).
pub open spec fn contains(hay: Seq<char>, needle: Seq<char>) -> bool {
    exists|i: int| occurs_at(hay, needle, i)
}

/// Whether `hay` begins with `needle` (`str::starts_with`).
pub open spec fn starts_with(hay: Seq<char>, needle: Seq<char>) -> bool {
    occurs_at(hay, needle, 0)
}

fn matches_at(hay: &Vec<char>, needle: &Vec<char>, i: usize) -> (r: bool)
    requires
        i + needle.len() <= hay.len(),
    ensures
        r == occurs_at(hay@, needle@, i as int),
{
    let mut j: usize = 0;
    while j < needle.len()
        invariant
            j <= needle.len(),
            i + needle.len() <= hay.len(),
            forall|k: int| 0 <= k < j ==> hay@[i + k] == needle@[k],
        decreases needle.len() - j,
    {
        if hay[i + j] != needle[j] {
            assert(hay@.subrange(i as int, i + needle.len())[j as int] != needle@[j as int]);
            return false;
        }
        j = j + 1;
    }
    assert(hay@.subrange(i as int, i + needle.len()) =~= needle@);
    true
}

/// Whether `needle` occurs in `hay`.
pub fn chars_contain(hay: &Vec<char>, needle: &Vec<char>) -> (r: bool)
    ensures
        r == contains(hay@, needle@),
{
    if needle.len() > hay.len() {
        return false;
    }
    let last = hay.len() - needle.len();
    let mut i: usize = 0;
    loop
        invariant
            last + needle.len() == hay.len(),
            i <= last,
            forall|k: int| 0 <= k < i ==> !occurs_at(hay@, needle@, k),
        ensures
            forall|k: int| 0 <= k <= last ==> !occurs_at(hay@, needle@, k),
        decreases last - i,
    {
        if matches_at(hay, needle, i) {
            return true;
        }
        if i == last {
            break;
        }
        i = i + 1;
    }
    assert forall|k: int| !occurs_at(hay@, needle@, k) by {
        if 0 <= k <= last {
        }
    }
    false
}

/// `str::contains` on string slices.
pub fn str_contains(hay: &str, needle: &str) -> (r: bool)
    ensures
        r == contains(hay@, needle@),
{
    let h = chars_of(hay);
    let n = chars_of(needle);
    chars_contain(&h, &n)
}

/// `str::starts_with` on string slices.
pub fn str_starts_with(hay: &str, needle: &str) -> (r: bool)
    ensures
        r == starts_with(hay@, needle@),
{
    let h = chars_of(hay);
    let n = chars_of(needle);
    if n.len() > h.len() {
        false
    } else {
        matches_at(&h, &n, 0)
    }
}

/// Whether the first character of `s` is `c` (`str::starts_with(char)`).
pub fn starts_with_char(s: &str, c: char) -> (r: bool)
    ensures
        r == (s@.len() > 0 && s@[0] == c),
{
    let v = chars_of(s);
    v.len() > 0 && v[0] == c
}

// ---------------------------------------------------------------------------
// Ordering
// ---------------------------------------------------------------------------

/// Lexicographic order of strings by code point, which is the order `str`
/// comparisons use (UTF-8 byte order agrees with code point order).
pub open spec fn str_less(a: Seq<char>, b: Seq<char>) -> bool
    decreases a.len(),
{
    if a.len() == 0 {
        b.len() > 0
    } else if b.len() == 0 {
        false
    } else if a[0] != b[0] {
        a[0] < b[0]
    } else {
        str_less(a.drop_first(), b.drop_first())
    }
}

pub proof fn lemma_str_less_irreflexive(a: Seq<char>)
    ensures
        !str_less(a, a),
    decreases a.len(),
{
    if a.len() > 0 {
        lemma_str_less_irreflexive(a.drop_first());
    }
}

pub proof fn lemma_str_less_asymmetric(a: Seq<char>, b: Seq<char>)
    ensures
        !(str_less(a, b) && str_less(b, a)),
    decreases a.len(),
{
    if a.len() > 0 && b.len() > 0 && a[0] == b[0] {
        lemma_str_less_asymmetric(a.drop_first(), b.drop_first());
    }
}

pub proof fn lemma_str_less_total(a: Seq<char>, b: Seq<char>)
    ensures
        a != b ==> (str_less(a, b) || str_less(b, a)),
    decreases a.len(),
{
    if a.len() > 0 && b.len() > 0 && a[0] == b[0] {
        lemma_str_less_total(a.drop_first(), b.drop_first());
        if a.drop_first() == b.drop_first() {
            assert(a =~= seq![a[0]] + a.drop_first());
            assert(b =~= seq![b[0]] + b.drop_first());
        }
    } else if a.len() == 0 && b.len() == 0 {
        assert(a =~= b);
    }
}

/// `a < b` for strings.
pub fn str_lt(a: &str, b: &str) -> (r: bool)
    ensures
        r == str_less(a@, b@),
{
    let x = chars_of(a);
    let y = chars_of(b);
    let mut i: usize = 0;
    assert(x@.skip(0) =~= x@);
    assert(y@.skip(0) =~= y@);
    while i < x.len() && i < y.len() && x[i] == y[i]
        invariant
            i <= x.len(),
            i <= y.len(),
            str_less(x@, y@) == str_less(x@.skip(i as int), y@.skip(i as int)),
        decreases x.len() - i,
    {
        proof {
            assert(x@.skip(i as int).drop_first() =~= x@.skip(i as int + 1));
            assert(y@.skip(i as int).drop_first() =~= y@.skip(i as int + 1));
        }
        i = i + 1;
    }
    if i == x.len() {
        i < y.len()
    } else if i == y.len() {
        false
    } else {
        proof {
            assert(x@.skip(i as int)[0] == x@[i as int]);
            assert(y@.skip(i as int)[0] == y@[i as int]);
        }
        x[i] < y[i]
    }
}

// ---------------------------------------------------------------------------
// Numbers
// ---------------------------------------------------------------------------

pub open spec fn digit_char(d: nat) -> char
    recommends
        d < 10,
{
    ((d + 48) as u8) as char
}

/// The decimal representation of `n`, without leading zeros.
pub open spec fn decimal(n: nat) -> Seq<char>
    decreases n,
{
    if n < 10 {
        seq![digit_char(n)]
    } else {
        decimal(n / 10).push(digit_char(n % 10))
    }
}

/// The decimal representation of `n` (`n.to_string()`).
pub fn u64_to_decimal(n: u64) -> (r: String)
    ensures
        r@ == decimal(n as nat),
{
    // Collect the digits from least to most significant.
    let mut digits: Vec<char> = Vec::new();
    let mut m: u64 = n;
    let ghost mut rest: Seq<char> = Seq::empty();
    assert(decimal(n as nat) =~= decimal(n as nat) + rest);
    while m >= 10
        invariant
            decimal(n as nat) == decimal(m as nat) + rest,
            digits@.len() == rest.len(),
            forall|k: int| 0 <= k < rest.len() ==> #[trigger] rest[k] == digits@[rest.len() - 1 - k],
        decreases m,
    {
        let d = (((m % 10) as u8) + 48) as char;
        digits.push(d);
        proof {
            let r2 = seq![d] + rest;
            assert(decimal(m as nat) == decimal((m / 10) as nat).push(d));
            assert(decimal((m / 10) as nat) + r2 =~= decimal(m as nat) + rest);
            rest = r2;
        }
        m = m / 10;
    }
    let d = ((m as u8) + 48) as char;
    digits.push(d);
    proof {
        assert(decimal(m as nat) =~= seq![d]);
        rest = seq![d] + rest;
    }
    let mut r = String::new();
    let mut i = digits.len();
    while i > 0
        invariant
            i <= digits@.len(),
            digits@.len() == rest.len(),
            decimal(n as nat) == rest,
            forall|k: int| 0 <= k < rest.len() ==> #[trigger] rest[k] == digits@[rest.len() - 1 - k],
            r@ == rest.take(digits@.len() - i),
        decreases i,
    {
        i = i - 1;
        push_char(&mut r, digits[i]);
        proof {
            assert(rest.take(digits@.len() - i) =~= rest.take(digits@.len() - i - 1).push(
                rest[digits@.len() - i - 1],
            ));
        }
    }
    assert(rest.take(rest.len() as int) =~= rest);
    r
}

// ---------------------------------------------------------------------------
// Joining and replacing
// ---------------------------------------------------------------------------

/// The strings of `parts` with `sep` between consecutive ones (`[T]::join`).
pub open spec fn join(parts: Seq<Seq<char>>, sep: Seq<char>) -> Seq<char>
    decreases parts.len(),
{
    if parts.len() == 0 {
        Seq::empty()
    } else if parts.len() == 1 {
        parts[0]
    } else {
        join(parts.drop_last(), sep) + sep + parts.last()
    }
}

/// The views of a vector of strings.
pub open spec fn views(v: Seq<String>) -> Seq<Seq<char>> {
    v.map_values(|s: String| s@)
}

/// Whether `v` holds a string equal to `s`.
pub fn contains_string(v: &Vec<String>, s: &str) -> (r: bool)
    ensures
        r == views(v@).contains(s@),
{
    let mut i: usize = 0;
    while i < v.len()
        invariant
            i <= v@.len(),
            forall|k: int| 0 <= k < i ==> v@[k]@ != s@,
        decreases v@.len() - i,
    {
        if str_eq(v[i].as_str(), s) {
            assert(views(v@)[i as int] == s@);
            return true;
        }
        i = i + 1;
    }
    assert forall|k: int| 0 <= k < views(v@).len() implies views(v@)[k] != s@ by {
        assert(views(v@)[k] == v@[k]@);
    }
    false
}

/// `parts.join(sep)`.
pub fn join_strings(parts: &Vec<String>, sep: &str) -> (r: String)
    ensures
        r@ == join(views(parts@), sep@),
{
    let mut r = String::new();
    let mut i: usize = 0;
    while i < parts.len()
        invariant
            i <= parts.len(),
            r@ == join(views(parts@).take(i as int), sep@),
        decreases parts.len() - i,
    {
        proof {
            assert(views(parts@).take(i as int + 1).drop_last() =~= views(parts@).take(i as int));
        }
        if i > 0 {
            r.append(sep);
        }
        r.append(parts[i].as_str());
        proof {
            if i == 0 {
                assert(r@ =~= views(parts@).take(1)[0]);
            }
        }
        i = i + 1;
    }
    assert(views(parts@).take(parts.len() as int) =~= views(parts@));
    r
}

/// `s` with every non-overlapping occurrence of `pat` (left to right) replaced
/// by `rep` (`str::replace` with a non-empty pattern).
pub open spec fn replace_all(s: Seq<char>, pat: Seq<char>, rep: Seq<char>) -> Seq<char>
    recommends
        pat.len() > 0,
    decreases s.len(),
{
    if pat.len() == 0 || s.len() < pat.len() {
        s
    } else if s.take(pat.len() as int) == pat {
        rep + replace_all(s.skip(pat.len() as int), pat, rep)
    } else {
        seq![s[0]] + replace_all(s.drop_first(), pat, rep)
    }
}

/// `s.replace(pat, rep)` for a non-empty `pat`.
pub fn replace_str(s: &str, pat: &str, rep: &str) -> (r: String)
    requires
        pat@.len() > 0,
    ensures
        r@ == replace_all(s@, pat@, rep@),
{
    let v = chars_of(s);
    let p = chars_of(pat);
    let mut r = String::new();
    let mut i: usize = 0;
    assert(v@.skip(0) =~= v@);
    assert(r@ + replace_all(v@, p@, rep@) =~= replace_all(v@, p@, rep@));
    while i < v.len()
        invariant
            i <= v.len(),
            p@.len() > 0,
            r@ + replace_all(v@.skip(i as int), p@, rep@) == replace_all(v@, p@, rep@),
        decreases v.len() - i,
    {
        let ghost tail = v@.skip(i as int);
        if p.len() <= v.len() - i && matches_at(&v, &p, i) {
            proof {
                assert(tail.take(p@.len() as int) =~= v@.subrange(i as int, i + p@.len()));
                assert(tail.skip(p@.len() as int) =~= v@.skip(i + p@.len()));
            }
            r.append(rep);
            i = i + p.len();
        } else {
            proof {
                if p@.len() <= tail.len() {
                    assert(tail.take(p@.len() as int) =~= v@.subrange(i as int, i + p@.len()));
                }
                assert(tail.drop_first() =~= v@.skip(i + 1));
                if tail.len() < p@.len() {
                    assert(replace_all(tail, p@, rep@) == tail);
                    assert(replace_all(tail.drop_first(), p@, rep@) == tail.drop_first());
                    assert(tail =~= seq![tail[0]] + tail.drop_first());
                }
            }
            push_char(&mut r, v[i]);
            proof {
                assert(r@ + replace_all(v@.skip(i + 1), p@, rep@) =~= (r@.drop_last() + seq![v@[i as int]]) + replace_all(v@.skip(i + 1), p@, rep@));
            }
            i = i + 1;
        }
    }
    assert(replace_all(v@.skip(v.len() as int), p@, rep@) =~= Seq::<char>::empty());
    assert(r@ + Seq::<char>::empty() =~= r@);
    r
}


// ---------------------------------------------------------------------------
// Parsing integers
// ---------------------------------------------------------------------------

/// Whether every character of `s` is an ASCII digit.
pub open spec fn all_digits(s: Seq<char>) -> bool {
    forall|i: int| 0 <= i < s.len() ==> spec_is_ascii_digit(#[trigger] s[i])
}

/// The value of a string of decimal digits.
pub open spec fn digits_value(s: Seq<char>) -> int
    decreases s.len(),
{
    if s.len() == 0 {
        0
    } else {
        digits_value(s.drop_last()) * 10 + ((s.last() as u32) - 48)
    }
}

/// What `s.parse::<i64>()` gives: an optional `+` or `-` sign followed by at
/// least one ASCII digit, whose value fits in an `i64`.
pub open spec fn parse_i64(s: Seq<char>) -> Option<i64> {
    let neg = s.len() > 0 && s[0] == '-';
    let body = if s.len() > 0 && (s[0] == '-' || s[0] == '+') {
        s.drop_first()
    } else {
        s
    };
    if body.len() == 0 || !all_digits(body) {
        None
    } else {
        let v = if neg {
            -digits_value(body)
        } else {
            digits_value(body)
        };
        if i64::MIN <= v <= i64::MAX {
            Some(v as i64)
        } else {
            None
        }
    }
}

proof fn lemma_digits_value_monotone(s: Seq<char>, j: int)
    requires
        all_digits(s),
        0 <= j <= s.len(),
    ensures
        0 <= digits_value(s.take(j)) <= digits_value(s),
    decreases s.len() - j,
{
    if j < s.len() {
        lemma_digits_value_monotone(s, j + 1);
        assert(s.take(j + 1).drop_last() =~= s.take(j));
        assert(spec_is_ascii_digit(s[j]));
    } else {
        assert(s.take(j) =~= s);
        lemma_digits_value_nonneg(s);
    }
}

proof fn lemma_digits_value_nonneg(s: Seq<char>)
    requires
        all_digits(s),
    ensures
        digits_value(s) >= 0,
    decreases s.len(),
{
    if s.len() > 0 {
        assert(all_digits(s.drop_last())) by {
            assert forall|i: int| 0 <= i < s.drop_last().len() implies spec_is_ascii_digit(#[trigger] s.drop_last()[i]) by {
                assert(s.drop_last()[i] == s[i]);
            }
        }
        lemma_digits_value_nonneg(s.drop_last());
        assert(spec_is_ascii_digit(s[s.len() - 1]));
    }
}

/// `s.parse::<i64>().ok()`.
pub fn parse_i64_str(s: &str) -> (r: Option<i64>)
    ensures
        r == parse_i64(s@),
{
    let v = chars_of(s);
    let neg = v.len() > 0 && v[0] == '-';
    let start: usize = if v.len() > 0 && (v[0] == '-' || v[0] == '+') {
        1
    } else {
        0
    };
    let ghost body = if v@.len() > 0 && (v@[0] == '-' || v@[0] == '+') {
        v@.drop_first()
    } else {
        v@
    };
    assert(body =~= v@.skip(start as int));
    if start >= v.len() {
        return None;
    }
    let limit: i128 = 0x8000_0000_0000_0000;
    let mut acc: i128 = 0;
    let mut i: usize = start;
    assert(body.take(0) =~= Seq::<char>::empty());
    while i < v.len()
        invariant
            start <= i <= v.len(),
            v@ == s@,
            neg == (s@.len() > 0 && s@[0] == '-'),
            body == (if s@.len() > 0 && (s@[0] == '-' || s@[0] == '+') { s@.drop_first() } else { s@ }),
            body == v@.skip(start as int),
            acc == digits_value(body.take(i - start)),
            limit == 0x8000_0000_0000_0000,
            0 <= acc <= limit,
            all_digits(body.take(i - start)),
        decreases v.len() - i,
    {
        let c = v[i];
        proof {
            assert(body.take(i - start + 1).drop_last() =~= body.take(i - start));
            assert(body[i - start] == c);
        }
        if !('0' <= c && c <= '9') {
            proof {
                assert(!spec_is_ascii_digit(body[i - start]));
                assert(!all_digits(body));
            }
            return None;
        }
        acc = acc * 10 + ((c as u32) - 48) as i128;
        proof {
            assert forall|k: int| 0 <= k < body.take(i - start + 1).len() implies spec_is_ascii_digit(#[trigger] body.take(i - start + 1)[k]) by {
                if k < i - start {
                    assert(body.take(i - start + 1)[k] == body.take(i - start)[k]);
                }
            }
        }
        if acc > limit {
            // Further digits only make the value larger.
            i = i + 1;
            let mut j = i;
            while j < v.len()
                invariant
                    start < j <= v.len(),
                    v@ == s@,
                    neg == (s@.len() > 0 && s@[0] == '-'),
                    body == (if s@.len() > 0 && (s@[0] == '-' || s@[0] == '+') { s@.drop_first() } else { s@ }),
                    body == v@.skip(start as int),
                    all_digits(body.take(j - start)),
                    limit == 0x8000_0000_0000_0000,
                    digits_value(body.take(i - start)) > limit,
                    i - start <= j - start,
                decreases v.len() - j,
            {
                let d = v[j];
                if !('0' <= d && d <= '9') {
                    proof {
                        assert(body[j - start] == d);
                        assert(!spec_is_ascii_digit(body[j - start]));
                        assert(!all_digits(body));
                    }
                    return None;
                }
                proof {
                    assert forall|k: int| 0 <= k < body.take(j - start + 1).len() implies spec_is_ascii_digit(#[trigger] body.take(j - start + 1)[k]) by {
                        if k < j - start {
                            assert(body.take(j - start + 1)[k] == body.take(j - start)[k]);
                        } else {
                            assert(body[j - start] == d);
                        }
                    }
                }
                j = j + 1;
            }
            proof {
                assert(body.take(j - start) =~= body);
                lemma_digits_value_monotone(body, i - start);
            }
            return None;
        }
        i = i + 1;
    }
    assert(body.take(i - start) =~= body);
    if neg {
        Some((-acc) as i64)
    } else if acc > 0x7fff_ffff_ffff_ffff {
        None
    } else {
        Some(acc as i64)
    }
}

/// What `s.parse::<usize>()` gives: an optional `+` sign followed by at
/// least one ASCII digit, whose value fits in a `usize`.
pub open spec fn parse_usize(s: Seq<char>) -> Option<usize> {
    let body = if s.len() > 0 && s[0] == '+' {
        s.drop_first()
    } else {
        s
    };
    if body.len() == 0 || !all_digits(body) {
        None
    } else if digits_value(body) <= usize::MAX {
        Some(digits_value(body) as usize)
    } else {
        None
    }
}

/// `s.parse::<usize>().ok()`.
pub fn parse_usize_str(s: &str) -> (r: Option<usize>)
    ensures
        r == parse_usize(s@),
{
    let v = chars_of(s);
    let start: usize = if v.len() > 0 && v[0] == '+' {
        1
    } else {
        0
    };
    let ghost body = if v@.len() > 0 && v@[0] == '+' {
        v@.drop_first()
    } else {
        v@
    };
    assert(body =~= v@.skip(start as int));
    if start >= v.len() {
        return None;
    }
    let cap: u128 = usize::MAX as u128 + 1;
    let mut acc: u128 = 0;
    let mut i: usize = start;
    assert(body.take(0) =~= Seq::<char>::empty());
    while i < v.len()
        invariant
            start <= i <= v.len(),
            v@ == s@,
            body == (if s@.len() > 0 && s@[0] == '+' { s@.drop_first() } else { s@ }),
            body == v@.skip(start as int),
            cap == usize::MAX + 1,
            acc <= cap,
            acc < cap ==> acc == digits_value(body.take(i - start)),
            acc == cap ==> digits_value(body.take(i - start)) >= cap,
            all_digits(body.take(i - start)),
        decreases v.len() - i,
    {
        let c = v[i];
        proof {
            assert(body.take(i - start + 1).drop_last() =~= body.take(i - start));
            assert(body[i - start] == c);
        }
        if !('0' <= c && c <= '9') {
            proof {
                assert(!spec_is_ascii_digit(body[i - start]));
                assert(!all_digits(body));
            }
            return None;
        }
        proof {
            lemma_digits_value_nonneg(body.take(i - start));
            assert forall|k: int| 0 <= k < body.take(i - start + 1).len() implies spec_is_ascii_digit(#[trigger] body.take(i - start + 1)[k]) by {
                if k < i - start {
                    assert(body.take(i - start + 1)[k] == body.take(i - start)[k]);
                }
            }
        }
        let next = acc * 10 + ((c as u32) - 48) as u128;
        acc = if next > cap {
            cap
        } else {
            next
        };
        i = i + 1;
    }
    assert(body.take(i - start) =~= body);
    if acc < cap {
        Some(acc as usize)
    } else {
        None
    }
}

} // verus!
