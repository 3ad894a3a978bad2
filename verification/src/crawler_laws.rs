//! Properties of URL encoding.

use vstd::prelude::*;
use crate::crawler::{percent_escapes, unreserved, upper_hex_digits, url_encoded, utf8_bytes};
use crate::text::char_utf8_len;

verus! {

/// The value of a hexadecimal digit (`0`-`9`, `A`-`F`).
pub open spec fn hex_value(c: char) -> int {
    if '0' <= c && c <= '9' {
        c as int - '0' as int
    } else {
        c as int - 'A' as int + 10
    }
}

/// Percent-decoding: each `%XY` stands for the byte with hexadecimal digits
/// `X` and `Y`, any other character for its own code.
pub open spec fn percent_decoded(t: Seq<char>) -> Seq<u8>
    decreases t.len(),
{
    if t.len() == 0 {
        Seq::empty()
    } else if t.len() >= 3 && t[t.len() - 3] == '%' {
        percent_decoded(t.take(t.len() - 3)).push((hex_value(t[t.len() - 2]) * 16 + hex_value(t[t.len() - 1])) as u8)
    } else {
        percent_decoded(t.drop_last()).push(t.last() as u8)
    }
}

/// The UTF-8 bytes of a text.
pub open spec fn utf8_text(s: Seq<char>) -> Seq<u8>
    decreases s.len(),
{
    if s.len() == 0 {
        Seq::empty()
    } else {
        utf8_text(s.drop_last()) + utf8_bytes(s.last())
    }
}

/// Whether `c` is an uppercase hexadecimal digit.
pub open spec fn is_upper_hex(c: char) -> bool {
    ('0' <= c && c <= '9') || ('A' <= c && c <= 'F')
}

/// Whether every `%` of `t` is followed by two uppercase hexadecimal digits.
pub open spec fn escapes_complete(t: Seq<char>) -> bool {
    forall|i: int| 0 <= i < t.len() && #[trigger] t[i] == '%' ==> i + 2 < t.len() && is_upper_hex(t[i + 1])
        && is_upper_hex(t[i + 2])
}

/// The length of the URL encoding of `s`: 1 for each unreserved character,
/// 3 for each byte of every other character.
pub open spec fn encoded_length(s: Seq<char>) -> nat
    decreases s.len(),
{
    if s.len() == 0 {
        0
    } else {
        encoded_length(s.drop_last()) + if unreserved(s.last()) {
            1nat
        } else {
            3 * char_utf8_len(s.last())
        }
    }
}

/// Whether every character of `t` is `%` or unreserved.
pub open spec fn url_safe(t: Seq<char>) -> bool {
    forall|i: int| 0 <= i < t.len() ==> #[trigger] t[i] == '%' || unreserved(t[i])
}

proof fn lemma_hex_digit(d: int)
    requires
        0 <= d < 16,
    ensures
        hex_value(upper_hex_digits()[d]) == d,
        unreserved(upper_hex_digits()[d]),
        is_upper_hex(upper_hex_digits()[d]),
        upper_hex_digits()[d] != '%',
{
}

proof fn lemma_escapes(a: Seq<char>, bs: Seq<u8>)
    requires
        escapes_complete(a),
        url_safe(a),
    ensures
        percent_decoded(a + percent_escapes(bs)) == percent_decoded(a) + bs,
        escapes_complete(a + percent_escapes(bs)),
        url_safe(a + percent_escapes(bs)),
        percent_escapes(bs).len() == 3 * bs.len(),
    decreases bs.len(),
{
    if bs.len() == 0 {
        assert(a + percent_escapes(bs) =~= a);
        assert(percent_decoded(a) + bs =~= percent_decoded(a));
    } else {
        let b = bs.last();
        lemma_escapes(a, bs.drop_last());
        let t = a + percent_escapes(bs.drop_last());
        let e = seq!['%', upper_hex_digits()[(b / 16) as int], upper_hex_digits()[(b % 16) as int]];
        let u = a + percent_escapes(bs);
        assert(u =~= t + e);
        lemma_hex_digit((b / 16) as int);
        lemma_hex_digit((b % 16) as int);
        assert(u[u.len() - 3] == '%');
        assert(u.take(u.len() - 3) =~= t);
        assert((hex_value(u[u.len() - 2]) * 16 + hex_value(u[u.len() - 1])) as u8 == b);
        assert(percent_decoded(a) + bs =~= (percent_decoded(a) + bs.drop_last()).push(b));
        assert forall|i: int| 0 <= i < u.len() && #[trigger] u[i] == '%' implies i + 2 < u.len() && is_upper_hex(u[i + 1])
            && is_upper_hex(u[i + 2]) by {
            if i < t.len() {
                assert(u[i] == t[i]);
                assert(u[i + 1] == t[i + 1] && u[i + 2] == t[i + 2]);
            }
        }
        assert forall|i: int| 0 <= i < u.len() implies #[trigger] u[i] == '%' || unreserved(u[i]) by {
            if i < t.len() {
                assert(u[i] == t[i]);
            }
        }
    }
}

proof fn lemma_url_encoded(s: Seq<char>)
    ensures
        percent_decoded(url_encoded(s)) == utf8_text(s),
        escapes_complete(url_encoded(s)),
        url_safe(url_encoded(s)),
        url_encoded(s).len() == encoded_length(s),
    decreases s.len(),
{
    if s.len() > 0 {
        let d = s.drop_last();
        let c = s.last();
        lemma_url_encoded(d);
        let a = url_encoded(d);
        if unreserved(c) {
            let u = a + seq![c];
            assert(url_encoded(s) == u);
            if u.len() >= 3 {
                assert(u[u.len() - 3] == a[a.len() - 2]);
                if a[a.len() - 2] == '%' {
                    assert(a.len() - 2 + 2 < a.len());
                }
            }
            assert(u.drop_last() =~= a);
            assert(utf8_bytes(c) == seq![c as u8]);
            assert(utf8_text(s) =~= utf8_text(d).push(c as u8));
            assert forall|i: int| 0 <= i < u.len() && #[trigger] u[i] == '%' implies i + 2 < u.len() && is_upper_hex(u[i + 1])
                && is_upper_hex(u[i + 2]) by {
                if i < a.len() {
                    assert(u[i] == a[i]);
                    assert(u[i + 1] == a[i + 1] && u[i + 2] == a[i + 2]);
                }
            }
            assert forall|i: int| 0 <= i < u.len() implies #[trigger] u[i] == '%' || unreserved(u[i]) by {
                if i < a.len() {
                    assert(u[i] == a[i]);
                }
            }
        } else {
            lemma_escapes(a, utf8_bytes(c));
            assert(utf8_bytes(c).len() == char_utf8_len(c));
        }
    }
}

/// URL encoding loses nothing: percent-decoding the encoding of a text gives
/// back the text's UTF-8 bytes; every character of the encoding is `%` or
/// unreserved (ASCII letters and digits, `-`, `_`, `.`, `~`), and every `%`
/// is followed by two uppercase hexadecimal digits; and the encoding is 1
/// character long for each unreserved character and 3 for each byte of
/// every other one.
pub proof fn law_url_encoding_decodes(s: Seq<char>)
    ensures
        percent_decoded(url_encoded(s)) == utf8_text(s),
        url_safe(url_encoded(s)),
        escapes_complete(url_encoded(s)),
        url_encoded(s).len() == encoded_length(s),
{
    lemma_url_encoded(s);
}

} // verus!
