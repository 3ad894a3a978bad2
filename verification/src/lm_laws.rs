//! Properties of the language model's vocabulary.

use vstd::prelude::*;
use crate::lm::{Vocab, char_token, decoded_text, index_entries, shown_word, vocab_tokens, with_chars};
use crate::table::{key_index, lookup, lemma_key_index};
use crate::text::spec_is_whitespace;

verus! {

/// The characters of `text` that are not whitespace, in order.
pub open spec fn visible_chars(text: Seq<char>) -> Seq<char>
    decreases text.len(),
{
    if text.len() == 0 {
        Seq::empty()
    } else if spec_is_whitespace(text.last()) {
        visible_chars(text.drop_last())
    } else {
        visible_chars(text.drop_last()).push(text.last())
    }
}

/// Whether no word repeats.
pub open spec fn distinct_words(ws: Seq<Seq<char>>) -> bool {
    forall|i: int, j: int| 0 <= i < j < ws.len() ==> #[trigger] ws[i] != #[trigger] ws[j]
}

proof fn lemma_with_chars(ws: Seq<Seq<char>>, text: Seq<char>)
    requires
        distinct_words(ws),
    ensures
        distinct_words(with_chars(ws, text)),
        with_chars(ws, text).len() >= ws.len(),
        forall|i: int| 0 <= i < ws.len() ==> #[trigger] with_chars(ws, text)[i] == ws[i],
        forall|k: int| 0 <= k < text.len() && !spec_is_whitespace(text[k]) ==> with_chars(ws, text).contains(seq![#[trigger] text[k]]),
    decreases text.len(),
{
    if text.len() > 0 {
        let d = text.drop_last();
        lemma_with_chars(ws, d);
        let p = with_chars(ws, d);
        let c = text.last();
        let q = with_chars(ws, text);
        if !(spec_is_whitespace(c) || p.contains(seq![c])) {
            assert(q == p.push(seq![c]));
            assert forall|i: int, j: int| 0 <= i < j < q.len() implies #[trigger] q[i] != #[trigger] q[j] by {
                if j == q.len() - 1 {
                    assert(q[i] == p[i]);
                } else {
                    assert(q[i] == p[i] && q[j] == p[j]);
                }
            }
            assert(q[q.len() - 1] == seq![c]);
        }
        assert forall|k: int| 0 <= k < text.len() && !spec_is_whitespace(text[k]) implies q.contains(seq![#[trigger] text[k]]) by {
            if k < text.len() - 1 {
                assert(d[k] == text[k]);
                let i = choose|i: int| 0 <= i < p.len() && p[i] == seq![d[k]];
                if q != p {
                    assert(q[i] == p[i]);
                }
            } else if p.contains(seq![c]) {
                assert(q == p);
            }
        }
    }
}

proof fn lemma_lookup_index_entries(ws: Seq<Seq<char>>, w: Seq<char>)
    requires
        distinct_words(ws),
        ws.len() <= u32::MAX,
        ws.contains(w),
    ensures
        lookup(index_entries(ws), w) is Some,
        (lookup(index_entries(ws), w)->0 as int) < ws.len(),
        ws[lookup(index_entries(ws), w)->0 as int] == w,
{
    let e = index_entries(ws);
    lemma_key_index(e, w);
    let i = choose|i: int| 0 <= i < ws.len() && ws[i] == w;
    assert(e[i].0 == w);
    let k = key_index(e, w);
    assert(ws[k] == w);
    if k != i {
        if k < i {
            assert(ws[k] != ws[i]);
        } else {
            assert(ws[i] != ws[k]);
        }
    }
}

proof fn lemma_decoded_tokens(ws: Seq<Seq<char>>, text: Seq<char>)
    requires
        distinct_words(ws),
        ws.len() <= u32::MAX,
        ws.contains("[BOS]"@),
        forall|k: int| 0 <= k < text.len() && !spec_is_whitespace(text[k]) ==> ws.contains(seq![#[trigger] text[k]]),
        forall|k: int| 0 <= k < text.len() ==> #[trigger] text[k] != '[',
    ensures
        decoded_text(ws, vocab_tokens(index_entries(ws), text)) == visible_chars(text),
    decreases text.len(),
{
    let index = index_entries(ws);
    if text.len() == 0 {
        lemma_lookup_index_entries(ws, "[BOS]"@);
        let b = lookup(index, "[BOS]"@)->0;
        let ids = vocab_tokens(index, text);
        assert(ids == seq![b]);
        assert(ids.drop_last() =~= Seq::<u32>::empty());
        reveal_strlit("[BOS]");
        assert(!shown_word(ws[b as int])) by {
            assert(ws[b as int][0] == '[');
            assert(ws[b as int] != "[UNK]"@) by {
                reveal_strlit("[UNK]");
                assert(ws[b as int][1] != "[UNK]"@[1]);
            }
        }
        assert(decoded_text(ws, ids) == decoded_text(ws, ids.drop_last()));
        assert(decoded_text(ws, ids) == visible_chars(text));
    } else {
        let d = text.drop_last();
        let c = text.last();
        assert forall|k: int| 0 <= k < d.len() && !spec_is_whitespace(d[k]) implies ws.contains(seq![#[trigger] d[k]]) by {
            assert(d[k] == text[k]);
        }
        assert forall|k: int| 0 <= k < d.len() implies #[trigger] d[k] != '[' by {
            assert(d[k] == text[k]);
        }
        lemma_decoded_tokens(ws, d);
        let p = vocab_tokens(index, d);
        if !spec_is_whitespace(c) {
            assert(text[text.len() - 1] == c);
            lemma_lookup_index_entries(ws, seq![c]);
            let id = char_token(index, c);
            assert(id == lookup(index, seq![c])->0);
            let ids = vocab_tokens(index, text);
            assert(ids == p.push(id));
            assert(ids.drop_last() =~= p);
            assert(ws[id as int] == seq![c]);
            assert(shown_word(ws[id as int]));
            assert(visible_chars(d).push(c) =~= visible_chars(d) + seq![c]);
            assert(decoded_text(ws, ids) == decoded_text(ws, p) + ws[id as int]);
            assert(decoded_text(ws, ids) == visible_chars(text));
        } else {
            assert(vocab_tokens(index, text) == p);
        }
    }
}

/// The words of a well-formed vocabulary are distinct and can be numbered
/// by `u32`.
pub proof fn lemma_vocab_words(v: &Vocab)
    requires
        v.wf(),
    ensures
        distinct_words(v.words()),
        v.words().len() <= u32::MAX,
{
    let ws = v.words();
    assert forall|i: int, j: int| 0 <= i < j < ws.len() implies #[trigger] ws[i] != #[trigger] ws[j] by {
        assert(v.word2idx@[i].0 == ws[i]);
        assert(v.word2idx@[j].0 == ws[j]);
    }
}

/// Adding a text's characters to a vocabulary and tokenizing the text, then
/// decoding the numbers, gives back the text without its whitespace, when the
/// vocabulary holds `[BOS]` and the text has no `[` (whose word would be taken
/// for a special token and skipped).
pub proof fn law_vocab_round_trip(ws: Seq<Seq<char>>, text: Seq<char>)
    requires
        distinct_words(ws),
        ws.contains("[BOS]"@),
        with_chars(ws, text).len() <= u32::MAX,
        forall|k: int| 0 <= k < text.len() ==> #[trigger] text[k] != '[',
    ensures
        decoded_text(with_chars(ws, text), vocab_tokens(index_entries(with_chars(ws, text)), text)) == visible_chars(text),
{
    lemma_with_chars(ws, text);
    let w = with_chars(ws, text);
    let i = choose|i: int| 0 <= i < ws.len() && ws[i] == "[BOS]"@;
    assert(w[i] == "[BOS]"@);
    lemma_decoded_tokens(w, text);
}

/// Decoding shows `[UNK]` (number 1), hides `[PAD]`, `[BOS]` and `[EOS]`
/// (numbers 0, 2 and 3), and skips numbers past the last word.
pub proof fn law_decode_special_ids(ws: Seq<Seq<char>>, id: u32)
    requires
        ws.len() >= 4,
        ws[0] == "[PAD]"@,
        ws[1] == "[UNK]"@,
        ws[2] == "[BOS]"@,
        ws[3] == "[EOS]"@,
    ensures
        decoded_text(ws, seq![1u32]) == "[UNK]"@,
        decoded_text(ws, seq![0u32, 2u32, 3u32]) == Seq::<char>::empty(),
        id >= ws.len() ==> decoded_text(ws, seq![id]) == Seq::<char>::empty(),
{
    reveal_strlit("[PAD]");
    reveal_strlit("[UNK]");
    reveal_strlit("[BOS]");
    reveal_strlit("[EOS]");
    let e = Seq::<u32>::empty();
    assert(decoded_text(ws, e) == Seq::<char>::empty());
    assert(seq![1u32].drop_last() =~= e);
    assert(decoded_text(ws, seq![1u32]) =~= "[UNK]"@);
    assert(seq![id].drop_last() =~= e);
    assert(seq![0u32].drop_last() =~= e);
    assert(seq![0u32, 2u32].drop_last() =~= seq![0u32]);
    assert(seq![0u32, 2u32, 3u32].drop_last() =~= seq![0u32, 2u32]);
    assert(ws[0][1] != "[UNK]"@[1] && ws[0][0] == '[');
    assert(ws[2][1] != "[UNK]"@[1] && ws[2][0] == '[');
    assert(ws[3][1] != "[UNK]"@[1] && ws[3][0] == '[');
    assert(!shown_word(ws[0]));
    assert(!shown_word(ws[2]));
    assert(!shown_word(ws[3]));
    assert(decoded_text(ws, seq![0u32]) == Seq::<char>::empty());
    assert(decoded_text(ws, seq![0u32, 2u32]) == Seq::<char>::empty());
}

proof fn lemma_with_known_chars(ws: Seq<Seq<char>>, text: Seq<char>)
    requires
        forall|k: int| 0 <= k < text.len() && !spec_is_whitespace(text[k]) ==> ws.contains(seq![#[trigger] text[k]]),
    ensures
        with_chars(ws, text) == ws,
    decreases text.len(),
{
    if text.len() > 0 {
        let d = text.drop_last();
        assert forall|k: int| 0 <= k < d.len() && !spec_is_whitespace(d[k]) implies ws.contains(seq![#[trigger] d[k]]) by {
            assert(d[k] == text[k]);
        }
        lemma_with_known_chars(ws, d);
        if !spec_is_whitespace(text.last()) {
            assert(text[text.len() - 1] == text.last());
        }
    }
}

/// Tokenizing a text whose characters are all words of the vocabulary, then
/// decoding the numbers after `[BOS]`, gives back the text without its
/// whitespace, when the vocabulary holds `[BOS]` and the text has no `[`.
pub proof fn law_vocab_round_trip_known(ws: Seq<Seq<char>>, text: Seq<char>)
    requires
        distinct_words(ws),
        ws.contains("[BOS]"@),
        ws.len() <= u32::MAX,
        forall|k: int| 0 <= k < text.len() ==> #[trigger] text[k] != '[',
        forall|k: int| 0 <= k < text.len() && !spec_is_whitespace(text[k]) ==> ws.contains(seq![#[trigger] text[k]]),
    ensures
        decoded_text(ws, vocab_tokens(index_entries(ws), text)) == visible_chars(text),
{
    lemma_with_known_chars(ws, text);
    law_vocab_round_trip(ws, text);
}

} // verus!
