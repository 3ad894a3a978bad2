//! The vocabulary and configuration of the character-level language model.

use vstd::prelude::*;
use vstd::string::*;
use crate::table::{Table, key_index, lookup, unique_keys};
use crate::text::{chars_of, spec_is_whitespace, starts_with_char, str_eq, string_of_char, to_string, views};

verus! {

/// The entries a vocabulary's index holds for its words: each word with its
/// position.
pub open spec fn index_entries(words: Seq<Seq<char>>) -> Seq<(Seq<char>, u32)> {
    Seq::new(words.len(), |i: int| (words[i], i as u32))
}

/// A vocabulary: words numbered in the order they were added.
pub struct Vocab {
    pub word2idx: Table<u32>,
    pub idx2word: Vec<String>,
    pub next_idx: u32,
}

impl Vocab {
    /// The words, in order of their numbers.
    pub open spec fn words(&self) -> Seq<Seq<char>> {
        views(self.idx2word@)
    }

    /// The index maps each word to its position, words are distinct, and the
    /// next number is the number of words.
    pub open spec fn wf(&self) -> bool {
        &&& self.word2idx@ == index_entries(self.words())
        &&& unique_keys(self.word2idx@)
        &&& self.next_idx == self.words().len()
    }

    /// The number of `w`, if it is a word.
    pub open spec fn index_of(&self, w: Seq<char>) -> Option<u32> {
        lookup(self.word2idx@, w)
    }

    /// A vocabulary with the special tokens `[PAD]`, `[UNK]`, `[BOS]` and
    /// `[EOS]`, numbered 0 to 3.
    pub fn new() -> (r: Vocab)
        ensures
            r.wf(),
            r.words() == seq!["[PAD]"@, "[UNK]"@, "[BOS]"@, "[EOS]"@],
    {
        let mut vocab = Vocab { word2idx: Table::new(), idx2word: Vec::new(), next_idx: 0 };
        assert(vocab.words() =~= Seq::<Seq<char>>::empty());
        assert(vocab.word2idx@ =~= index_entries(vocab.words()));
        proof {
            reveal_strlit("[PAD]");
            reveal_strlit("[UNK]");
            reveal_strlit("[BOS]");
            reveal_strlit("[EOS]");
        }
        let pad = "[PAD]";
        let unk = "[UNK]";
        let bos = "[BOS]";
        let eos = "[EOS]";
        assert(pad@[1] == 'P' && unk@[1] == 'U' && bos@[1] == 'B' && eos@[1] == 'E');
        vocab.add_token(to_string(pad));
        assert(vocab.words() =~= seq![pad@]);
        assert(!vocab.words().contains(unk@)) by {
            assert(vocab.words()[0] != unk@);
        }
        vocab.add_token(to_string(unk));
        assert(vocab.words() =~= seq![pad@, unk@]);
        assert(!vocab.words().contains(bos@)) by {
            assert(vocab.words()[0] != bos@);
            assert(vocab.words()[1] != bos@);
        }
        vocab.add_token(to_string(bos));
        assert(vocab.words() =~= seq![pad@, unk@, bos@]);
        assert(!vocab.words().contains(eos@)) by {
            assert(vocab.words()[0] != eos@);
            assert(vocab.words()[1] != eos@);
            assert(vocab.words()[2] != eos@);
        }
        vocab.add_token(to_string(eos));
        assert(vocab.words() =~= seq!["[PAD]"@, "[UNK]"@, "[BOS]"@, "[EOS]"@]);
        vocab
    }

    /// The number of `word`, adding it (with the next number) when new.
    pub fn add_token(&mut self, word: String) -> (r: u32)
        requires
            old(self).wf(),
            old(self).index_of(word@) is None ==> old(self).words().len() < u32::MAX,
        ensures
            final(self).wf(),
            old(self).words().contains(word@) ==> final(self).words() == old(self).words() && Some(r) == old(self).index_of(word@),
            !old(self).words().contains(word@) ==> final(self).words() == old(self).words().push(word@) && r == old(self).words().len(),
            final(self).index_of(word@) == Some(r),
    {
        let ghost ws = self.words();
        proof {
            crate::table::lemma_key_index(self.word2idx@, word@);
            lemma_index_entries(ws, word@);
        }
        match self.word2idx.get(word.as_str()) {
            Some(idx) => {
                return *idx;
            },
            None => {},
        }
        let idx = self.next_idx;
        let ghost before = self.idx2word@;
        proof {
            crate::table::lemma_key_index(self.word2idx@, word@);
        }
        self.word2idx.push_new(word.clone(), idx);
        self.idx2word.push(word);
        self.next_idx = self.next_idx + 1;
        assert(self.words() =~= ws.push(word@));
        assert(self.word2idx@ =~= index_entries(self.words()));
        assert(self.word2idx@.last().0 == word@);
        assert(lookup(self.word2idx@, word@) == Some(idx));
        idx
    }

    /// The number of the word of one character `c`: its number, or that of
    /// `[UNK]`, or 1.
    fn char_index(&self, c: char) -> (r: u32)
        requires
            self.wf(),
        ensures
            r == char_token(self.word2idx@, c),
    {
        let s = string_of_char(c);
        match self.word2idx.get(s.as_str()) {
            Some(i) => *i,
            None => match self.word2idx.get("[UNK]") {
                Some(u) => *u,
                None => 1,
            },
        }
    }

    /// `[BOS]`'s number followed by the numbers of the characters of `text`
    /// that are not whitespace (see `char_token`).
    pub fn tokenize(&self, text: &str) -> (r: Vec<u32>)
        requires
            self.wf(),
        ensures
            r@ == vocab_tokens(self.word2idx@, text@),
    {
        let bos = match self.word2idx.get("[BOS]") {
            Some(b) => *b,
            None => 0,
        };
        let mut out: Vec<u32> = Vec::new();
        out.push(bos);
        let v = chars_of(text);
        let mut i: usize = 0;
        assert(out@ =~= vocab_tokens(self.word2idx@, v@.take(0)));
        while i < v.len()
            invariant
                self.wf(),
                i <= v.len(),
                out@ == vocab_tokens(self.word2idx@, v@.take(i as int)),
            decreases v.len() - i,
        {
            assert(v@.take(i as int + 1).drop_last() =~= v@.take(i as int));
            let c = v[i];
            if !crate::text::is_whitespace(c) {
                out.push(self.char_index(c));
            }
            i = i + 1;
        }
        assert(v@.take(i as int) =~= v@);
        out
    }

    /// The words with numbers `ids`, concatenated; numbers of no word are
    /// skipped, and so are the special tokens except `[UNK]`.
    pub fn decode(&self, ids: &[u32]) -> (r: String)
        requires
            self.wf(),
        ensures
            r@ == decoded_text(self.words(), ids@),
    {
        let mut result = String::new();
        let mut i: usize = 0;
        while i < ids.len()
            invariant
                self.wf(),
                i <= ids@.len(),
                result@ == decoded_text(self.words(), ids@.take(i as int)),
            decreases ids@.len() - i,
        {
            assert(ids@.take(i as int + 1).drop_last() =~= ids@.take(i as int));
            let id = ids[i];
            if (id as usize) < self.idx2word.len() {
                let w = &self.idx2word[id as usize];
                assert(self.words()[id as int] == w@);
                if !starts_with_char(w.as_str(), '[') || str_eq(w.as_str(), "[UNK]") {
                    result.append(w.as_str());
                }
            }
            i = i + 1;
        }
        assert(ids@.take(i as int) =~= ids@);
        result
    }

    /// The number of words.
    pub fn size(&self) -> (r: usize)
        requires
            self.wf(),
        ensures
            r == self.words().len(),
    {
        self.next_idx as usize
    }

    /// Adds each character of `text` that is not whitespace as a word.
    pub fn add_text(&mut self, text: &str)
        requires
            old(self).wf(),
            old(self).words().len() + text@.len() <= u32::MAX,
        ensures
            final(self).wf(),
            final(self).words() == with_chars(old(self).words(), text@),
    {
        let v = chars_of(text);
        let mut i: usize = 0;
        assert(v@.take(0) =~= Seq::<char>::empty());
        while i < v.len()
            invariant
                self.wf(),
                i <= v.len(),
                v@ == text@,
                self.words() == with_chars(old(self).words(), v@.take(i as int)),
                self.words().len() <= old(self).words().len() + i,
                old(self).words().len() + text@.len() <= u32::MAX,
            decreases v.len() - i,
        {
            assert(v@.take(i as int + 1).drop_last() =~= v@.take(i as int));
            let c = v[i];
            if !crate::text::is_whitespace(c) {
                let s = string_of_char(c);
                self.add_token(s);
            }
            i = i + 1;
        }
        assert(v@.take(i as int) =~= v@);
    }
}

impl Default for Vocab {
    fn default() -> (r: Vocab)
        ensures
            r.wf(),
            r.words() == seq!["[PAD]"@, "[UNK]"@, "[BOS]"@, "[EOS]"@],
    {
        Vocab::new()
    }
}

proof fn lemma_index_entries(ws: Seq<Seq<char>>, w: Seq<char>)
    ensures
        ws.contains(w) <==> lookup(index_entries(ws), w) is Some,
{
    let e = index_entries(ws);
    crate::table::lemma_key_index(e, w);
    if ws.contains(w) {
        let i = choose|i: int| 0 <= i < ws.len() && ws[i] == w;
        assert(e[i].0 == w);
    }
    if lookup(e, w) is Some {
        assert(ws[key_index(e, w)] == w);
    }
}

/// The number of the one-character word `c` in an index: its number, or
/// that of `[UNK]`, or 1.
pub open spec fn char_token(index: Seq<(Seq<char>, u32)>, c: char) -> u32 {
    match lookup(index, seq![c]) {
        Some(i) => i,
        None => match lookup(index, "[UNK]"@) {
            Some(u) => u,
            None => 1,
        },
    }
}

/// `[BOS]`'s number (or 0) followed by the numbers of the non-whitespace
/// characters of `text`.
pub open spec fn vocab_tokens(index: Seq<(Seq<char>, u32)>, text: Seq<char>) -> Seq<u32>
    decreases text.len(),
{
    if text.len() == 0 {
        seq![match lookup(index, "[BOS]"@) {
            Some(b) => b,
            None => 0u32,
        }]
    } else {
        let p = vocab_tokens(index, text.drop_last());
        if spec_is_whitespace(text.last()) {
            p
        } else {
            p.push(char_token(index, text.last()))
        }
    }
}

/// Whether a word is shown when decoding: not a special token, or `[UNK]`.
pub open spec fn shown_word(w: Seq<char>) -> bool {
    !(w.len() > 0 && w[0] == '[') || w == "[UNK]"@
}

/// The words numbered `ids`, concatenated (see `Vocab::decode`).
pub open spec fn decoded_text(words: Seq<Seq<char>>, ids: Seq<u32>) -> Seq<char>
    decreases ids.len(),
{
    if ids.len() == 0 {
        Seq::empty()
    } else {
        let p = decoded_text(words, ids.drop_last());
        let id = ids.last();
        if id < words.len() && shown_word(words[id as int]) {
            p + words[id as int]
        } else {
            p
        }
    }
}

/// The words after adding each non-whitespace character of `text`, in
/// order, that is not already a word.
pub open spec fn with_chars(words: Seq<Seq<char>>, text: Seq<char>) -> Seq<Seq<char>>
    decreases text.len(),
{
    if text.len() == 0 {
        words
    } else {
        let p = with_chars(words, text.drop_last());
        let c = text.last();
        if spec_is_whitespace(c) || p.contains(seq![c]) {
            p
        } else {
            p.push(seq![c])
        }
    }
}

/// The configuration of the language model.
#[derive(Debug, Clone, Copy)]
pub struct ModelConfig {
    pub vocab_size: usize,
    pub embed_dim: usize,
    pub num_heads: usize,
    pub num_layers: usize,
    pub context_len: usize,
    pub hidden_dim: usize,
}

impl Default for ModelConfig {
    fn default() -> (r: ModelConfig)
        ensures
            r.vocab_size == 2000,
            r.embed_dim == 64,
            r.num_heads == 2,
            r.num_layers == 1,
            r.context_len == 64,
            r.hidden_dim == 256,
    {
        ModelConfig {
            vocab_size: 2000,
            embed_dim: 64,
            num_heads: 2,
            num_layers: 1,
            context_len: 64,
            hidden_dim: 256,
        }
    }
}

/// The size of the model's embedding table: the configured vocabulary size,
/// or the vocabulary's size plus 100 when that is larger.
pub fn model_vocab_size(config: &ModelConfig, vocab_len: usize) -> (r: usize)
    requires
        vocab_len + 100 <= usize::MAX,
    ensures
        r == (if config.vocab_size > vocab_len + 100 { config.vocab_size as int } else { vocab_len + 100 }),
{
    if config.vocab_size > vocab_len + 100 {
        config.vocab_size
    } else {
        vocab_len + 100
    }
}

} // verus!
