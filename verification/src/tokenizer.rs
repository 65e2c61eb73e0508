//! Character-level tokenizer: each distinct character of the training text is one token.
use std::collections::HashMap;
use vstd::prelude::*;

use crate::vocab::{build_vocabulary, vocabulary, strictly_increasing, lemma_increasing_len_bound,
    lemma_vocabulary_exists};

verus! {

/// What a tokenizer knows: the character-to-token table, the token-to-character
/// table and the size of its vocabulary.
pub struct TokenizerModel {
    pub encoder: Map<char, usize>,
    pub decoder: Map<usize, char>,
    pub vocab_size: nat,
}

/// Each character of `v` mapped to its position in `v`.
pub open spec fn position_map(v: Seq<char>) -> Map<char, usize> {
    Map::new(|c: char| v.contains(c), |c: char| v.index_of(c) as usize)
}

/// Each position of `v` mapped to the character there.
pub open spec fn entry_map(v: Seq<char>) -> Map<usize, char> {
    Map::new(|i: usize| (i as int) < v.len(), |i: usize| v[i as int])
}

impl TokenizerModel {
    /// The tokenizer before any fitting.
    pub open spec fn empty() -> TokenizerModel {
        TokenizerModel { encoder: Map::empty(), decoder: Map::empty(), vocab_size: 0 }
    }

    /// The tables built from a text whose sorted distinct characters are `v`:
    /// the `i`-th character and token `i` map to each other, and nothing else is known.
    pub open spec fn fitted_on(v: Seq<char>) -> TokenizerModel {
        TokenizerModel { encoder: position_map(v), decoder: entry_map(v), vocab_size: v.len() }
    }

    /// The tokens of the known characters of `text`, in order; unknown characters are skipped.
    pub open spec fn encode(self, text: Seq<char>) -> Seq<usize>
        decreases text.len(),
    {
        if text.len() == 0 {
            Seq::empty()
        } else {
            let rest = self.encode(text.drop_last());
            if self.encoder.contains_key(text.last()) {
                rest.push(self.encoder[text.last()])
            } else {
                rest
            }
        }
    }

    /// The characters of the known tokens, in order; unknown tokens are skipped.
    pub open spec fn decode(self, tokens: Seq<usize>) -> Seq<char>
        decreases tokens.len(),
    {
        if tokens.len() == 0 {
            Seq::empty()
        } else {
            let rest = self.decode(tokens.drop_last());
            if self.decoder.contains_key(tokens.last()) {
                rest.push(self.decoder[tokens.last()])
            } else {
                rest
            }
        }
    }

    /// Every known character decodes back from its own token.
    pub open spec fn is_consistent(self) -> bool {
        forall|c: char|
            #[trigger] self.encoder.contains_key(c) ==> {
                &&& self.decoder.contains_key(self.encoder[c])
                &&& self.decoder[self.encoder[c]] == c
            }
    }

    /// Character `c` has a token, and that token decodes back to `c`.
    pub open spec fn decodes_char(self, c: char) -> bool {
        &&& self.encoder.contains_key(c)
        &&& self.decoder.contains_key(self.encoder[c])
        &&& self.decoder[self.encoder[c]] == c
    }

    /// Every character of `text` has a token that decodes back to it.
    pub open spec fn decodes_back(self, text: Seq<char>) -> bool {
        forall|i: int| 0 <= i < text.len() ==> #[trigger] self.decodes_char(text[i])
    }

    /// Every character of `text` has a token.
    pub open spec fn knows_all(self, text: Seq<char>) -> bool {
        forall|i: int| 0 <= i < text.len() ==> #[trigger] self.encoder.contains_key(text[i])
    }
}

/// The Unicode code point of a character.
pub open spec fn code_point(c: char) -> u32 {
    c as u32
}

/// Character-level tokenizer.
///
/// Characters are keyed by their code point in the encoding table.
#[derive(Clone)]
pub struct CharTokenizer {
    char_to_idx: HashMap<u32, usize>,
    idx_to_char: HashMap<usize, char>,
    vocab_size: usize,
}

impl View for CharTokenizer {
    type V = TokenizerModel;

    closed spec fn view(&self) -> TokenizerModel {
        TokenizerModel {
            encoder: Map::new(
                |c: char| self.char_to_idx@.contains_key(code_point(c)),
                |c: char| self.char_to_idx@[code_point(c)],
            ),
            decoder: self.idx_to_char@,
            vocab_size: self.vocab_size as nat,
        }
    }
}

/// Appends one character to a string (`String::push`).
#[verifier::external_body]
fn push_char(s: &mut String, c: char)
    ensures
        final(s)@ == old(s)@.push(c),
{
    s.push(c);
}

impl CharTokenizer {
    /// Creates a new empty tokenizer.
    pub fn new() -> (t: Self)
        ensures
            t@ == TokenizerModel::empty(),
    {
        let t = CharTokenizer { char_to_idx: HashMap::new(), idx_to_char: HashMap::new(), vocab_size: 0 };
        assert(t@.encoder =~= Map::<char, usize>::empty());
        t
    }

    /// Builds the vocabulary from the given text: its distinct characters,
    /// sorted by code point, get the tokens `0..n` in that order, and the two
    /// mappings are built from this text alone.
    pub fn fit(&mut self, text: &str)
        ensures
            final(self)@ == TokenizerModel::fitted_on(vocabulary(text@)),
    {
        let chars = build_vocabulary(text);
        self.char_to_idx = HashMap::new();
        self.idx_to_char = HashMap::new();
        proof {
            lemma_vocabulary_exists(text@);
            assert(self@.encoder =~= position_map(chars@.take(0)));
            assert(self@.decoder =~= entry_map(chars@.take(0)));
        }
        let n = chars.len();
        for idx in 0..n
            invariant
                n == chars.len(),
                chars@ == vocabulary(text@),
                strictly_increasing(chars@),
                self@.encoder == position_map(chars@.take(idx as int)),
                self@.decoder == entry_map(chars@.take(idx as int)),
        {
            let ch = chars[idx];
            let ghost before = self@;
            self.char_to_idx.insert(ch as u32, idx);
            self.idx_to_char.insert(idx, ch);
            proof {
                let prefix = chars@.take(idx as int);
                let next = chars@.take(idx + 1);
                lemma_index_in_increasing(next, idx as int);
                assert forall|c: char| #[trigger] position_map(prefix).contains_key(c) implies
                    c != ch && position_map(next).contains_key(c)
                    && position_map(next)[c] == position_map(prefix)[c] by {
                    let i = choose|i: int| 0 <= i < prefix.len() && prefix[i] == c;
                    assert(next[i] == c);
                    lemma_index_in_increasing(prefix, i);
                    lemma_index_in_increasing(next, i);
                    assert(next[i] != next[idx as int]);
                }
                assert forall|c: char| #[trigger] position_map(next).contains_key(c) implies
                    c == ch || position_map(prefix).contains_key(c) by {
                    let i = choose|i: int| 0 <= i < next.len() && next[i] == c;
                    if i < idx {
                        assert(prefix[i] == c);
                    }
                }
                assert(position_map(next) =~= position_map(prefix).insert(ch, idx));
                assert(entry_map(next) =~= entry_map(prefix).insert(idx, ch));
                assert forall|c: char| #[trigger] code_point(c) == code_point(ch) implies c == ch by {
                    lemma_code_point_injective(c, ch);
                }
                assert(self@.encoder =~= before.encoder.insert(ch, idx));
                assert(self@.encoder =~= position_map(next));
                assert(self@.decoder =~= entry_map(next));
            }
        }
        self.vocab_size = n;
        proof {
            assert(chars@.take(n as int) =~= chars@);
        }
    }

    /// Converts text to its tokens, skipping characters outside the vocabulary.
    pub fn encode(&self, text: &str) -> (tokens: Vec<usize>)
        ensures
            tokens@ == self@.encode(text@),
    {
        let mut out: Vec<usize> = Vec::new();
        for c in it: text.chars()
            invariant
                it.seq() == text@,
                out@ == self@.encode(text@.take(it.index() as int)),
        {
            let ghost k = it.index() as int;
            proof {
                assert(text@.take(k + 1).drop_last() =~= text@.take(k));
            }
            match self.char_to_idx.get(&(c as u32)) {
                Some(i) => {
                    out.push(*i);
                },
                None => {},
            }
        }
        proof {
            assert(text@.take(text@.len() as int) =~= text@);
        }
        out
    }

    /// Converts tokens back to text, skipping tokens outside the vocabulary.
    pub fn decode(&self, tokens: &[usize]) -> (text: String)
        ensures
            text@ == self@.decode(tokens@),
    {
        let mut out = String::new();
        for k in 0..tokens.len()
            invariant
                out@ == self@.decode(tokens@.take(k as int)),
        {
            proof {
                assert(tokens@.take(k + 1).drop_last() =~= tokens@.take(k as int));
            }
            match self.idx_to_char.get(&tokens[k]) {
                Some(c) => {
                    push_char(&mut out, *c);
                },
                None => {},
            }
        }
        proof {
            assert(tokens@.take(tokens@.len() as int) =~= tokens@);
        }
        out
    }

    /// Returns the vocabulary size.
    pub fn vocab_size(&self) -> (n: usize)
        ensures
            n == self@.vocab_size,
    {
        self.vocab_size
    }
}

impl Default for CharTokenizer {
    fn default() -> (t: Self)
        ensures
            t@ == TokenizerModel::empty(),
    {
        Self::new()
    }
}

/// Distinct characters have distinct code points.
pub proof fn lemma_code_point_injective(c: char, d: char)
    requires
        code_point(c) == code_point(d),
    ensures
        c == d,
{
}

/// In a strictly increasing sequence, the position of `v[i]` is `i`.
pub proof fn lemma_index_in_increasing(v: Seq<char>, i: int)
    requires
        strictly_increasing(v),
        0 <= i < v.len(),
    ensures
        v.contains(v[i]),
        v.index_of(v[i]) == i,
{
    assert(v.contains(v[i])) by {
        assert(0 <= i < v.len() && v[i] == v[i]);
    }
    let j = v.index_of(v[i]);
    if j < i {
        assert(v[j] < v[i]);
    } else if j > i {
        assert(v[i] < v[j]);
    }
}

/// Round trip: when every character of `s` has a token that decodes back to
/// it, decoding the encoding of `s` gives `s` back (one token per character).
pub proof fn lemma_decode_encode_roundtrip(m: TokenizerModel, s: Seq<char>)
    requires
        m.decodes_back(s),
    ensures
        m.encode(s).len() == s.len(),
        m.decode(m.encode(s)) == s,
    decreases s.len(),
{
    if s.len() > 0 {
        let rest = s.drop_last();
        assert(m.decodes_back(rest)) by {
            assert forall|i: int| 0 <= i < rest.len() implies #[trigger] m.decodes_char(rest[i]) by {
                assert(rest[i] == s[i]);
            }
        }
        lemma_decode_encode_roundtrip(m, rest);
        assert(m.decodes_char(s[s.len() - 1]));
        let toks = m.encode(s);
        assert(toks == m.encode(rest).push(m.encoder[s.last()]));
        assert(toks.drop_last() =~= m.encode(rest));
        assert(m.decode(toks) =~= rest.push(s.last()));
        assert(rest.push(s.last()) =~= s);
    }
}

/// After fitting on `text` the tokenizer knows exactly the characters of `text`
/// and the tokens `0..vocab_size`, and the two mappings are inverse to each other.
pub proof fn lemma_fit_consistent(text: Seq<char>)
    ensures
        TokenizerModel::fitted_on(vocabulary(text)).is_consistent(),
        TokenizerModel::fitted_on(vocabulary(text)).encoder.dom() == text.to_set(),
        TokenizerModel::fitted_on(vocabulary(text)).knows_all(text),
        forall|t: usize| #[trigger] TokenizerModel::fitted_on(vocabulary(text)).decoder.contains_key(t)
            <==> (t as nat) < TokenizerModel::fitted_on(vocabulary(text)).vocab_size,
        forall|t: usize| #[trigger] TokenizerModel::fitted_on(vocabulary(text)).decoder.contains_key(t) ==> {
            let f = TokenizerModel::fitted_on(vocabulary(text));
            &&& f.encoder.contains_key(f.decoder[t])
            &&& f.encoder[f.decoder[t]] == t
        },
{
    lemma_vocabulary_exists(text);
    let v = vocabulary(text);
    let f = TokenizerModel::fitted_on(v);
    lemma_increasing_len_bound(v);
    assert forall|c: char| #[trigger] f.encoder.contains_key(c) implies
        f.decoder.contains_key(f.encoder[c]) && f.decoder[f.encoder[c]] == c by {
        let i = choose|i: int| 0 <= i < v.len() && v[i] == c;
        lemma_index_in_increasing(v, i);
        assert(f.encoder[c] == i as usize);
        assert(entry_map(v).contains_key(i as usize));
    }
    assert forall|c: char| f.encoder.contains_key(c) <==> text.to_set().contains(c) by {
        if text.to_set().contains(c) {
            assert(v.to_set().contains(c));
        }
        if f.encoder.contains_key(c) {
            assert(v.to_set().contains(c));
        }
    }
    assert(f.encoder.dom() =~= text.to_set());
    assert forall|i: int| 0 <= i < text.len() implies #[trigger] f.encoder.contains_key(text[i]) by {
        assert(text.to_set().contains(text[i]));
    }
    assert forall|t: usize| #[trigger] f.decoder.contains_key(t) implies
        f.encoder.contains_key(f.decoder[t]) && f.encoder[f.decoder[t]] == t by {
        lemma_index_in_increasing(v, t as int);
        assert(v.contains(v[t as int]));
    }
}

/// Round trip after fitting: once fitted on `text`, the tokenizer decodes the
/// encoding of any text made of characters of `text` back to that text.
pub proof fn lemma_fit_roundtrip(text: Seq<char>, s: Seq<char>)
    requires
        forall|i: int| 0 <= i < s.len() ==> text.contains(#[trigger] s[i]),
    ensures
        ({
            let f = TokenizerModel::fitted_on(vocabulary(text));
            f.decode(f.encode(s)) == s
        }),
{
    let f = TokenizerModel::fitted_on(vocabulary(text));
    lemma_fit_consistent(text);
    assert forall|i: int| 0 <= i < s.len() implies #[trigger] f.decodes_char(s[i]) by {
        assert(text.contains(s[i]));
        assert(text.to_set().contains(s[i]));
        assert(f.encoder.contains_key(s[i]));
    }
    lemma_decode_encode_roundtrip(f, s);
}

/// After fitting, every token that `encode` produces is below the vocabulary size.
pub proof fn lemma_fit_tokens_in_range(text: Seq<char>, s: Seq<char>)
    ensures
        ({
            let f = TokenizerModel::fitted_on(vocabulary(text));
            forall|i: int| 0 <= i < f.encode(s).len() ==> #[trigger] f.encode(s)[i] < f.vocab_size
        }),
{
    lemma_vocabulary_exists(text);
    let v = vocabulary(text);
    let f = TokenizerModel::fitted_on(v);
    assert forall|c: char| #[trigger] f.encoder.contains_key(c) implies f.encoder[c] < f.vocab_size by {
        let i = choose|i: int| 0 <= i < v.len() && v[i] == c;
        lemma_index_in_increasing(v, i);
        lemma_increasing_len_bound(v);
    }
    lemma_encode_bounded(f, s, f.vocab_size);
}

/// Tokens of `encode` come from the encoding table.
proof fn lemma_encode_bounded(m: TokenizerModel, s: Seq<char>, bound: nat)
    requires
        forall|c: char| #[trigger] m.encoder.contains_key(c) ==> m.encoder[c] < bound,
    ensures
        forall|i: int| 0 <= i < m.encode(s).len() ==> #[trigger] m.encode(s)[i] < bound,
    decreases s.len(),
{
    if s.len() > 0 {
        let rest = m.encode(s.drop_last());
        lemma_encode_bounded(m, s.drop_last(), bound);
        if m.encoder.contains_key(s.last()) {
            let full = rest.push(m.encoder[s.last()]);
            assert(m.encode(s) == full);
            assert forall|i: int| 0 <= i < full.len() implies #[trigger] full[i] < bound by {
                if i < rest.len() {
                    assert(full[i] == rest[i]);
                }
            }
        }
    }
}

/// The vocabulary size after fitting is the number of distinct characters of the text.
pub proof fn lemma_fit_vocab_size(text: Seq<char>)
    ensures
        TokenizerModel::fitted_on(vocabulary(text)).vocab_size == text.to_set().len(),
{
    lemma_vocabulary_exists(text);
    let v = vocabulary(text);
    assert(v.no_duplicates()) by {
        assert forall|i: int, j: int| 0 <= i < v.len() && 0 <= j < v.len() && i != j implies v[i] != v[j] by {
            if i < j {
                assert(v[i] < v[j]);
            } else {
                assert(v[j] < v[i]);
            }
        }
    }
    v.unique_seq_to_set();
}

} // verus!
