//! A word-level tokenizer: every distinct normalised word of a training text
//! gets an integer id, after four special tokens that always come first.
use vstd::prelude::*;

use crate::text::{
    is_ascii_lower_letter, is_ascii_text, lemma_normalize_lower_word, lemma_raw_token_alphabetic,
    lemma_raw_token_ascii, lemma_scan_append_word, nonempty_pred, normalize_word, raw_tokens,
    scan_words, spec_is_alphabetic, spec_is_whitespace, split_whitespace, strs, tokenize_raw,
};

verus! {

/// The filler token used to pad short sentences.
pub open spec fn pad_word() -> Seq<char> {
    seq!['<', 'p', 'a', 'd', '>']
}

/// The token that stands for every word the vocabulary does not know.
pub open spec fn unk_word() -> Seq<char> {
    seq!['<', 'u', 'n', 'k', '>']
}

/// The beginning-of-sentence marker.
pub open spec fn bos_word() -> Seq<char> {
    seq!['<', 'b', 'o', 's', '>']
}

/// The end-of-sentence marker.
pub open spec fn eos_word() -> Seq<char> {
    seq!['<', 'e', 'o', 's', '>']
}

/// The special tokens, in the order in which a new vocabulary lists them.
pub open spec fn special_words() -> Seq<Seq<char>> {
    seq![pad_word(), unk_word(), bos_word(), eos_word()]
}

/// The id of `w` in the word list `ws`: its last position, or -1 when absent.
pub open spec fn word_id(ws: Seq<Seq<char>>, w: Seq<char>) -> int
    decreases ws.len(),
{
    if ws.len() == 0 {
        -1
    } else if ws.last() == w {
        ws.len() - 1
    } else {
        word_id(ws.drop_last(), w)
    }
}

/// A word list that a tokenizer can work with: it holds every special token.
pub open spec fn has_specials(ws: Seq<Seq<char>>) -> bool {
    &&& ws.contains(pad_word())
    &&& ws.contains(unk_word())
    &&& ws.contains(bos_word())
    &&& ws.contains(eos_word())
}

/// The vocabulary built from the tokens `toks`: the special tokens, then each
/// token the first time it occurs.
pub open spec fn build_vocab(toks: Seq<Seq<char>>) -> Seq<Seq<char>>
    decreases toks.len(),
{
    if toks.len() == 0 {
        special_words()
    } else {
        let v = build_vocab(toks.drop_last());
        if v.contains(toks.last()) {
            v
        } else {
            v.push(toks.last())
        }
    }
}

/// The id a word encodes to: its own id when known, else the id of `<unk>`.
pub open spec fn token_id(ws: Seq<Seq<char>>, w: Seq<char>) -> int {
    if word_id(ws, w) >= 0 {
        word_id(ws, w)
    } else {
        word_id(ws, unk_word())
    }
}

/// The ids of the normalised words of `text`.
pub open spec fn encode_ids(ws: Seq<Seq<char>>, text: Seq<char>) -> Seq<usize> {
    raw_tokens(text).map_values(|w: Seq<char>| token_id(ws, w) as usize)
}

/// Whether telling if `id` is a marker needs no marker the list lacks: the
/// ids of `<pad>`, `<bos>` and `<eos>` are looked up in turn, each only while
/// `id` differs from the ones before.
pub open spec fn marker_test_defined(ws: Seq<Seq<char>>, id: usize) -> bool {
    &&& ws.contains(pad_word())
    &&& (id == word_id(ws, pad_word()) || (ws.contains(bos_word()) && (id == word_id(
        ws,
        bos_word(),
    ) || ws.contains(eos_word()))))
}

/// Whether `id` is the id of `<pad>`, `<bos>` or `<eos>`, which decoding leaves out.
pub open spec fn is_marker(ws: Seq<Seq<char>>, id: usize) -> bool {
    id == word_id(ws, pad_word()) || id == word_id(ws, bos_word()) || id == word_id(ws, eos_word())
}

pub open spec fn keep_pred(ws: Seq<Seq<char>>) -> spec_fn(usize) -> bool {
    |id: usize| !is_marker(ws, id)
}

/// The word an id decodes to: the vocabulary entry, or `<unk>` when out of range.
pub open spec fn word_or_unk(ws: Seq<Seq<char>>, id: usize) -> Seq<char> {
    if id < ws.len() {
        ws[id as int]
    } else {
        unk_word()
    }
}

/// The words joined by single spaces.
pub open spec fn join_words(parts: Seq<Seq<char>>) -> Seq<char>
    decreases parts.len(),
{
    if parts.len() == 0 {
        Seq::empty()
    } else if parts.len() == 1 {
        parts[0]
    } else {
        join_words(parts.drop_last()) + seq![' '] + parts.last()
    }
}

/// The text that `ids` decode to: the words of the ids that are not markers, joined by spaces.
pub open spec fn decode_text(ws: Seq<Seq<char>>, ids: Seq<usize>) -> Seq<char> {
    join_words(ids.filter(keep_pred(ws)).map_values(|id: usize| word_or_unk(ws, id)))
}

pub proof fn lemma_word_id(ws: Seq<Seq<char>>, w: Seq<char>)
    ensures
        -1 <= word_id(ws, w) < ws.len(),
        word_id(ws, w) >= 0 <==> ws.contains(w),
        word_id(ws, w) >= 0 ==> ws[word_id(ws, w)] == w,
        forall|j: int| word_id(ws, w) < j < ws.len() ==> ws[j] != w,
    decreases ws.len(),
{
    if ws.len() > 0 {
        lemma_word_id(ws.drop_last(), w);
        if ws.last() != w {
            if ws.drop_last().contains(w) {
                let j = choose|j: int| 0 <= j < ws.drop_last().len() && ws.drop_last()[j] == w;
                assert(ws[j] == w);
            }
            if ws.contains(w) {
                let j = choose|j: int| 0 <= j < ws.len() && ws[j] == w;
                assert(ws.drop_last()[j] == w);
            }
            assert forall|j: int| word_id(ws, w) < j < ws.len() implies ws[j] != w by {
                if j < ws.len() - 1 {
                    assert(ws.drop_last()[j] == ws[j]);
                }
            }
        } else {
            assert(ws[ws.len() - 1] == w);
        }
    }
}

/// In a list without repeated words, the id of a word is its position.
pub proof fn lemma_word_id_unique(ws: Seq<Seq<char>>, i: int)
    requires
        ws.no_duplicates(),
        0 <= i < ws.len(),
    ensures
        word_id(ws, ws[i]) == i,
{
    lemma_word_id(ws, ws[i]);
}

/// The position of the last occurrence of `w` in `words`, if any.
fn find_last(words: &Vec<String>, w: &String) -> (r: Option<usize>)
    ensures
        match r {
            Some(i) => i == word_id(strs(words@), w@) && i < words@.len(),
            None => word_id(strs(words@), w@) == -1,
        },
{
    let ghost ws = strs(words@);
    let mut i = words.len();
    proof {
        assert(ws.take(i as int) =~= ws);
    }
    while i > 0
        invariant
            i <= words.len(),
            ws.len() == words@.len(),
            ws == strs(words@),
            word_id(ws, w@) == word_id(ws.take(i as int), w@),
        decreases i,
    {
        proof {
            assert(ws.take(i as int).drop_last() =~= ws.take(i - 1));
        }
        if words[i - 1] == *w {
            proof {
                assert(ws[i - 1] == w@);
            }
            return Some(i - 1);
        }
        i = i - 1;
    }
    None
}

fn pad_string() -> (r: String)
    ensures
        r@ == pad_word(),
{
    let s = String::from_str("<pad>");
    proof {
        reveal_strlit("<pad>");
        assert(s@ =~= pad_word());
    }
    s
}

fn unk_string() -> (r: String)
    ensures
        r@ == unk_word(),
{
    let s = String::from_str("<unk>");
    proof {
        reveal_strlit("<unk>");
        assert(s@ =~= unk_word());
    }
    s
}

fn bos_string() -> (r: String)
    ensures
        r@ == bos_word(),
{
    let s = String::from_str("<bos>");
    proof {
        reveal_strlit("<bos>");
        assert(s@ =~= bos_word());
    }
    s
}

fn eos_string() -> (r: String)
    ensures
        r@ == eos_word(),
{
    let s = String::from_str("<eos>");
    proof {
        reveal_strlit("<eos>");
        assert(s@ =~= eos_word());
    }
    s
}

/// Why a vocabulary could not be loaded.
#[derive(Debug, Clone, Copy, PartialEq, Eq, Structural)]
pub enum VocabError {
    /// The text is not a JSON array of strings.
    InvalidJson,
}

/// Maps words to integer ids and back.
///
/// The ids are positions in the word list, and a word's id is found by searching
/// the list from its end: keyed by `String`, a hash map's lookups carry no
/// specification that Verus can use, whereas the search is proved.
#[derive(Debug)]
pub struct Tokenizer {
    id_to_word: Vec<String>,
}

impl View for Tokenizer {
    type V = Seq<Seq<char>>;

    /// The word list: the word with id `i` is at position `i`.
    closed spec fn view(&self) -> Seq<Seq<char>> {
        strs(self.id_to_word@)
    }
}


impl Clone for Tokenizer {
    /// A tokenizer over a copy of the same word list.
    fn clone(&self) -> (r: Self)
        ensures
            r@ == self@,
    {
        let mut words: Vec<String> = Vec::new();
        for i in 0..self.id_to_word.len()
            invariant
                strs(words@) == strs(self.id_to_word@.take(i as int)),
        {
            let ghost before = words@;
            words.push(self.id_to_word[i].clone());
            proof {
                assert(strs(words@) =~= strs(before).push(self.id_to_word@[i as int]@));
                assert(self.id_to_word@.take(i + 1) =~= self.id_to_word@.take(i as int).push(
                    self.id_to_word@[i as int],
                ));
                assert(strs(self.id_to_word@.take(i + 1)) =~= strs(self.id_to_word@.take(i as int)).push(
                    self.id_to_word@[i as int]@,
                ));
            }
        }
        proof {
            assert(self.id_to_word@.take(self.id_to_word@.len() as int) =~= self.id_to_word@);
        }
        Tokenizer { id_to_word: words }
    }
}

/// The vocabulary built from `toks` lists the special tokens first and holds every token.
proof fn lemma_build_vocab(toks: Seq<Seq<char>>)
    ensures
        has_specials(build_vocab(toks)),
        build_vocab(toks).len() >= 4,
        build_vocab(toks).take(4) == special_words(),
    decreases toks.len(),
{
    if toks.len() == 0 {
        assert(special_words()[0] == pad_word());
        assert(special_words()[1] == unk_word());
        assert(special_words()[2] == bos_word());
        assert(special_words()[3] == eos_word());
        assert(special_words().take(4) =~= special_words());
    } else {
        lemma_build_vocab(toks.drop_last());
        let v = build_vocab(toks.drop_last());
        if !v.contains(toks.last()) {
            assert(v.push(toks.last()).take(4) =~= v.take(4));
            assert(v.push(toks.last())[v.len() as int] == toks.last());
            assert forall|w: Seq<char>| v.contains(w) implies v.push(toks.last()).contains(w) by {
                let j = choose|j: int| 0 <= j < v.len() && v[j] == w;
                assert(v.push(toks.last())[j] == w);
            }
        }
    }
}

impl Tokenizer {
    /// Builds the vocabulary of `text`: the ids 0 to 3 go to `<pad>`, `<unk>`,
    /// `<bos>` and `<eos>`, then every distinct normalised word of the text gets
    /// the next id, in the order in which the words first occur.
    pub fn build_from_text(text: &str) -> (r: Tokenizer)
        ensures
            r@ == build_vocab(raw_tokens(text@)),
    {
        let toks = tokenize_raw(text);
        let ghost raw = strs(toks@);
        let mut words: Vec<String> = Vec::new();
        words.push(pad_string());
        words.push(unk_string());
        words.push(bos_string());
        words.push(eos_string());
        proof {
            assert(strs(words@) =~= build_vocab(raw.take(0)));
        }
        for i in 0..toks.len()
            invariant
                raw == strs(toks@),
                strs(words@) == build_vocab(raw.take(i as int)),
        {
            proof {
                assert(raw.take(i + 1).drop_last() =~= raw.take(i as int));
                assert(raw.take(i + 1).last() == toks@[i as int]@);
                lemma_word_id(strs(words@), toks@[i as int]@);
            }
            if find_last(&words, &toks[i]).is_none() {
                let ghost before = words@;
                words.push(toks[i].clone());
                proof {
                    assert(strs(words@) =~= strs(before).push(toks@[i as int]@));
                }
            }
        }
        proof {
            assert(raw.take(toks.len() as int) =~= raw);
            lemma_build_vocab(raw);
        }
        Tokenizer { id_to_word: words }
    }

    /// Builds a tokenizer over a saved word list, in which the word with id `i`
    /// is at position `i`; when a word occurs twice, its id is its last position.
    pub fn from_words(words: Vec<String>) -> (r: Tokenizer)
        ensures
            r@ == strs(words@),
    {
        Tokenizer { id_to_word: words }
    }

    /// The word list: the word with id `i` is at position `i`.
    pub fn words(&self) -> (r: &Vec<String>)
        ensures
            strs(r@) == self@,
    {
        &self.id_to_word
    }

    /// The number of words in the vocabulary, special tokens included.
    pub fn vocab_size(&self) -> (r: usize)
        ensures
            r == self@.len(),
    {
        self.id_to_word.len()
    }

    /// The id of `word`, if the vocabulary holds it.
    pub fn lookup(&self, word: &String) -> (r: Option<usize>)
        ensures
            match r {
                Some(i) => i == word_id(self@, word@) && i < self@.len(),
                None => word_id(self@, word@) == -1,
            },
    {
        find_last(&self.id_to_word, word)
    }

    /// The id of a word that the vocabulary is known to hold.
    fn known_id(&self, word: &String) -> (r: usize)
        requires
            self@.contains(word@),
        ensures
            r == word_id(self@, word@),
            r < self@.len(),
    {
        proof {
            lemma_word_id(self@, word@);
        }
        match find_last(&self.id_to_word, word) {
            Some(id) => id,
            None => 0,
        }
    }

    /// The id of `<pad>`.
    pub fn pad_id(&self) -> (r: usize)
        requires
            self@.contains(pad_word()),
        ensures
            r == word_id(self@, pad_word()),
            r < self@.len(),
    {
        let w = pad_string();
        self.known_id(&w)
    }

    /// The id of `<unk>`.
    pub fn unk_id(&self) -> (r: usize)
        requires
            self@.contains(unk_word()),
        ensures
            r == word_id(self@, unk_word()),
            r < self@.len(),
    {
        let w = unk_string();
        self.known_id(&w)
    }

    /// The id of `<bos>`.
    pub fn bos_id(&self) -> (r: usize)
        requires
            self@.contains(bos_word()),
        ensures
            r == word_id(self@, bos_word()),
            r < self@.len(),
    {
        let w = bos_string();
        self.known_id(&w)
    }

    /// The id of `<eos>`.
    pub fn eos_id(&self) -> (r: usize)
        requires
            self@.contains(eos_word()),
        ensures
            r == word_id(self@, eos_word()),
            r < self@.len(),
    {
        let w = eos_string();
        self.known_id(&w)
    }

    /// Turns a text into the ids of its normalised words; a word the vocabulary
    /// does not know becomes the id of `<unk>`.
    pub fn encode(&self, text: &str) -> (r: Vec<usize>)
        requires
            raw_tokens(text@).len() > 0 ==> self@.contains(unk_word()),
        ensures
            r@ == encode_ids(self@, text@),
            forall|k: int| 0 <= k < r@.len() ==> r@[k] < self@.len(),
    {
        let toks = tokenize_raw(text);
        let ghost raw = strs(toks@);
        let ghost ws = self@;
        let ghost f = |w: Seq<char>| token_id(ws, w) as usize;
        let mut out: Vec<usize> = Vec::new();
        for i in 0..toks.len()
            invariant
                raw == strs(toks@),
                raw == raw_tokens(text@),
                ws == self@,
                f == (|w: Seq<char>| token_id(ws, w) as usize),
                raw.len() > 0 ==> ws.contains(unk_word()),
                out@ == raw.take(i as int).map_values(f),
                forall|k: int| 0 <= k < out@.len() ==> out@[k] < ws.len(),
        {
            proof {
                assert(raw.take(i + 1) =~= raw.take(i as int).push(raw[i as int]));
                raw.take(i as int).lemma_push_map_commute(f, raw[i as int]);
                lemma_word_id(ws, raw[i as int]);
            }
            let unk = self.unk_id();
            let id = match self.lookup(&toks[i]) {
                Some(id) => id,
                None => unk,
            };
            out.push(id);
        }
        proof {
            assert(raw.take(toks.len() as int) =~= raw);
        }
        out
    }

    /// Turns ids back into text: the ids of `<pad>`, `<bos>` and `<eos>` are
    /// left out, an id past the vocabulary reads as `<unk>`, and the words are
    /// joined by single spaces.
    pub fn decode(&self, ids: &[usize]) -> (r: String)
        requires
            forall|k: int| 0 <= k < ids@.len() ==> marker_test_defined(self@, #[trigger] ids@[k]),
        ensures
            r@ == decode_text(self@, ids@),
    {
        let ghost ws = self@;
        let ghost keep = keep_pred(ws);
        let ghost g = |id: usize| word_or_unk(ws, id);
        let mut out = String::new();
        let ghost mut parts: Seq<Seq<char>> = Seq::empty();
        let mut any = false;
        let space = String::from_str(" ");
        proof {
            reveal_strlit(" ");
            assert(space@ =~= seq![' ']);
            reveal(Seq::filter);
            assert(ids@.take(0).filter(keep).map_values(g) =~= parts);
        }
        for i in 0..ids.len()
            invariant
                ws == self@,
                keep == keep_pred(ws),
                g == (|id: usize| word_or_unk(ws, id)),
                forall|k: int| 0 <= k < ids@.len() ==> marker_test_defined(ws, #[trigger] ids@[k]),
                space@ == seq![' '],
                parts == ids@.take(i as int).filter(keep).map_values(g),
                out@ == join_words(parts),
                any == (parts.len() > 0),
        {
            let id = ids[i];
            proof {
                assert(ids@.take(i + 1) =~= ids@.take(i as int).push(id));
                crate::text::lemma_filter_push(ids@.take(i as int), id, keep);
                ids@.take(i as int).filter(keep).lemma_push_map_commute(g, id);
            }
            assert(marker_test_defined(ws, ids@[i as int]));
            if id != self.pad_id() && id != self.bos_id() && id != self.eos_id() {
                let ghost before = out@;
                if id < self.id_to_word.len() {
                    if any {
                        out.append(space.as_str());
                    }
                    out.append(self.id_to_word[id].as_str());
                } else {
                    let unk = unk_string();
                    if any {
                        out.append(space.as_str());
                    }
                    out.append(unk.as_str());
                }
                proof {
                    let np = parts.push(g(id));
                    assert(np.drop_last() =~= parts);
                    assert(out@ =~= join_words(np));
                    parts = np;
                }
                any = true;
            }
        }
        proof {
            assert(ids@.take(ids@.len() as int) =~= ids@);
        }
        out
    }
}

#[verifier::external_type_specification]
#[verifier::external_body]
pub struct ExJsonError(serde_json::Error);

/// The pretty-printed JSON array of the given strings, as `serde_json::to_string_pretty`
/// writes it.
pub uninterp spec fn spec_json_of_strings(words: Seq<Seq<char>>) -> Seq<char>;

/// The strings of a JSON array, as `serde_json::from_str::<Vec<String>>` reads them
/// (`None` where it reports an error).
pub uninterp spec fn spec_strings_of_json(text: Seq<char>) -> Option<Seq<Seq<char>>>;

/// Calls `serde_json::to_string_pretty` on a list of strings. It succeeds (its
/// source fails only for a `Serialize` impl that fails or a map whose keys are not
/// strings, and a list of strings is neither) and returns the named text for the list.
#[verifier::external_body]
fn strings_to_json(words: &Vec<String>) -> (r: Result<String, serde_json::Error>)
    ensures
        r is Ok,
        r matches Ok(t) ==> t@ == spec_json_of_strings(strs(words@)),
{
    serde_json::to_string_pretty(words)
}

/// Calls `serde_json::from_str` for a `Vec<String>`; whether it succeeds and the
/// strings it returns are the named result for that text.
#[verifier::external_body]
fn json_to_strings(text: &str) -> (r: Result<Vec<String>, serde_json::Error>)
    ensures
        r is Ok <==> spec_strings_of_json(text@) is Some,
        r matches Ok(v) ==> spec_strings_of_json(text@) == Some(strs(v@)),
{
    serde_json::from_str(text)
}

impl Tokenizer {
    /// The word list as a pretty-printed JSON array of strings, ready to be saved.
    pub fn vocabulary_json(&self) -> (r: String)
        ensures
            r@ == spec_json_of_strings(self@),
    {
        match strings_to_json(&self.id_to_word) {
            Ok(t) => t,
            Err(_) => String::new(),
        }
    }

    /// Rebuilds a tokenizer from a saved JSON array of words (see `from_words`).
    pub fn from_vocabulary_json(text: &str) -> (r: Result<Tokenizer, VocabError>)
        ensures
            match spec_strings_of_json(text@) {
                None => r == Err::<Tokenizer, VocabError>(VocabError::InvalidJson),
                Some(ws) => r is Ok && r->Ok_0@ == ws,
            },
    {
        match json_to_strings(text) {
            Ok(words) => Ok(Tokenizer::from_words(words)),
            Err(_) => Err(VocabError::InvalidJson),
        }
    }
}

proof fn lemma_specials_distinct()
    ensures
        special_words().no_duplicates(),
        special_words()[0] == pad_word(),
        special_words()[1] == unk_word(),
        special_words()[2] == bos_word(),
        special_words()[3] == eos_word(),
{
    assert(pad_word()[1] != unk_word()[1]);
    assert(pad_word()[1] != bos_word()[1]);
    assert(pad_word()[1] != eos_word()[1]);
    assert(unk_word()[1] != bos_word()[1]);
    assert(unk_word()[1] != eos_word()[1]);
    assert(bos_word()[1] != eos_word()[1]);
}

proof fn lemma_build_vocab_content(toks: Seq<Seq<char>>)
    ensures
        build_vocab(toks).no_duplicates(),
        forall|k: int| 0 <= k < toks.len() ==> build_vocab(toks).contains(#[trigger] toks[k]),
        forall|i: int|
            4 <= i < build_vocab(toks).len() ==> toks.contains(#[trigger] build_vocab(toks)[i]),
    decreases toks.len(),
{
    lemma_build_vocab(toks);
    if toks.len() == 0 {
        lemma_specials_distinct();
    } else {
        let t = toks.drop_last();
        lemma_build_vocab_content(t);
        lemma_build_vocab(t);
        let v = build_vocab(t);
        let x = toks.last();
        assert forall|k: int| 0 <= k < toks.len() implies build_vocab(toks).contains(
            #[trigger] toks[k],
        ) by {
            if k < toks.len() - 1 {
                assert(t[k] == toks[k]);
                let j = choose|j: int| 0 <= j < v.len() && v[j] == t[k];
                if !v.contains(x) {
                    assert(v.push(x)[j] == toks[k]);
                }
            } else {
                if !v.contains(x) {
                    assert(v.push(x)[v.len() as int] == x);
                }
            }
        }
        assert forall|i: int| 4 <= i < build_vocab(toks).len() implies toks.contains(
            #[trigger] build_vocab(toks)[i],
        ) by {
            if i < v.len() {
                assert(build_vocab(toks)[i] == v[i]);
                let j = choose|j: int| 0 <= j < t.len() && t[j] == v[i];
                assert(toks[j] == t[j]);
            } else {
                assert(toks[toks.len() - 1] == x);
            }
        }
    }
}

/// A vocabulary built from a text gives the ids 0, 1, 2 and 3 to `<pad>`, `<unk>`,
/// `<bos>` and `<eos>`, holds no word twice, holds every normalised word of the
/// text, and holds no other word beyond the special tokens.
pub proof fn law_vocabulary_layout(text: Seq<char>)
    ensures
        build_vocab(raw_tokens(text)).take(4) == special_words(),
        build_vocab(raw_tokens(text)).no_duplicates(),
        word_id(build_vocab(raw_tokens(text)), pad_word()) == 0,
        word_id(build_vocab(raw_tokens(text)), unk_word()) == 1,
        word_id(build_vocab(raw_tokens(text)), bos_word()) == 2,
        word_id(build_vocab(raw_tokens(text)), eos_word()) == 3,
        forall|k: int|
            0 <= k < raw_tokens(text).len() ==> build_vocab(raw_tokens(text)).contains(
                #[trigger] raw_tokens(text)[k],
            ),
        forall|i: int|
            4 <= i < build_vocab(raw_tokens(text)).len() ==> raw_tokens(text).contains(
                #[trigger] build_vocab(raw_tokens(text))[i],
            ),
{
    let toks = raw_tokens(text);
    let v = build_vocab(toks);
    lemma_build_vocab(toks);
    lemma_build_vocab_content(toks);
    lemma_specials_distinct();
    assert(v[0] == v.take(4)[0]);
    assert(v[1] == v.take(4)[1]);
    assert(v[2] == v.take(4)[2]);
    assert(v[3] == v.take(4)[3]);
    lemma_word_id_unique(v, 0);
    lemma_word_id_unique(v, 1);
    lemma_word_id_unique(v, 2);
    lemma_word_id_unique(v, 3);
}

proof fn lemma_filter_all<A>(s: Seq<A>, p: spec_fn(A) -> bool)
    requires
        forall|i: int| 0 <= i < s.len() ==> p(#[trigger] s[i]),
    ensures
        s.filter(p) == s,
    decreases s.len(),
{
    reveal(Seq::filter);
    if s.len() > 0 {
        lemma_filter_all(s.drop_last(), p);
        assert(s.drop_last().push(s.last()) =~= s);
    }
}

/// A word that starts with an alphabetic character is none of the special tokens,
/// which all start with `<`.
proof fn lemma_not_special(w: Seq<char>)
    requires
        w.len() > 0,
        spec_is_alphabetic(w[0]),
    ensures
        w != pad_word(),
        w != unk_word(),
        w != bos_word(),
        w != eos_word(),
        !special_words().contains(w),
{
    assert(('<' as u32) == 60);
    assert(!spec_is_alphabetic('<'));
    assert(pad_word()[0] == '<');
    assert(unk_word()[0] == '<');
    assert(bos_word()[0] == '<');
    assert(eos_word()[0] == '<');
    lemma_specials_distinct();
    if special_words().contains(w) {
        let j = choose|j: int| 0 <= j < special_words().len() && special_words()[j] == w;
        assert(special_words()[j][0] == '<');
    }
}

/// Encoding a text whose words the vocabulary knows, then decoding the ids,
/// gives back the normalised words of the text joined by single spaces.
pub proof fn law_decode_inverts_encode(ws: Seq<Seq<char>>, text: Seq<char>)
    requires
        has_specials(ws),
        ws.len() <= usize::MAX,
        forall|k: int|
            0 <= k < raw_tokens(text).len() ==> ws.contains(#[trigger] raw_tokens(text)[k]),
    ensures
        decode_text(ws, encode_ids(ws, text)) == join_words(raw_tokens(text)),
{
    let toks = raw_tokens(text);
    let ids = encode_ids(ws, text);
    let g = |id: usize| word_or_unk(ws, id);
    assert forall|k: int| 0 <= k < ids.len() implies #[trigger] keep_pred(ws)(ids[k]) && g(ids[k])
        == toks[k] by {
        lemma_raw_token_alphabetic(text, k);
        lemma_not_special(toks[k]);
        lemma_word_id(ws, toks[k]);
        lemma_word_id(ws, pad_word());
        lemma_word_id(ws, bos_word());
        lemma_word_id(ws, eos_word());
        assert(ids[k] == word_id(ws, toks[k]));
    }
    lemma_filter_all(ids, keep_pred(ws));
    assert(ids.map_values(g) =~= toks);
}

/// Every word of the training text gets its own id, past the special tokens:
/// the id of each encoded word is 4 or more, and the vocabulary entry at it is that word.
pub proof fn law_training_words_known(text: Seq<char>)
    requires
        build_vocab(raw_tokens(text)).len() <= usize::MAX,
    ensures
        forall|k: int|
            0 <= k < raw_tokens(text).len() ==> build_vocab(raw_tokens(text))[#[trigger] encode_ids(
                build_vocab(raw_tokens(text)),
                text,
            )[k] as int] == raw_tokens(text)[k],
        forall|k: int|
            0 <= k < raw_tokens(text).len() ==> #[trigger] encode_ids(
                build_vocab(raw_tokens(text)),
                text,
            )[k] >= 4,
{
    let toks = raw_tokens(text);
    let v = build_vocab(toks);
    law_vocabulary_layout(text);
    assert forall|k: int| 0 <= k < toks.len() implies v[#[trigger] encode_ids(v, text)[k] as int]
        == toks[k] by {
        assert(v.contains(toks[k]));
        lemma_word_id(v, toks[k]);
    }
    assert forall|k: int| 0 <= k < toks.len() implies #[trigger] encode_ids(v, text)[k] >= 4 by {
        assert(v.contains(toks[k]));
        lemma_word_id(v, toks[k]);
        let id = word_id(v, toks[k]);
        lemma_raw_token_alphabetic(text, k);
        lemma_not_special(toks[k]);
        lemma_build_vocab(toks);
        if id < 4 {
            assert(0 <= id);
            assert(v.take(4)[id] == v[id]);
            assert(special_words().contains(toks[k]));
        }
    }
}

/// Words of lower-case ASCII letters.
pub open spec fn lower_words(parts: Seq<Seq<char>>) -> bool {
    forall|k: int|
        0 <= k < parts.len() ==> parts[k].len() > 0 && forall|i: int|
            0 <= i < parts[k].len() ==> is_ascii_lower_letter(#[trigger] parts[k][i])
}

/// Joining non-empty words by spaces and splitting the text at whitespace gives the words back.
proof fn lemma_split_join(parts: Seq<Seq<char>>)
    requires
        lower_words(parts),
    ensures
        parts.len() > 0 ==> scan_words(join_words(parts)) == (parts.drop_last(), parts.last()),
        split_whitespace(join_words(parts)) == parts,
    decreases parts.len(),
{
    if parts.len() == 0 {
        assert(split_whitespace(join_words(parts)) =~= parts);
    } else {
        let last = parts.last();
        assert(last == parts[parts.len() - 1]);
        assert forall|i: int| 0 <= i < last.len() implies !spec_is_whitespace(#[trigger] last[i]) by {
            assert(is_ascii_lower_letter(last[i]));
        }
        if parts.len() == 1 {
            let e = Seq::<char>::empty();
            lemma_scan_append_word(e, last);
            assert(e + last =~= last);
            assert(scan_words(e).1 + last =~= last);
            assert(parts.drop_last() =~= Seq::<Seq<char>>::empty());
        } else {
            let init = parts.drop_last();
            assert forall|k: int| 0 <= k < init.len() implies init[k].len() > 0 && forall|i: int|
                0 <= i < init[k].len() ==> is_ascii_lower_letter(#[trigger] init[k][i]) by {
                assert(init[k] == parts[k]);
            }
            lemma_split_join(init);
            let s1 = join_words(init) + seq![' '];
            assert(s1.drop_last() =~= join_words(init));
            assert(s1.last() == ' ');
            assert(spec_is_whitespace(' '));
            assert(init.last() == init[init.len() - 1]);
            assert(init.drop_last().push(init.last()) =~= init);
            assert(scan_words(s1) == (init, Seq::<char>::empty()));
            lemma_scan_append_word(s1, last);
            assert(Seq::<char>::empty() + last =~= last);
            assert(join_words(parts) == s1 + last);
        }
        assert(parts.drop_last().push(parts.last()) =~= parts);
    }
}

/// Decoding ids of words of an ASCII training text and encoding the text gives
/// the ids back: every id past the special tokens survives the round trip.
pub proof fn law_encode_inverts_decode(corpus: Seq<char>, ids: Seq<usize>)
    requires
        is_ascii_text(corpus),
        build_vocab(raw_tokens(corpus)).len() <= usize::MAX,
        forall|k: int|
            0 <= k < ids.len() ==> 4 <= #[trigger] ids[k] < build_vocab(raw_tokens(corpus)).len(),
    ensures
        encode_ids(build_vocab(raw_tokens(corpus)), decode_text(build_vocab(raw_tokens(corpus)), ids))
            == ids,
{
    let toks = raw_tokens(corpus);
    let v = build_vocab(toks);
    law_vocabulary_layout(corpus);
    lemma_build_vocab(toks);
    let g = |id: usize| word_or_unk(v, id);
    let parts = ids.map_values(g);
    assert forall|k: int| 0 <= k < ids.len() implies #[trigger] keep_pred(v)(ids[k]) by {}
    lemma_filter_all(ids, keep_pred(v));
    assert(decode_text(v, ids) == join_words(parts));
    assert forall|k: int| 0 <= k < parts.len() implies parts[k].len() > 0 && forall|i: int|
        0 <= i < parts[k].len() ==> is_ascii_lower_letter(#[trigger] parts[k][i]) by {
        let id = ids[k] as int;
        assert(parts[k] == v[id]);
        assert(toks.contains(v[id]));
        let j = choose|j: int| 0 <= j < toks.len() && toks[j] == v[id];
        lemma_raw_token_ascii(corpus, j);
    }
    lemma_split_join(parts);
    let f = |w: Seq<char>| normalize_word(w);
    assert(parts.map_values(f) =~= parts) by {
        assert forall|k: int| 0 <= k < parts.len() implies #[trigger] parts.map_values(f)[k] == parts[k] by {
            lemma_normalize_lower_word(parts[k]);
        }
    }
    assert forall|k: int| 0 <= k < parts.len() implies #[trigger] nonempty_pred()(parts[k]) by {}
    lemma_filter_all(parts, nonempty_pred());
    assert(raw_tokens(join_words(parts)) == parts);
    assert forall|k: int| 0 <= k < ids.len() implies #[trigger] encode_ids(v, join_words(parts))[k]
        == ids[k] by {
        lemma_word_id_unique(v, ids[k] as int);
        lemma_word_id(v, parts[k]);
    }
    assert(encode_ids(v, join_words(parts)) =~= ids);
}

} // verus!
