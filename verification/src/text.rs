//! Splitting raw text into normalised words.
//!
//! A text is cut at whitespace into maximal runs of non-whitespace characters;
//! each run is lower-cased and stripped of every non-alphabetic character, and
//! the runs that end up empty are dropped. `"Hello, World!"` gives
//! `["hello", "world"]`.
use vstd::prelude::*;

verus! {

/// Whether `c` has the Unicode `White_Space` property, which is what
/// `char::is_whitespace` reports: U+0009 to U+000D, U+0020, U+0085, U+00A0,
/// U+1680, U+2000 to U+200A, U+2028, U+2029, U+202F, U+205F and U+3000.
pub open spec fn spec_is_whitespace(c: char) -> bool {
    let u = c as u32;
    ||| 0x09 <= u <= 0x0d
    ||| u == 0x20
    ||| u == 0x85
    ||| u == 0xa0
    ||| u == 0x1680
    ||| 0x2000 <= u <= 0x200a
    ||| u == 0x2028
    ||| u == 0x2029
    ||| u == 0x202f
    ||| u == 0x205f
    ||| u == 0x3000
}

/// Whether a character outside ASCII has the Unicode `Alphabetic` property, as
/// `char::is_alphabetic` reports it.
pub uninterp spec fn spec_is_alphabetic_beyond_ascii(c: char) -> bool;

/// The lower-case mapping of a string holding a character outside ASCII, as
/// `str::to_lowercase` computes it.
pub uninterp spec fn spec_to_lowercase_beyond_ascii(s: Seq<char>) -> Seq<char>;

/// An ASCII letter.
pub open spec fn is_ascii_letter(c: char) -> bool {
    ('a' <= c && c <= 'z') || ('A' <= c && c <= 'Z')
}

/// An ASCII lower-case letter.
pub open spec fn is_ascii_lower_letter(c: char) -> bool {
    'a' <= c && c <= 'z'
}

/// Whether every character of `s` is ASCII.
pub open spec fn is_ascii_text(s: Seq<char>) -> bool {
    forall|i: int| 0 <= i < s.len() ==> (#[trigger] s[i] as u32) < 0x80
}

/// The lower-case form of an ASCII character: `A` to `Z` become `a` to `z`.
pub open spec fn ascii_lower(c: char) -> char {
    if 'A' <= c && c <= 'Z' {
        ((c as u32) + 32) as char
    } else {
        c
    }
}

/// Whether `c` has the Unicode `Alphabetic` property (what `char::is_alphabetic`
/// reports): among ASCII characters exactly the letters.
pub open spec fn spec_is_alphabetic(c: char) -> bool {
    if (c as u32) < 0x80 {
        is_ascii_letter(c)
    } else {
        spec_is_alphabetic_beyond_ascii(c)
    }
}

/// The lower-case mapping of a whole string, as `str::to_lowercase` computes it:
/// an ASCII string has each of its letters lowered.
pub open spec fn spec_to_lowercase(s: Seq<char>) -> Seq<char> {
    if is_ascii_text(s) {
        s.map_values(|c: char| ascii_lower(c))
    } else {
        spec_to_lowercase_beyond_ascii(s)
    }
}

/// `char::is_whitespace`, as the `White_Space` code points above.
fn is_whitespace(c: char) -> (r: bool)
    ensures
        r == spec_is_whitespace(c),
{
    let u = c as u32;
    (0x09 <= u && u <= 0x0d) || u == 0x20 || u == 0x85 || u == 0xa0 || u == 0x1680 || (0x2000
        <= u && u <= 0x200a) || u == 0x2028 || u == 0x2029 || u == 0x202f || u == 0x205f || u
        == 0x3000
}

/// Calls `char::is_alphabetic`: among ASCII characters the letters are alphabetic;
/// for other characters the result is the named predicate on `c`.
#[verifier::external_body]
fn is_alphabetic(c: char) -> (r: bool)
    ensures
        r == (if (c as u32) < 0x80 {
            is_ascii_letter(c)
        } else {
            spec_is_alphabetic_beyond_ascii(c)
        }),
{
    c.is_alphabetic()
}

/// Calls `str::to_lowercase`: an ASCII string comes back with its letters
/// lowered; for other strings the result is the named mapping of `s`.
#[verifier::external_body]
fn to_lowercase(s: &str) -> (r: String)
    ensures
        r@ == (if is_ascii_text(s@) {
            s@.map_values(|c: char| ascii_lower(c))
        } else {
            spec_to_lowercase_beyond_ascii(s@)
        }),
{
    s.to_lowercase()
}

/// Calls `String::push`: the string afterwards is the old one followed by `c`.
#[verifier::external_body]
fn push_char(s: &mut String, c: char)
    ensures
        final(s)@ == old(s)@.push(c),
{
    s.push(c)
}

/// The views of a sequence of strings.
pub open spec fn strs(v: Seq<String>) -> Seq<Seq<char>> {
    v.map_values(|s: String| s@)
}

pub open spec fn alphabetic_pred() -> spec_fn(char) -> bool {
    |c: char| spec_is_alphabetic(c)
}

pub open spec fn nonempty_pred() -> spec_fn(Seq<char>) -> bool {
    |w: Seq<char>| w.len() > 0
}

/// The state of a left-to-right scan of `s`: the words completed so far and
/// the (possibly empty) word still being read.
pub open spec fn scan_words(s: Seq<char>) -> (Seq<Seq<char>>, Seq<char>)
    decreases s.len(),
{
    if s.len() == 0 {
        (Seq::empty(), Seq::empty())
    } else {
        let (done, cur) = scan_words(s.drop_last());
        if spec_is_whitespace(s.last()) {
            if cur.len() > 0 {
                (done.push(cur), Seq::empty())
            } else {
                (done, cur)
            }
        } else {
            (done, cur.push(s.last()))
        }
    }
}

/// The maximal runs of non-whitespace characters of `s`, in order
/// (what `str::split_whitespace` yields).
pub open spec fn split_whitespace(s: Seq<char>) -> Seq<Seq<char>> {
    let (done, cur) = scan_words(s);
    if cur.len() > 0 {
        done.push(cur)
    } else {
        done
    }
}

/// A word lower-cased, keeping only its alphabetic characters.
pub open spec fn normalize_word(w: Seq<char>) -> Seq<char> {
    spec_to_lowercase(w).filter(alphabetic_pred())
}

/// The normalised, non-empty words of a text.
pub open spec fn raw_tokens(s: Seq<char>) -> Seq<Seq<char>> {
    split_whitespace(s).map_values(|w: Seq<char>| normalize_word(w)).filter(nonempty_pred())
}

/// Every normalised word is non-empty and made of alphabetic characters only.
pub proof fn lemma_raw_token_alphabetic(text: Seq<char>, k: int)
    requires
        0 <= k < raw_tokens(text).len(),
    ensures
        raw_tokens(text)[k].len() > 0,
        forall|i: int| 0 <= i < raw_tokens(text)[k].len() ==> spec_is_alphabetic(
            #[trigger] raw_tokens(text)[k][i],
        ),
{
    let f = |w: Seq<char>| normalize_word(w);
    let m = split_whitespace(text).map_values(f);
    let t = raw_tokens(text)[k];
    m.lemma_filter_pred(nonempty_pred(), k);
    assert(m.filter(nonempty_pred()).contains(t));
    m.lemma_filter_contains_rev(nonempty_pred(), t);
    let j = choose|j: int| 0 <= j < m.len() && m[j] == t;
    let low = spec_to_lowercase(split_whitespace(text)[j]);
    assert(t == low.filter(alphabetic_pred()));
    assert forall|i: int| 0 <= i < t.len() implies spec_is_alphabetic(#[trigger] t[i]) by {
        low.lemma_filter_pred(alphabetic_pred(), i);
    }
}

/// Appending characters that are not whitespace extends the word being read.
pub proof fn lemma_scan_append_word(s: Seq<char>, w: Seq<char>)
    requires
        forall|i: int| 0 <= i < w.len() ==> !spec_is_whitespace(#[trigger] w[i]),
    ensures
        scan_words(s + w) == (scan_words(s).0, scan_words(s).1 + w),
    decreases w.len(),
{
    if w.len() == 0 {
        assert(s + w =~= s);
        assert(scan_words(s).1 + w =~= scan_words(s).1);
    } else {
        let w1 = w.drop_last();
        lemma_scan_append_word(s, w1);
        assert((s + w).drop_last() =~= s + w1);
        assert((s + w).last() == w[w.len() - 1]);
        assert((scan_words(s).1 + w1).push(w.last()) =~= scan_words(s).1 + w);
    }
}

/// The words of an ASCII text are ASCII.
pub proof fn lemma_scan_ascii(s: Seq<char>)
    requires
        is_ascii_text(s),
    ensures
        forall|j: int| 0 <= j < scan_words(s).0.len() ==> is_ascii_text(#[trigger] scan_words(s).0[j]),
        is_ascii_text(scan_words(s).1),
        forall|j: int| 0 <= j < split_whitespace(s).len() ==> is_ascii_text(#[trigger] split_whitespace(s)[j]),
    decreases s.len(),
{
    if s.len() > 0 {
        let t = s.drop_last();
        assert forall|i: int| 0 <= i < t.len() implies (#[trigger] t[i] as u32) < 0x80 by {
            assert(t[i] == s[i]);
        }
        lemma_scan_ascii(t);
        let (done, cur) = scan_words(t);
        assert((s.last() as u32) < 0x80) by {
            assert(s.last() == s[s.len() - 1]);
        }
        if !spec_is_whitespace(s.last()) {
            assert forall|i: int| 0 <= i < cur.push(s.last()).len() implies (#[trigger] cur.push(
                s.last(),
            )[i] as u32) < 0x80 by {
                if i < cur.len() {
                    assert(cur.push(s.last())[i] == cur[i]);
                }
            }
        } else if cur.len() > 0 {
            assert forall|j: int| 0 <= j < done.push(cur).len() implies is_ascii_text(
                #[trigger] done.push(cur)[j],
            ) by {
                if j < done.len() {
                    assert(done.push(cur)[j] == done[j]);
                }
            }
        }
    }
    let (done, cur) = scan_words(s);
    if cur.len() > 0 {
        assert forall|j: int| 0 <= j < done.push(cur).len() implies is_ascii_text(
            #[trigger] done.push(cur)[j],
        ) by {
            if j < done.len() {
                assert(done.push(cur)[j] == done[j]);
            }
        }
    }
}

/// A word of lower-case ASCII letters normalises to itself.
pub proof fn lemma_normalize_lower_word(w: Seq<char>)
    requires
        forall|i: int| 0 <= i < w.len() ==> is_ascii_lower_letter(#[trigger] w[i]),
    ensures
        normalize_word(w) == w,
{
    assert(is_ascii_text(w)) by {
        assert forall|i: int| 0 <= i < w.len() implies (#[trigger] w[i] as u32) < 0x80 by {
            assert(is_ascii_lower_letter(w[i]));
        }
    }
    let low = spec_to_lowercase(w);
    assert(low =~= w) by {
        assert forall|i: int| 0 <= i < w.len() implies #[trigger] low[i] == w[i] by {
            assert(is_ascii_lower_letter(w[i]));
        }
    }
    lemma_filter_all_chars(w);
}

proof fn lemma_filter_all_chars(w: Seq<char>)
    requires
        forall|i: int| 0 <= i < w.len() ==> is_ascii_lower_letter(#[trigger] w[i]),
    ensures
        w.filter(alphabetic_pred()) == w,
    decreases w.len(),
{
    reveal(Seq::filter);
    if w.len() > 0 {
        let t = w.drop_last();
        assert forall|i: int| 0 <= i < t.len() implies is_ascii_lower_letter(#[trigger] t[i]) by {
            assert(t[i] == w[i]);
        }
        lemma_filter_all_chars(t);
        assert(is_ascii_lower_letter(w[w.len() - 1]));
        assert(t.push(w.last()) =~= w);
    }
}

/// The normalised words of an ASCII text are made of lower-case ASCII letters.
pub proof fn lemma_raw_token_ascii(text: Seq<char>, k: int)
    requires
        is_ascii_text(text),
        0 <= k < raw_tokens(text).len(),
    ensures
        raw_tokens(text)[k].len() > 0,
        forall|i: int| 0 <= i < raw_tokens(text)[k].len() ==> is_ascii_lower_letter(
            #[trigger] raw_tokens(text)[k][i],
        ),
{
    lemma_raw_token_alphabetic(text, k);
    let f = |w: Seq<char>| normalize_word(w);
    let m = split_whitespace(text).map_values(f);
    let t = raw_tokens(text)[k];
    assert(m.filter(nonempty_pred()).contains(t));
    m.lemma_filter_contains_rev(nonempty_pred(), t);
    let j = choose|j: int| 0 <= j < m.len() && m[j] == t;
    let w = split_whitespace(text)[j];
    lemma_scan_ascii(text);
    assert(is_ascii_text(w));
    let low = w.map_values(|c: char| ascii_lower(c));
    assert(spec_to_lowercase(w) == low);
    assert(t == low.filter(alphabetic_pred()));
    assert forall|i: int| 0 <= i < t.len() implies is_ascii_lower_letter(#[trigger] t[i]) by {
        assert(spec_is_alphabetic(t[i]));
        assert(low.filter(alphabetic_pred()).contains(t[i]));
        low.lemma_filter_contains_rev(alphabetic_pred(), t[i]);
        let n = choose|n: int| 0 <= n < low.len() && low[n] == t[i];
        assert((w[n] as u32) < 0x80);
        assert(low[n] == ascii_lower(w[n]));
    }
}

/// Filtering a sequence extended by one element.
pub proof fn lemma_filter_push<A>(s: Seq<A>, x: A, p: spec_fn(A) -> bool)
    ensures
        s.push(x).filter(p) == (if p(x) {
            s.filter(p).push(x)
        } else {
            s.filter(p)
        }),
{
    reveal(Seq::filter);
    assert(s.push(x).drop_last() =~= s);
}

/// Keeps only the alphabetic characters of the lower-cased word.
fn normalize(word: &str) -> (r: String)
    ensures
        r@ == normalize_word(word@),
{
    let lower = to_lowercase(word);
    let ghost low = lower@;
    let mut kept = String::new();
    for c in it: lower.as_str().chars()
        invariant
            it.seq() == low,
            kept@ == low.take(it.index()).filter(alphabetic_pred()),
    {
        proof {
            assert(low.take(it.index() + 1) =~= low.take(it.index()).push(c));
            lemma_filter_push(low.take(it.index()), c, alphabetic_pred());
        }
        if is_alphabetic(c) {
            push_char(&mut kept, c);
        }
    }
    proof {
        assert(low.take(low.len() as int) =~= low);
    }
    kept
}

/// Normalises the finished word `cur` and appends it to `out` when it is not empty.
fn finish_word(out: &mut Vec<String>, cur: &String, Ghost(done): Ghost<Seq<Seq<char>>>)
    requires
        strs(old(out)@) == done.map_values(|w: Seq<char>| normalize_word(w)).filter(
            nonempty_pred(),
        ),
    ensures
        strs(final(out)@) == done.push(cur@).map_values(|w: Seq<char>| normalize_word(w)).filter(
            nonempty_pred(),
        ),
{
    let n = normalize(cur.as_str());
    proof {
        let f = |w: Seq<char>| normalize_word(w);
        assert(done.push(cur@).map_values(f) =~= done.map_values(f).push(f(cur@)));
        lemma_filter_push(done.map_values(f), f(cur@), nonempty_pred());
    }
    let ghost before = out@;
    if !n.as_str().is_empty() {
        out.push(n);
        proof {
            assert(strs(out@) =~= strs(before).push(n@));
        }
    }
}

/// Splits `text` at whitespace, lower-cases every word and strips it of its
/// non-alphabetic characters, and drops the words that end up empty.
pub fn tokenize_raw(text: &str) -> (r: Vec<String>)
    ensures
        strs(r@) == raw_tokens(text@),
{
    let ghost s = text@;
    let mut out: Vec<String> = Vec::new();
    let mut cur = String::new();
    let ghost mut done: Seq<Seq<char>> = Seq::empty();
    proof {
        assert(strs(out@) =~= done.map_values(|w: Seq<char>| normalize_word(w)).filter(nonempty_pred())) by {
            reveal(Seq::filter);
        }
    }
    for c in it: text.chars()
        invariant
            it.seq() == s,
            scan_words(s.take(it.index())) == (done, cur@),
            strs(out@) == done.map_values(|w: Seq<char>| normalize_word(w)).filter(nonempty_pred()),
    {
        proof {
            assert(s.take(it.index() + 1).drop_last() =~= s.take(it.index()));
        }
        if is_whitespace(c) {
            if !cur.as_str().is_empty() {
                finish_word(&mut out, &cur, Ghost(done));
                proof {
                    done = done.push(cur@);
                }
                cur = String::new();
            }
        } else {
            push_char(&mut cur, c);
        }
    }
    proof {
        assert(s.take(s.len() as int) =~= s);
    }
    if !cur.as_str().is_empty() {
        finish_word(&mut out, &cur, Ghost(done));
    }
    out
}

} // verus!
