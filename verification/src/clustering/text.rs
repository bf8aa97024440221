//! Normalisation and tokenisation of short names, and the token containment
//! ratio used to compare two names.

use vstd::prelude::*;
use crate::chars::{
    chars_of, split_words, string_of_chars, trim_chars, trim_spec, unicode_lowercase,
    unicode_white_space, words_spec,
};

verus! {

/// What compiling `pattern` with `regex::Regex::new` and replacing every match
/// in `text` by `rep` with `Regex::replace_all` gives: `None` when the pattern
/// does not compile.
pub uninterp spec fn regex_replace_all_result(
    pattern: Seq<char>,
    text: Seq<char>,
    rep: Seq<char>,
) -> Option<Seq<char>>;

/// The characters that normalisation deletes: anything that is not an ASCII
/// letter, an ASCII digit or a space.
pub const SYMBOLS_PATTERN: &'static str = "[^a-zA-Z0-9 ]";

/// Whether a character is an ASCII letter, an ASCII digit or a space.
pub open spec fn is_name_char(c: char) -> bool {
    let u = c as u32;
    ||| 97 <= u && u <= 122
    ||| 65 <= u && u <= 90
    ||| 48 <= u && u <= 57
    ||| u == 32
}

/// The ASCII letters, ASCII digits and spaces of `s`, in order.
pub open spec fn name_chars(s: Seq<char>) -> Seq<char> {
    s.filter(|c: char| is_name_char(c))
}

/// Calls `regex::Regex::new(pattern)` and, when it compiles,
/// `Regex::replace_all(text, rep)`. The contract names the result; of the
/// symbol pattern `[^a-zA-Z0-9 ]` with an empty replacement it states what the
/// regex documentation gives: the pattern compiles, each match is one
/// character outside the class, so every character that is not an ASCII
/// letter, digit or space is deleted and the others stay in order.
#[verifier::external_body]
fn regex_replace_all(pattern: &str, text: &str, rep: &str) -> (r: Option<String>)
    ensures
        match r {
            Some(out) => regex_replace_all_result(pattern@, text@, rep@) == Some(out@),
            None => regex_replace_all_result(pattern@, text@, rep@) is None,
        },
        match r {
            Some(out) => pattern@ == SYMBOLS_PATTERN@ && rep@.len() == 0 ==> out@ == name_chars(text@),
            None => pattern@ != SYMBOLS_PATTERN@,
        },
{
    match regex::Regex::new(pattern) {
        Ok(re) => Some(re.replace_all(text, rep).into_owned()),
        Err(_) => None,
    }
}

/// The normal form of a name: lowercased, stripped of every character that
/// is not an ASCII letter, digit or space, and trimmed.
pub open spec fn normalized_spec(text: Seq<char>) -> Seq<char> {
    trim_spec(name_chars(unicode_lowercase(text)))
}

/// Lowercases `text`, deletes every symbol and trims the result.
pub fn normalize_text(text: &str) -> (r: String)
    ensures
        r@ == normalized_spec(text@),
{
    let lower = text.to_lowercase();
    proof {
        reveal_strlit("");
    }
    let stripped = match regex_replace_all(SYMBOLS_PATTERN, lower.as_str(), "") {
        Some(s) => s,
        None => {
            assert(false);
            String::new()
        },
    };
    let cs = chars_of(stripped.as_str());
    let trimmed = trim_chars(cs.as_slice());
    string_of_chars(trimmed.as_slice())
}

/// Words that carry no meaning in a name and are left out of its tokens:
/// "the", "an" and "a".
pub open spec fn is_common_word(w: Seq<char>) -> bool {
    ||| w == seq!['t', 'h', 'e']
    ||| w == seq!['a', 'n']
    ||| w == seq!['a']
}

pub open spec fn is_token(w: Seq<char>) -> bool {
    !is_common_word(w)
}

fn is_common_word_chars(w: &[char]) -> (r: bool)
    ensures
        r == is_common_word(w@),
{
    if w.len() == 3 {
        let r = w[0] == 't' && w[1] == 'h' && w[2] == 'e';
        assert(r ==> w@ =~= seq!['t', 'h', 'e']);
        r
    } else if w.len() == 2 {
        let r = w[0] == 'a' && w[1] == 'n';
        assert(r ==> w@ =~= seq!['a', 'n']);
        r
    } else if w.len() == 1 {
        let r = w[0] == 'a';
        assert(r ==> w@ =~= seq!['a']);
        r
    } else {
        false
    }
}

/// The views of a sequence of strings.
pub open spec fn string_views(v: Seq<String>) -> Seq<Seq<char>> {
    v.map_values(|s: String| s@)
}

/// The tokens of a name: the words of its normal form, without the common
/// words.
pub open spec fn tokens_spec(text: Seq<char>) -> Seq<Seq<char>> {
    words_spec(normalized_spec(text)).filter(|w: Seq<char>| is_token(w))
}

/// Splits the normal form of `text` into tokens.
pub fn normalize_and_tokenize(text: &str) -> (r: Vec<String>)
    ensures
        string_views(r@) == tokens_spec(text@),
{
    let normal = normalize_text(text);
    let cs = chars_of(normal.as_str());
    let words = split_words(cs.as_slice());
    let ghost wv = words@.map_values(|w: Vec<char>| w@);
    let mut tokens: Vec<String> = Vec::new();
    let mut i: usize = 0;
    assert(wv.take(0).filter(|w: Seq<char>| is_token(w)) =~= Seq::<Seq<char>>::empty()) by {
        reveal(Seq::filter);
    }
    assert(string_views(tokens@) =~= Seq::<Seq<char>>::empty());
    while i < words.len()
        invariant
            i <= words@.len(),
            wv == words@.map_values(|w: Vec<char>| w@),
            string_views(tokens@) == wv.take(i as int).filter(|w: Seq<char>| is_token(w)),
        decreases words@.len() - i,
    {
        let ghost before = string_views(tokens@);
        assert(wv.take(i + 1) =~= wv.take(i as int).push(wv[i as int]));
        proof {
            wv.take(i as int).lemma_filter_push(wv[i as int], |w: Seq<char>| is_token(w));
        }
        if !is_common_word_chars(words[i].as_slice()) {
            let t = string_of_chars(words[i].as_slice());
            tokens.push(t);
            assert(string_views(tokens@) =~= before.push(wv[i as int]));
        }
        i = i + 1;
    }
    assert(wv.take(words@.len() as int) =~= wv);
    tokens
}

/// A non-negative fraction `numerator / denominator`.
#[derive(Clone, Copy, Debug, PartialEq, Eq)]
pub struct Ratio {
    pub numerator: usize,
    pub denominator: usize,
}

/// How many tokens of `a` also occur in `b`, over the length of the shorter
/// of the two; 1 when both are empty and 0 when only one is.
pub open spec fn containment_spec(a: Seq<Seq<char>>, b: Seq<Seq<char>>) -> (int, int) {
    if a.len() == 0 || b.len() == 0 {
        if a.len() == 0 && b.len() == 0 {
            (1, 1)
        } else {
            (0, 1)
        }
    } else {
        (
            a.filter(|t: Seq<char>| b.contains(t)).len() as int,
            if a.len() <= b.len() { a.len() as int } else { b.len() as int },
        )
    }
}

fn contains_token(v: &Vec<String>, t: &String) -> (r: bool)
    ensures
        r == string_views(v@).contains(t@),
{
    let mut i: usize = 0;
    while i < v.len()
        invariant
            i <= v@.len(),
            forall|j: int| 0 <= j < i ==> v@[j]@ != t@,
        decreases v@.len() - i,
    {
        if v[i] == *t {
            assert(string_views(v@)[i as int] == t@);
            return true;
        }
        i = i + 1;
    }
    assert forall|j: int| 0 <= j < string_views(v@).len() implies string_views(v@)[j] != t@ by {
        assert(v@[j]@ != t@);
    }
    false
}

/// The containment ratio of two token lists.
pub fn containment_of_tokens(a: &Vec<String>, b: &Vec<String>) -> (r: Ratio)
    ensures
        (r.numerator as int, r.denominator as int) == containment_spec(string_views(a@), string_views(b@)),
        r.denominator > 0,
{
    if a.len() == 0 || b.len() == 0 {
        if a.len() == 0 && b.len() == 0 {
            return Ratio { numerator: 1, denominator: 1 };
        } else {
            return Ratio { numerator: 0, denominator: 1 };
        }
    }
    let ghost av = string_views(a@);
    let ghost bv = string_views(b@);
    let ghost pred = |t: Seq<char>| bv.contains(t);
    let mut count: usize = 0;
    let mut i: usize = 0;
    while i < a.len()
        invariant
            i <= a@.len(),
            av == string_views(a@),
            bv == string_views(b@),
            pred == (|t: Seq<char>| bv.contains(t)),
            count == av.take(i as int).filter(pred).len(),
            count <= i,
        decreases a@.len() - i,
    {
        assert(av.take(i + 1) =~= av.take(i as int).push(av[i as int]));
        proof {
            av.take(i as int).lemma_filter_push(av[i as int], pred);
        }
        if contains_token(b, &a[i]) {
            count = count + 1;
        }
        i = i + 1;
    }
    assert(av.take(a@.len() as int) =~= av);
    let den = if a.len() <= b.len() { a.len() } else { b.len() };
    Ratio { numerator: count, denominator: den }
}

/// The token containment ratio of two names.
pub fn token_containment_ratio(a: &str, b: &str) -> (r: Ratio)
    ensures
        (r.numerator as int, r.denominator as int) == containment_spec(tokens_spec(a@), tokens_spec(b@)),
        r.denominator > 0,
{
    let ta = normalize_and_tokenize(a);
    let tb = normalize_and_tokenize(b);
    containment_of_tokens(&ta, &tb)
}

proof fn lemma_words_are_nonempty_runs(s: Seq<char>)
    ensures
        forall|k: int| 0 <= k < words_spec(s).len() ==> {
            &&& (#[trigger] words_spec(s)[k]).len() > 0
            &&& forall|j: int| 0 <= j < words_spec(s)[k].len() ==> !unicode_white_space(#[trigger] words_spec(s)[k][j])
        },
    decreases s.len(),
{
    if s.len() > 0 {
        let d = s.drop_last();
        let rest = words_spec(d);
        let c = s.last();
        lemma_words_are_nonempty_runs(d);
        if !unicode_white_space(c) {
            if s.len() >= 2 && !unicode_white_space(s[s.len() - 2]) {
                lemma_words_nonempty(d);
                let r = words_spec(s);
                assert forall|k: int| 0 <= k < r.len() implies {
                    &&& (#[trigger] r[k]).len() > 0
                    &&& forall|j: int| 0 <= j < r[k].len() ==> !unicode_white_space(#[trigger] r[k][j])
                } by {
                    if k == rest.len() - 1 {
                        assert(r[k] == rest.last().push(c));
                        assert forall|j: int| 0 <= j < r[k].len() implies !unicode_white_space(#[trigger] r[k][j]) by {
                            if j < rest.last().len() {
                                assert(r[k][j] == rest[k][j]);
                            }
                        }
                    } else {
                        assert(r[k] == rest[k]);
                    }
                }
            } else {
                let r = words_spec(s);
                assert forall|k: int| 0 <= k < r.len() implies {
                    &&& (#[trigger] r[k]).len() > 0
                    &&& forall|j: int| 0 <= j < r[k].len() ==> !unicode_white_space(#[trigger] r[k][j])
                } by {
                    if k < rest.len() {
                        assert(r[k] == rest[k]);
                    } else {
                        assert(r[k] == seq![c]);
                    }
                }
            }
        }
    }
}

proof fn lemma_words_nonempty(s: Seq<char>)
    requires
        s.len() > 0,
        !unicode_white_space(s.last()),
    ensures
        words_spec(s).len() > 0,
    decreases s.len(),
{
    if s.len() >= 2 && !unicode_white_space(s[s.len() - 2]) {
        assert(s.drop_last().last() == s[s.len() - 2]);
        lemma_words_nonempty(s.drop_last());
    }
}

proof fn lemma_filter_all<A>(s: Seq<A>, pred: spec_fn(A) -> bool)
    requires
        forall|i: int| 0 <= i < s.len() ==> pred(#[trigger] s[i]),
    ensures
        s.filter(pred) == s,
    decreases s.len(),
{
    if s.len() > 0 {
        let d = s.drop_last();
        assert forall|i: int| 0 <= i < d.len() implies pred(#[trigger] d[i]) by {
            assert(d[i] == s[i]);
        }
        lemma_filter_all(d, pred);
        assert(d.push(s.last()) =~= s);
        d.lemma_filter_push(s.last(), pred);
        assert(pred(s[s.len() - 1]));
    } else {
        reveal(Seq::filter);
    }
}

/// The tokens of a name are non-empty, hold no white space, and are none of
/// the common words.
pub proof fn lemma_tokens_are_meaningful_words(text: Seq<char>)
    ensures
        forall|k: int| 0 <= k < tokens_spec(text).len() ==> {
            &&& (#[trigger] tokens_spec(text)[k]).len() > 0
            &&& !is_common_word(tokens_spec(text)[k])
            &&& forall|j: int| 0 <= j < tokens_spec(text)[k].len() ==> !unicode_white_space(#[trigger] tokens_spec(text)[k][j])
        },
{
    {
        let n = normalized_spec(text);
        let w = words_spec(n);
        let pred = |t: Seq<char>| is_token(t);
        lemma_words_are_nonempty_runs(n);
        assert forall|k: int| 0 <= k < w.filter(pred).len() implies {
            &&& (#[trigger] w.filter(pred)[k]).len() > 0
            &&& !is_common_word(w.filter(pred)[k])
            &&& forall|j: int| 0 <= j < w.filter(pred)[k].len() ==> !unicode_white_space(#[trigger] w.filter(pred)[k][j])
        } by {
            w.lemma_filter_pred(pred, k);
            let t = w.filter(pred)[k];
            assert(w.filter(pred).contains(t));
            w.lemma_filter_contains_rev(pred, t);
            let i = choose|i: int| 0 <= i < w.len() && w[i] == t;
            assert(w[i].len() > 0);
        }
    }
}

/// The tokens of a name are the words of its normal form, in order, with
/// exactly the words "the", "an" and "a" left out: every other word, one
/// letter or digit long too, stays a token.
pub proof fn lemma_tokens_drop_only_articles(text: Seq<char>)
    ensures
        tokens_spec(text) == words_spec(normalized_spec(text)).filter(
            |w: Seq<char>| w != seq!['t', 'h', 'e'] && w != seq!['a', 'n'] && w != seq!['a'],
        ),
{
    let kept = |w: Seq<char>| w != seq!['t', 'h', 'e'] && w != seq!['a', 'n'] && w != seq!['a'];
    let tok = |w: Seq<char>| is_token(w);
    assert(tok =~= kept);
}

/// A list of tokens is fully contained in itself: its containment ratio is
/// 1.
pub proof fn lemma_self_containment(a: Seq<Seq<char>>)
    ensures
        containment_spec(a, a).0 == containment_spec(a, a).1,
        containment_spec(a, a).1 > 0,
{
    if a.len() > 0 {
        let pred = |t: Seq<char>| a.contains(t);
        assert forall|i: int| 0 <= i < a.len() implies pred(#[trigger] a[i]) by {
            assert(a.contains(a[i]));
        }
        lemma_filter_all(a, pred);
    }
}

} // verus!
