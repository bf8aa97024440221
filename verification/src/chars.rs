//! Character-level helpers for strings: conversion to and from characters,
//! trimming, splitting into words, and searching.

use vstd::prelude::*;

verus! {

/// What `str::to_lowercase` gives back for a string: the Unicode lowercase
/// mapping of every character.
pub uninterp spec fn unicode_lowercase(s: Seq<char>) -> Seq<char>;

/// Whether a character is ASCII.
pub open spec fn is_ascii_char(c: char) -> bool {
    (c as u32) < 128
}

/// An ASCII uppercase letter made lowercase; any other character as it is.
pub open spec fn ascii_lower(c: char) -> char {
    if 65 <= (c as u32) && (c as u32) <= 90 {
        ((c as u32) + 32) as char
    } else {
        c
    }
}

/// Whether a character has the Unicode `White_Space` property: the ASCII
/// tab, line feed, vertical tab, form feed, carriage return and space, and
/// U+0085, U+00A0, U+1680, U+2000 to U+200A, U+2028, U+2029, U+202F, U+205F
/// and U+3000.
pub open spec fn unicode_white_space(c: char) -> bool {
    let u = c as u32;
    ||| 0x09 <= u && u <= 0x0D
    ||| u == 0x20 || u == 0x85 || u == 0xA0 || u == 0x1680
    ||| 0x2000 <= u && u <= 0x200A
    ||| u == 0x2028 || u == 0x2029 || u == 0x202F || u == 0x205F || u == 0x3000
}

/// `str::to_lowercase`: the documentation defines the result by the Unicode
/// lowercase mapping, which the contract names; of an ASCII string it states
/// that every uppercase letter becomes lowercase and every other character
/// stays.
pub assume_specification[ str::to_lowercase ](s: &str) -> (r: String)
    ensures
        r@ == unicode_lowercase(s@),
        (forall|i: int| 0 <= i < s@.len() ==> is_ascii_char(#[trigger] s@[i])) ==> r@ == s@.map_values(
            |c: char| ascii_lower(c),
        ),
;

/// `char::is_whitespace`: true exactly for the characters with the Unicode
/// `White_Space` property.
pub assume_specification[ char::is_whitespace ](c: char) -> (r: bool)
    ensures
        r == unicode_white_space(c),
;

/// `String::push`: appends the character at the end of the string.
pub assume_specification[ String::push ](s: &mut String, ch: char)
    ensures
        final(s)@ == old(s)@.push(ch),
;

/// The characters of a string, in order.
pub fn chars_of(s: &str) -> (r: Vec<char>)
    ensures
        r@ == s@,
{
    let mut v: Vec<char> = Vec::new();
    for c in it: s.chars()
        invariant
            v@ == it.seq().take(it.index()),
    {
        v.push(c);
    }
    v
}

/// A string holding exactly the given characters.
pub fn string_of_chars(cs: &[char]) -> (r: String)
    ensures
        r@ == cs@,
{
    let mut s = String::new();
    let mut i: usize = 0;
    while i < cs.len()
        invariant
            i <= cs@.len(),
            s@ == cs@.take(i as int),
        decreases cs@.len() - i,
    {
        s.push(cs[i]);
        assert(cs@.take(i as int).push(cs@[i as int]) =~= cs@.take(i + 1));
        i = i + 1;
    }
    assert(cs@.take(cs@.len() as int) =~= cs@);
    s
}


/// `s` without its leading white space.
pub open spec fn trim_start_spec(s: Seq<char>) -> Seq<char>
    decreases s.len(),
{
    if s.len() > 0 && unicode_white_space(s[0]) {
        trim_start_spec(s.drop_first())
    } else {
        s
    }
}

/// `s` without its trailing white space.
pub open spec fn trim_end_spec(s: Seq<char>) -> Seq<char>
    decreases s.len(),
{
    if s.len() > 0 && unicode_white_space(s.last()) {
        trim_end_spec(s.drop_last())
    } else {
        s
    }
}

/// `s` without leading and trailing white space.
pub open spec fn trim_spec(s: Seq<char>) -> Seq<char> {
    trim_end_spec(trim_start_spec(s))
}

proof fn lemma_trim_start_skip(s: Seq<char>, i: int)
    requires
        0 <= i <= s.len(),
        forall|j: int| 0 <= j < i ==> unicode_white_space(#[trigger] s[j]),
    ensures
        trim_start_spec(s) == trim_start_spec(s.skip(i)),
    decreases i,
{
    if i > 0 {
        assert(s.skip(1) =~= s.drop_first());
        lemma_trim_start_skip(s.drop_first(), i - 1);
        assert(s.drop_first().skip(i - 1) =~= s.skip(i));
    } else {
        assert(s.skip(0) =~= s);
    }
}

proof fn lemma_trim_end_take(s: Seq<char>, k: int)
    requires
        0 <= k <= s.len(),
        forall|j: int| k <= j < s.len() ==> unicode_white_space(#[trigger] s[j]),
    ensures
        trim_end_spec(s) == trim_end_spec(s.take(k)),
    decreases s.len() - k,
{
    if k < s.len() {
        assert(s.take(s.len() - 1) =~= s.drop_last());
        lemma_trim_end_take(s.drop_last(), k);
        assert(s.drop_last().take(k) =~= s.take(k));
    } else {
        assert(s.take(k) =~= s);
    }
}

/// The characters of `cs` without leading and trailing white space.
pub fn trim_chars(cs: &[char]) -> (r: Vec<char>)
    ensures
        r@ == trim_spec(cs@),
{
    let n = cs.len();
    let mut lo: usize = 0;
    while lo < n && cs[lo].is_whitespace()
        invariant
            n == cs@.len(),
            lo <= n,
            forall|j: int| 0 <= j < lo ==> unicode_white_space(#[trigger] cs@[j]),
        decreases n - lo,
    {
        lo = lo + 1;
    }
    proof {
        lemma_trim_start_skip(cs@, lo as int);
    }
    let ghost rest = cs@.skip(lo as int);
    assert(trim_start_spec(rest) == rest);
    let mut hi: usize = n;
    while hi > lo && cs[hi - 1].is_whitespace()
        invariant
            n == cs@.len(),
            lo <= hi <= n,
            rest == cs@.skip(lo as int),
            forall|j: int| hi - lo <= j < rest.len() ==> unicode_white_space(#[trigger] rest[j]),
        decreases hi,
    {
        assert(rest[hi - 1 - lo] == cs@[hi - 1]);
        hi = hi - 1;
    }
    proof {
        lemma_trim_end_take(rest, (hi - lo) as int);
        let t = rest.take((hi - lo) as int);
        if t.len() > 0 {
            assert(t.last() == cs@[hi - 1]);
        }
    }
    let mut r: Vec<char> = Vec::new();
    let mut i: usize = lo;
    while i < hi
        invariant
            lo <= i <= hi <= n,
            n == cs@.len(),
            r@ == cs@.subrange(lo as int, i as int),
        decreases hi - i,
    {
        r.push(cs[i]);
        assert(cs@.subrange(lo as int, i as int).push(cs@[i as int]) =~= cs@.subrange(lo as int, i + 1));
        i = i + 1;
    }
    assert(r@ =~= rest.take((hi - lo) as int));
    r
}


/// The maximal runs of non-white-space characters of `s`, in order: what
/// `str::split_whitespace` yields.
pub open spec fn words_spec(s: Seq<char>) -> Seq<Seq<char>>
    decreases s.len(),
{
    if s.len() == 0 {
        seq![]
    } else {
        let rest = words_spec(s.drop_last());
        let c = s.last();
        if unicode_white_space(c) {
            rest
        } else if s.len() >= 2 && !unicode_white_space(s[s.len() - 2]) {
            rest.update(rest.len() - 1, rest.last().push(c))
        } else {
            rest.push(seq![c])
        }
    }
}

/// The words of `cs`, split at white space; no word is empty.
pub fn split_words(cs: &[char]) -> (r: Vec<Vec<char>>)
    ensures
        r@.map_values(|w: Vec<char>| w@) == words_spec(cs@),
{
    let n = cs.len();
    let mut words: Vec<Vec<char>> = Vec::new();
    let mut cur: Vec<char> = Vec::new();
    let mut i: usize = 0;
    while i < n
        invariant
            n == cs@.len(),
            i <= n,
            cur@.len() == 0 ==> words@.map_values(|w: Vec<char>| w@) == words_spec(cs@.take(i as int)),
            cur@.len() == 0 ==> (i == 0 || unicode_white_space(cs@[i - 1])),
            cur@.len() > 0 ==> words@.map_values(|w: Vec<char>| w@).push(cur@) == words_spec(cs@.take(i as int)),
            cur@.len() > 0 ==> i > 0 && !unicode_white_space(cs@[i - 1]),
        decreases n - i,
    {
        let c = cs[i];
        let ghost pre = cs@.take(i as int);
        let ghost next = cs@.take(i + 1);
        let ghost wv = words@.map_values(|w: Vec<char>| w@);
        assert(next.drop_last() =~= pre);
        assert(next.last() == c);
        if c.is_whitespace() {
            if cur.len() > 0 {
                let w = cur;
                cur = Vec::new();
                words.push(w);
                assert(words@.map_values(|w: Vec<char>| w@) =~= wv.push(w@));
            }
        } else {
            let ghost cv = cur@;
            let had_word = cur.len() > 0;
            cur.push(c);
            if had_word {
                assert(next.len() >= 2 && next[next.len() - 2] == cs@[i - 1]);
                let ghost r = wv.push(cv);
                assert(r.update(r.len() - 1, r.last().push(c)) =~= wv.push(cur@));
            } else {
                if i > 0 {
                    assert(next[next.len() - 2] == cs@[i - 1]);
                }
                assert(cur@ =~= seq![c]);
            }
        }
        i = i + 1;
    }
    let ghost wv = words@.map_values(|w: Vec<char>| w@);
    if cur.len() > 0 {
        let ghost cv = cur@;
        words.push(cur);
        assert(words@.map_values(|w: Vec<char>| w@) =~= wv.push(cv));
    }
    assert(cs@.take(n as int) =~= cs@);
    words
}



/// Whether `t` occurs in `s` at position `i`.
pub open spec fn occurs_at(s: Seq<char>, t: Seq<char>, i: int) -> bool {
    0 <= i && i + t.len() <= s.len() && s.subrange(i, i + t.len()) == t
}

/// Whether `s` ends with `t`.
pub open spec fn ends_with_spec(s: Seq<char>, t: Seq<char>) -> bool {
    t.len() <= s.len() && s.skip(s.len() - t.len()) == t
}

/// Whether `t` occurs in `s` at position `i`.
pub fn occurs_at_chars(s: &[char], t: &[char], i: usize) -> (r: bool)
    ensures
        r == occurs_at(s@, t@, i as int),
{
    if i > s.len() || t.len() > s.len() - i {
        return false;
    }
    let n = s.len();
    let mut j: usize = 0;
    while j < t.len()
        invariant
            n == s@.len(),
            i + t@.len() <= s@.len(),
            j <= t@.len(),
            forall|k: int| 0 <= k < j ==> s@[i + k] == t@[k],
        decreases t@.len() - j,
    {
        if s[i + j] != t[j] {
            assert(s@.subrange(i as int, i + t@.len())[j as int] != t@[j as int]);
            return false;
        }
        j = j + 1;
    }
    assert(s@.subrange(i as int, i + t@.len()) =~= t@);
    true
}

/// Whether `s` ends with `t`.
pub fn ends_with_chars(s: &[char], t: &[char]) -> (r: bool)
    ensures
        r == ends_with_spec(s@, t@),
{
    if t.len() > s.len() {
        return false;
    }
    let r = occurs_at_chars(s, t, s.len() - t.len());
    assert(s@.subrange(s@.len() - t@.len(), s@.len() as int) =~= s@.skip(s@.len() - t@.len()));
    r
}

/// The first position at or after `i` where `t` occurs in `s`.
pub open spec fn find_from(s: Seq<char>, t: Seq<char>, i: int) -> Option<int>
    decreases s.len() + 1 - i,
{
    if i < 0 || i + t.len() > s.len() {
        None
    } else if occurs_at(s, t, i) {
        Some(i)
    } else {
        find_from(s, t, i + 1)
    }
}

/// The first position where `t` occurs in `s`: what `str::find` gives,
/// counted in characters.
pub open spec fn find_spec(s: Seq<char>, t: Seq<char>) -> Option<int> {
    find_from(s, t, 0)
}

/// The first position where `t` occurs in `s`.
pub fn find_chars(s: &[char], t: &[char]) -> (r: Option<usize>)
    ensures
        match r {
            Some(i) => find_spec(s@, t@) == Some(i as int),
            None => find_spec(s@, t@) is None,
        },
{
    let mut i: usize = 0;
    while i <= s.len()
        invariant
            i <= s@.len() + 1,
            find_spec(s@, t@) == find_from(s@, t@, i as int),
        decreases s@.len() + 1 - i,
    {
        if t.len() > s.len() - i {
            return None;
        }
        if occurs_at_chars(s, t, i) {
            return Some(i);
        }
        assert(t@.len() > 0) by {
            if t@.len() == 0 {
                assert(s@.subrange(i as int, i as int) =~= t@);
            }
        }
        i = i + 1;
    }
    None
}

proof fn lemma_find_from_in_range(s: Seq<char>, t: Seq<char>, i: int)
    ensures
        find_from(s, t, i) matches Some(j) ==> i <= j && j + t.len() <= s.len(),
    decreases s.len() + 1 - i,
{
    if !(i < 0 || i + t.len() > s.len()) && !occurs_at(s, t, i) {
        lemma_find_from_in_range(s, t, i + 1);
    }
}

/// A found position lies within the string.
pub proof fn lemma_find_in_range(s: Seq<char>, t: Seq<char>)
    ensures
        find_spec(s, t) matches Some(j) ==> 0 <= j && j + t.len() <= s.len(),
{
    lemma_find_from_in_range(s, t, 0);
}

proof fn lemma_find_from_is_first(s: Seq<char>, t: Seq<char>, i: int)
    requires
        0 <= i,
    ensures
        match find_from(s, t, i) {
            Some(j) => forall|k: int| i <= k < j ==> !occurs_at(s, t, k),
            None => forall|k: int| i <= k ==> !occurs_at(s, t, k),
        },
    decreases s.len() + 1 - i,
{
    if !(i + t.len() > s.len()) && !occurs_at(s, t, i) {
        lemma_find_from_is_first(s, t, i + 1);
    }
}

/// No occurrence comes before the found one, and none at all when nothing is
/// found.
pub proof fn lemma_find_is_first(s: Seq<char>, t: Seq<char>)
    ensures
        match find_spec(s, t) {
            Some(j) => forall|k: int| 0 <= k < j ==> !occurs_at(s, t, k),
            None => forall|k: int| 0 <= k ==> !occurs_at(s, t, k),
        },
{
    lemma_find_from_is_first(s, t, 0);
}

/// `s` with every occurrence of the non-empty `t` deleted, scanning from
/// position `i` to the right: what `str::replace(t, "")` gives.
pub open spec fn remove_from(s: Seq<char>, t: Seq<char>, i: int) -> Seq<char>
    decreases s.len() - i,
{
    if i < 0 || i >= s.len() || t.len() == 0 {
        s.skip(i)
    } else if occurs_at(s, t, i) {
        remove_from(s, t, i + t.len())
    } else {
        seq![s[i]].add(remove_from(s, t, i + 1))
    }
}

/// `s` with every occurrence of `t` deleted, left to right.
pub open spec fn remove_all_spec(s: Seq<char>, t: Seq<char>) -> Seq<char> {
    remove_from(s, t, 0)
}

/// The characters of `s` with every occurrence of `t` deleted, left to
/// right.
pub fn remove_all_chars(s: &[char], t: &[char]) -> (r: Vec<char>)
    ensures
        r@ == remove_all_spec(s@, t@),
{
    if t.len() == 0 {
        let mut out: Vec<char> = Vec::new();
        let mut k: usize = 0;
        while k < s.len()
            invariant
                k <= s@.len(),
                out@ == s@.take(k as int),
            decreases s@.len() - k,
        {
            out.push(s[k]);
            assert(s@.take(k as int).push(s@[k as int]) =~= s@.take(k + 1));
            k = k + 1;
        }
        assert(s@.take(s@.len() as int) =~= s@);
        assert(s@.skip(0) =~= s@);
        return out;
    }
    let mut out: Vec<char> = Vec::new();
    let mut i: usize = 0;
    while i < s.len()
        invariant
            t@.len() > 0,
            i <= s@.len(),
            out@ + remove_from(s@, t@, i as int) == remove_all_spec(s@, t@),
        decreases s@.len() - i,
    {
        if occurs_at_chars(s, t, i) {
            i = i + t.len();
        } else {
            let ghost before = out@;
            out.push(s[i]);
            assert(before + (seq![s@[i as int]].add(remove_from(s@, t@, i + 1))) =~= out@ + remove_from(s@, t@, i + 1));
            i = i + 1;
        }
    }
    assert(s@.skip(i as int) =~= Seq::<char>::empty());
    assert(out@ + Seq::<char>::empty() =~= out@);
    out
}

/// `s` cut before the first occurrence of `t`, or all of `s` when `t` does
/// not occur.
pub open spec fn cut_before_spec(s: Seq<char>, t: Seq<char>) -> Seq<char> {
    match find_spec(s, t) {
        Some(i) => s.take(i),
        None => s,
    }
}


/// A string holding the first `k` of the given characters.
pub fn string_of_prefix(cs: &[char], k: usize) -> (r: String)
    requires
        k <= cs@.len(),
    ensures
        r@ == cs@.take(k as int),
{
    let mut s = String::new();
    let mut i: usize = 0;
    while i < k
        invariant
            k <= cs@.len(),
            i <= k,
            s@ == cs@.take(i as int),
        decreases k - i,
    {
        s.push(cs[i]);
        assert(cs@.take(i as int).push(cs@[i as int]) =~= cs@.take(i + 1));
        i = i + 1;
    }
    s
}


/// `s` without leading and trailing white space.
pub fn trim_text(s: &str) -> (r: String)
    ensures
        r@ == trim_spec(s@),
{
    let cs = chars_of(s);
    let t = trim_chars(cs.as_slice());
    string_of_chars(t.as_slice())
}

} // verus!
