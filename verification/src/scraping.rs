//! Forum posts read from the voting thread's HTML.

use vstd::prelude::*;
use crate::chars::{chars_of, cut_before_spec, find_chars, occurs_at, string_of_prefix};

verus! {

/// A forum post: who wrote it, and its text.
#[derive(Clone, Debug)]
pub struct ForumPost {
    pub author: String,
    pub text: String,
}

impl View for ForumPost {
    type V = (Seq<char>, Seq<char>);

    open spec fn view(&self) -> (Seq<char>, Seq<char>) {
        (self.author@, self.text@)
    }
}

/// What `scraper` finds in an HTML document: for every element matching the
/// `outer` selector, in document order, the concatenated text of each of its
/// descendants matching the `inner` selector, in document order (none when
/// `inner` is not a valid selector); `None` when `outer` is not a valid
/// selector.
pub uninterp spec fn selected_texts(
    document: Seq<char>,
    outer: Seq<char>,
    inner: Seq<char>,
) -> Option<Seq<Seq<Seq<char>>>>;

/// Lists of strings, as views.
pub open spec fn text_lists_view(v: Seq<Vec<String>>) -> Seq<Seq<Seq<char>>> {
    v.map_values(|texts: Vec<String>| texts@.map_values(|t: String| t@))
}

/// Whether a character may stand in a CSS class name after its first
/// letter: an ASCII letter or digit, `-` or `_`.
pub open spec fn is_class_name_char(c: char) -> bool {
    let u = c as u32;
    ||| 97 <= u && u <= 122
    ||| 65 <= u && u <= 90
    ||| 48 <= u && u <= 57
    ||| u == 45 || u == 95
}

/// Whether a selector is a single class selector: a dot, an ASCII letter,
/// then letters, digits, `-` or `_`.
pub open spec fn is_class_selector(s: Seq<char>) -> bool {
    &&& s.len() >= 2
    &&& s[0] == '.'
    &&& {
        let u = s[1] as u32;
        (97 <= u && u <= 122) || (65 <= u && u <= 90)
    }
    &&& forall|i: int| 1 <= i < s.len() ==> is_class_name_char(#[trigger] s[i])
}

/// Parses `document` with `scraper::Html::parse_document` and the selectors
/// with `scraper::Selector::parse`; for every element that `Html::select`
/// yields for `outer`, collects the text (`ElementRef::text`) of every
/// element that `ElementRef::select` yields for `inner`. The contract names
/// the result, and states that `Selector::parse` accepts a single class
/// selector, so that the result is `Some` when `outer` is one.
#[verifier::external_body]
fn select_texts(document: &str, outer: &str, inner: &str) -> (r: Option<Vec<Vec<String>>>)
    ensures
        match r {
            Some(v) => selected_texts(document@, outer@, inner@) == Some(text_lists_view(v@)),
            None => selected_texts(document@, outer@, inner@) is None && !is_class_selector(outer@),
        },
{
    let html = scraper::Html::parse_document(document);
    let outer_selector = match scraper::Selector::parse(outer) {
        Ok(s) => s,
        Err(_) => return None,
    };
    let inner_selector = scraper::Selector::parse(inner);
    Some(html.select(&outer_selector)
        .map(|e| match &inner_selector {
            Ok(s) => e.select(s).map(|t| t.text().collect::<String>()).collect(),
            Err(_) => Vec::new(),
        })
        .collect())
}

/// The selector of a post's box in the thread.
pub const POST_SELECTOR: &'static str = ".message-inner";

/// The selector of the author's name within a post.
pub const AUTHOR_SELECTOR: &'static str = ".message-name";

/// The selector of the text within a post.
pub const TEXT_SELECTOR: &'static str = ".message-cell--main";

/// The first of a list of texts, if any.
pub open spec fn first_text(texts: Seq<Seq<char>>) -> Option<Seq<char>> {
    if texts.len() > 0 {
        Some(texts[0])
    } else {
        None
    }
}

/// The posts made of the first author and the first text found in each
/// post box: a post when both were found, `None` when either was not.
pub open spec fn posts_from_parts(
    authors: Seq<Seq<Seq<char>>>,
    texts: Seq<Seq<Seq<char>>>,
) -> Seq<Option<(Seq<char>, Seq<char>)>> {
    Seq::new(
        if authors.len() <= texts.len() { authors.len() } else { texts.len() },
        |i: int| match (first_text(authors[i]), first_text(texts[i])) {
            (Some(a), Some(t)) => Some((a, t)),
            _ => None,
        },
    )
}

/// Posts, as views.
pub open spec fn posts_view(v: Seq<Option<ForumPost>>) -> Seq<Option<(Seq<char>, Seq<char>)>> {
    v.map_values(|o: Option<ForumPost>| match o {
        Some(p) => Some(p@),
        None => None,
    })
}

/// The posts of a page: for every post box, the post made of the first
/// author name and the first text in it, `None` when either is missing.
pub fn parse_posts(html: &str) -> (r: Vec<Option<ForumPost>>)
    ensures
        selected_texts(html@, POST_SELECTOR@, AUTHOR_SELECTOR@) is Some,
        selected_texts(html@, POST_SELECTOR@, TEXT_SELECTOR@) is Some,
        posts_view(r@) == posts_from_parts(
            selected_texts(html@, POST_SELECTOR@, AUTHOR_SELECTOR@)->0,
            selected_texts(html@, POST_SELECTOR@, TEXT_SELECTOR@)->0,
        ),
{
    proof {
        reveal_strlit(".message-inner");
        let s = POST_SELECTOR@;
        assert forall|i: int| 1 <= i < s.len() implies is_class_name_char(#[trigger] s[i]) by {
            reveal_strlit(".message-inner");
        }
        assert(is_class_selector(POST_SELECTOR@));
    }
    let authors = match select_texts(html, POST_SELECTOR, AUTHOR_SELECTOR) {
        Some(a) => a,
        None => {
            assert(false);
            Vec::new()
        },
    };
    let texts = match select_texts(html, POST_SELECTOR, TEXT_SELECTOR) {
        Some(t) => t,
        None => {
            assert(false);
            Vec::new()
        },
    };
    let ghost target = posts_from_parts(text_lists_view(authors@), text_lists_view(texts@));
    let n = if authors.len() <= texts.len() { authors.len() } else { texts.len() };
    let mut posts: Vec<Option<ForumPost>> = Vec::new();
    let mut i: usize = 0;
    while i < n
        invariant
            n == target.len(),
            n <= authors@.len(),
            n <= texts@.len(),
            i <= n,
            target == posts_from_parts(text_lists_view(authors@), text_lists_view(texts@)),
            posts_view(posts@) == target.take(i as int),
        decreases n - i,
    {
        let ghost before = posts_view(posts@);
        let ghost av = first_text(text_lists_view(authors@)[i as int]);
        let ghost tv = first_text(text_lists_view(texts@)[i as int]);
        let post = if authors[i].len() > 0 && texts[i].len() > 0 {
            assert(av == Some(authors@[i as int]@[0]@));
            assert(tv == Some(texts@[i as int]@[0]@));
            Some(ForumPost { author: authors[i][0].clone(), text: texts[i][0].clone() })
        } else {
            assert(av is None || tv is None);
            None
        };
        let ghost pv = posts_view(seq![post])[0];
        assert(pv == target[i as int]);
        posts.push(post);
        assert(posts_view(posts@) =~= before.push(pv));
        assert(target.take(i + 1) =~= target.take(i as int).push(target[i as int]));
        i = i + 1;
    }
    assert(target.take(n as int) =~= target);
    posts
}

/// The marker after which a post holds only comments.
pub open spec fn comments_marker() -> Seq<char> {
    seq!['C', 'o', 'm', 'm', 'e', 'n', 't', 's', ':']
}

/// The most characters of a post's text that are kept.
pub const MAX_POST_CHARS: usize = 6000;

/// A post's text cut before "Comments:" and to at most 6000 characters.
pub open spec fn cleaned_text(text: Seq<char>) -> Seq<char> {
    let cut = cut_before_spec(text, comments_marker());
    if cut.len() > MAX_POST_CHARS {
        cut.take(MAX_POST_CHARS as int)
    } else {
        cut
    }
}

/// Cuts a post's text before "Comments:" and to at most 6000 characters.
pub fn clean_post_text(text: &String) -> (r: String)
    ensures
        r@ == cleaned_text(text@),
{
    let cs = chars_of(text.as_str());
    let marker: [char; 9] = ['C', 'o', 'm', 'm', 'e', 'n', 't', 's', ':'];
    assert(marker@ =~= comments_marker());
    let mut end = match find_chars(cs.as_slice(), marker.as_slice()) {
        Some(i) => i,
        None => cs.len(),
    };
    proof {
        crate::chars::lemma_find_in_range(cs@, comments_marker());
    }
    if end > MAX_POST_CHARS {
        end = MAX_POST_CHARS;
    }
    let r = string_of_prefix(cs.as_slice(), end);
    assert(r@ =~= cleaned_text(text@));
    r
}

/// Why scraped posts could not be used.
#[derive(Clone, Copy, Debug, PartialEq, Eq, Structural)]
pub enum ScrapeError {
    /// The author or the text of a post was not found.
    UnparsedPost,
}

/// The voting posts of a thread: every post must have been parsed; the
/// first post, which holds the instructions, is dropped, and every text is
/// cleaned. The thread must have at least one post.
pub fn clean_scraped_posts(posts: Vec<Option<ForumPost>>) -> (r: Result<Vec<ForumPost>, ScrapeError>)
    requires
        posts@.len() > 0,
    ensures
        match r {
            Ok(v) => {
                &&& forall|i: int| 0 <= i < posts@.len() ==> (#[trigger] posts@[i]) is Some
                &&& v@.len() == posts@.len() - 1
                &&& forall|i: int|
                    0 <= i < v@.len() ==> (#[trigger] v@[i])@ == (
                        posts@[i + 1]->0.author@,
                        cleaned_text(posts@[i + 1]->0.text@),
                    )
            },
            Err(e) => e == ScrapeError::UnparsedPost && exists|i: int|
                0 <= i < posts@.len() && (#[trigger] posts@[i]) is None,
        },
{
    let mut i: usize = 0;
    while i < posts.len()
        invariant
            i <= posts@.len(),
            forall|j: int| 0 <= j < i ==> (#[trigger] posts@[j]) is Some,
        decreases posts@.len() - i,
    {
        if posts[i].is_none() {
            assert(posts@[i as int] is None);
            return Err(ScrapeError::UnparsedPost);
        }
        i = i + 1;
    }
    let mut out: Vec<ForumPost> = Vec::new();
    let mut k: usize = 1;
    while k < posts.len()
        invariant
            1 <= k <= posts@.len(),
            forall|j: int| 0 <= j < posts@.len() ==> (#[trigger] posts@[j]) is Some,
            out@.len() == k - 1,
            forall|j: int|
                0 <= j < out@.len() ==> (#[trigger] out@[j])@ == (
                    posts@[j + 1]->0.author@,
                    cleaned_text(posts@[j + 1]->0.text@),
                ),
        decreases posts@.len() - k,
    {
        assert(posts@[k as int] is Some);
        match &posts[k] {
            Some(p) => {
                let text = clean_post_text(&p.text);
                out.push(ForumPost { author: p.author.clone(), text });
            },
            None => {},
        }
        k = k + 1;
    }
    Ok(out)
}


/// A cleaned text is the start of the text it came from, holds at most 6000
/// characters, and holds no "Comments:".
pub proof fn lemma_cleaned_text_bounds(text: Seq<char>)
    ensures
        cleaned_text(text).len() <= MAX_POST_CHARS,
        cleaned_text(text) == text.take(cleaned_text(text).len() as int),
        forall|i: int| !occurs_at(cleaned_text(text), comments_marker(), i),
{
    let m = comments_marker();
    crate::chars::lemma_find_in_range(text, m);
    crate::chars::lemma_find_is_first(text, m);
    let cut = cut_before_spec(text, m);
    let c = cleaned_text(text);
    assert(c =~= text.take(c.len() as int));
    assert forall|i: int| !occurs_at(c, m, i) by {
        if occurs_at(c, m, i) {
            assert(c.subrange(i, i + m.len()) =~= text.subrange(i, i + m.len()));
            assert(occurs_at(text, m, i));
        }
    }
}

} // verus!
