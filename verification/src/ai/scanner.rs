//! The games a voting post ranks, as the language model extracts them, and
//! the clean-up of its answers.

use vstd::prelude::*;
use crate::ai::message::{is_message, Message, Role};
use crate::ai::SYSTEM_MESSAGE;
use crate::chars::{chars_of, ends_with_spec, ends_with_chars, remove_all_chars, remove_all_spec, string_of_chars, string_of_prefix};
use crate::value::ValueEq;

verus! {

/// A game of the jam: its title and its author (or authors, separated by
/// commas).
#[derive(Clone, Debug, PartialEq, Eq, Hash)]
pub struct VideoGame {
    pub title: String,
    pub author: String,
}

impl View for VideoGame {
    type V = (Seq<char>, Seq<char>);

    open spec fn view(&self) -> (Seq<char>, Seq<char>) {
        (self.title@, self.author@)
    }
}

impl ValueEq for VideoGame {
    fn eq_value(&self, other: &Self) -> (r: bool) {
        self.title == other.title && self.author == other.author
    }

    fn clone_value(&self) -> (r: Self) {
        VideoGame { title: self.title.clone(), author: self.author.clone() }
    }
}

impl VideoGame {
    /// The game as "<title> by <author>".
    pub fn display_name(&self) -> (r: String)
        ensures
            r@ == self.title@ + seq![' ', 'b', 'y', ' '] + self.author@,
    {
        let mut r = String::new();
        r.append(self.title.as_str());
        r.push(' ');
        r.push('b');
        r.push('y');
        r.push(' ');
        r.append(self.author.as_str());
        assert(r@ =~= self.title@ + seq![' ', 'b', 'y', ' '] + self.author@);
        r
    }
}

/// The instructions that ask for the ranked list of games in a post.
pub const NAMES_INSTRUCTIONS: &'static str = r#"
    You will be provided with a forum post which consists of plaintext content.
    This post contains a ranked list of video games. Ignore any additional comments, reviews,
    notes, or "Best Of" categories, and focus only on the list of games. You will extract this list,
    providing (in order) the title and author of each game.

    Ignore games which are explicitly marked as "Unjudged" or "Unranked" and do NOT include them
    in your output.

    Provide your output as valid JSON. Do not output ANYTHING other than valid JSON.
    ```
    [
      { "title": ..., "author": ... },
      ...
    ]
    ```

    Do not include the author's name in the "title" field. Keep in mind that a game might have multiple
    authors. In that case, include all authors in one string, separated by commas (NOT in a JSON sublist).

    If the post does not attempt to rank any games, just ignore its contents and return "[]".
  "#;

/// The chat that asks for the ranked games of a post: the system message,
/// the instructions, then the post.
pub fn names_request(post_content: &str) -> (r: Vec<Message>)
    ensures
        r@.len() == 3,
        is_message(r@[0], Role::System, SYSTEM_MESSAGE@),
        is_message(r@[1], Role::User, NAMES_INSTRUCTIONS@),
        is_message(r@[2], Role::User, post_content@),
{
    let mut r: Vec<Message> = Vec::new();
    r.push(Message::system(String::from_str(SYSTEM_MESSAGE)));
    r.push(Message::user(String::from_str(NAMES_INSTRUCTIONS)));
    r.push(Message::user(String::from_str(post_content)));
    r
}

/// The fence that opens a JSON code block.
pub open spec fn json_fence() -> Seq<char> {
    seq!['`', '`', '`', 'j', 's', 'o', 'n']
}

/// The fence that opens or closes a code block.
pub open spec fn fence() -> Seq<char> {
    seq!['`', '`', '`']
}

/// A model answer with its code fences deleted: first every "```json", then
/// every "```".
pub open spec fn without_fences(s: Seq<char>) -> Seq<char> {
    remove_all_spec(remove_all_spec(s, json_fence()), fence())
}

/// Deletes the code fences around a JSON answer of the model.
pub fn strip_code_fences(response: &str) -> (r: String)
    ensures
        r@ == without_fences(response@),
{
    let cs = chars_of(response);
    let json_fence_chars: [char; 7] = ['`', '`', '`', 'j', 's', 'o', 'n'];
    let fence_chars: [char; 3] = ['`', '`', '`'];
    assert(json_fence_chars@ =~= json_fence());
    assert(fence_chars@ =~= fence());
    let once = remove_all_chars(cs.as_slice(), json_fence_chars.as_slice());
    let twice = remove_all_chars(once.as_slice(), fence_chars.as_slice());
    string_of_chars(twice.as_slice())
}

/// " by " followed by the author.
pub open spec fn by_author(author: Seq<char>) -> Seq<char> {
    seq![' ', 'b', 'y', ' '] + author
}

/// A title with a trailing " by <author>" cut off.
pub open spec fn title_without_author(title: Seq<char>, author: Seq<char>) -> Seq<char> {
    if ends_with_spec(title, by_author(author)) {
        title.take(title.len() - by_author(author).len())
    } else {
        title
    }
}

/// A game whose title no longer ends with " by <author>".
pub open spec fn cleaned_game(g: (Seq<char>, Seq<char>)) -> (Seq<char>, Seq<char>) {
    (title_without_author(g.0, g.1), g.1)
}

/// Cuts " by <author>" off the end of the title, which the model sometimes
/// leaves there.
pub fn remove_author_name_from_title(game: VideoGame) -> (r: VideoGame)
    ensures
        r@ == cleaned_game(game@),
{
    let title = chars_of(game.title.as_str());
    let author = chars_of(game.author.as_str());
    let mut suffix: Vec<char> = Vec::new();
    suffix.push(' ');
    suffix.push('b');
    suffix.push('y');
    suffix.push(' ');
    let mut i: usize = 0;
    while i < author.len()
        invariant
            i <= author@.len(),
            suffix@ == seq![' ', 'b', 'y', ' '] + author@.take(i as int),
        decreases author@.len() - i,
    {
        suffix.push(author[i]);
        assert(seq![' ', 'b', 'y', ' '] + author@.take(i + 1) =~= suffix@);
        i = i + 1;
    }
    assert(author@.take(author@.len() as int) =~= author@);
    if ends_with_chars(title.as_slice(), suffix.as_slice()) {
        let cut = string_of_prefix(title.as_slice(), title.len() - suffix.len());
        VideoGame { title: cut, author: game.author }
    } else {
        game
    }
}

/// The games of a model answer, each with " by <author>" cut off its title.
pub fn clean_extracted_games(games: Vec<VideoGame>) -> (r: Vec<VideoGame>)
    ensures
        r@.len() == games@.len(),
        forall|i: int| 0 <= i < games@.len() ==> #[trigger] r@[i]@ == cleaned_game(games@[i]@),
{
    let mut out: Vec<VideoGame> = Vec::new();
    let mut rest = games;
    let ghost all = rest@;
    let n = rest.len();
    while rest.len() > 0
        invariant
            out@.len() + rest@.len() == n,
            n == all.len(),
            forall|k: int| 0 <= k < rest@.len() ==> #[trigger] rest@[k] == all[out@.len() + k],
            forall|k: int| 0 <= k < out@.len() ==> #[trigger] out@[k]@ == cleaned_game(all[k]@),
        decreases rest@.len(),
    {
        let g = rest.remove(0);
        let ghost at = out@.len();
        out.push(remove_author_name_from_title(g));
        assert forall|k: int| 0 <= k < rest@.len() implies #[trigger] rest@[k] == all[out@.len() + k] by {
            assert(all[at + 1 + k] == all[out@.len() + k]);
        }
    }
    out
}

} // verus!
