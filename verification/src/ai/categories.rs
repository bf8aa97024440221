//! The "Best Of" categories: the chats that ask for a post's votes in them,
//! and the clean-up of the answers.

use vstd::prelude::*;
use crate::ai::message::{is_message, Message, Role};
use crate::ai::scanner::{cleaned_game, remove_author_name_from_title, VideoGame};
use crate::ai::SYSTEM_MESSAGE;
use crate::clustering::text::string_views;

verus! {

/// The instructions that ask for the game a post votes for in each category.
pub const CATEGORIES_INSTRUCTIONS: &'static str = r#"
    You will be provided with a forum post which consists of plaintext content.
    This post contains votes for a video game contest. You will focus on the "Best Of" categories.
    Ignore the base rankings and any additional comments, reviews, or notes, and focus only on the
    "Best Of" categories. You will extract the games that this user voted for in each category.

    Ignore games which are explicitly marked as "Unjudged" or "Unranked" and do NOT include them
    in your output.

    Provide your output as valid JSON. Do not output ANYTHING other than valid JSON.
    ```
    {
      <category>: { "title": <game name>, "author": <game author> },
      <category>: { "title": <game name>, "author": <game author> },
      ...
    }
    ```

    Do NOT output null for missing data. Simply omit the key from the output entirely in that case.

    Do not include the author's name in the "title" field. Keep in mind that a game might have multiple
    authors. In that case, include all authors in one string, separated by commas (NOT in a JSON sublist).

    If the post does not attempt to award any games, just ignore its contents and return "{}".
  "#;

/// The instructions that ask for the forum user a post votes for in each
/// category that awards users rather than games.
///
/// The pipeline that extracts these votes calls for such a prompt without
/// giving its words; this text is written for it on the model of
/// `CATEGORIES_INSTRUCTIONS`, with the users' handles in place of games.
pub const AUTHOR_CATEGORIES_INSTRUCTIONS: &'static str = r#"
    You will be provided with a forum post which consists of plaintext content.
    This post contains votes for a video game contest. You will focus on the "Best Of" categories
    that award forum users rather than games. Ignore the base rankings, the categories that award
    games, and any additional comments, reviews, or notes. You will extract the user that this
    post voted for in each category.

    Provide your output as valid JSON. Do not output ANYTHING other than valid JSON.
    ```
    {
      <category>: <user name>,
      <category>: <user name>,
      ...
    }
    ```

    Do NOT output null for missing data. Simply omit the key from the output entirely in that case.

    If the post does not attempt to award any users, just ignore its contents and return "{}".
  "#;

/// The opening of the message that names the categories.
pub const CATEGORIES_INTRO: &'static str = "The specific categories you are looking for are: ";

/// The separator between category names.
pub const CATEGORY_SEPARATOR: &'static str = ", ";

/// The items joined into one sequence, `sep` between each two.
pub open spec fn join_spec(items: Seq<Seq<char>>, sep: Seq<char>) -> Seq<char>
    decreases items.len(),
{
    if items.len() == 0 {
        seq![]
    } else if items.len() == 1 {
        items[0]
    } else {
        join_spec(items.drop_last(), sep) + sep + items.last()
    }
}

/// The message that names the categories: the intro, then the categories
/// joined by ", ".
pub fn categories_message(categories: &[String]) -> (r: String)
    ensures
        r@ == CATEGORIES_INTRO@ + join_spec(string_views(categories@), CATEGORY_SEPARATOR@),
{
    let ghost names = string_views(categories@);
    let mut joined = String::new();
    let mut i: usize = 0;
    while i < categories.len()
        invariant
            i <= categories@.len(),
            names == string_views(categories@),
            joined@ == join_spec(names.take(i as int), CATEGORY_SEPARATOR@),
        decreases categories@.len() - i,
    {
        let ghost prefix = names.take(i + 1);
        assert(prefix.drop_last() =~= names.take(i as int));
        assert(prefix.last() == categories@[i as int]@);
        if i > 0 {
            joined.append(CATEGORY_SEPARATOR);
        } else {
            assert(prefix.len() == 1);
            assert(joined@ =~= Seq::<char>::empty());
        }
        joined.append(categories[i].as_str());
        proof {
            if i == 0 {
                assert(joined@ =~= prefix[0]);
            }
        }
        i = i + 1;
    }
    assert(names.take(categories@.len() as int) =~= names);
    let mut r = String::from_str(CATEGORIES_INTRO);
    r.append(joined.as_str());
    r
}

/// The chat that asks for the games a post votes for in the categories:
/// the system message, the instructions, the categories, then the post.
pub fn categories_request(categories: &[String], post_content: &str) -> (r: Vec<Message>)
    ensures
        r@.len() == 4,
        is_message(r@[0], Role::System, SYSTEM_MESSAGE@),
        is_message(r@[1], Role::User, CATEGORIES_INSTRUCTIONS@),
        is_message(
            r@[2],
            Role::User,
            CATEGORIES_INTRO@ + join_spec(string_views(categories@), CATEGORY_SEPARATOR@),
        ),
        is_message(r@[3], Role::User, post_content@),
{
    let mut r: Vec<Message> = Vec::new();
    r.push(Message::system(String::from_str(SYSTEM_MESSAGE)));
    r.push(Message::user(String::from_str(CATEGORIES_INSTRUCTIONS)));
    r.push(Message::user(categories_message(categories)));
    r.push(Message::user(String::from_str(post_content)));
    r
}

/// The chat that asks for the users a post votes for in the categories:
/// the system message, the instructions, the categories, then the post.
pub fn author_categories_request(categories: &[String], post_content: &str) -> (r: Vec<Message>)
    ensures
        r@.len() == 4,
        is_message(r@[0], Role::System, SYSTEM_MESSAGE@),
        is_message(r@[1], Role::User, AUTHOR_CATEGORIES_INSTRUCTIONS@),
        is_message(
            r@[2],
            Role::User,
            CATEGORIES_INTRO@ + join_spec(string_views(categories@), CATEGORY_SEPARATOR@),
        ),
        is_message(r@[3], Role::User, post_content@),
{
    let mut r: Vec<Message> = Vec::new();
    r.push(Message::system(String::from_str(SYSTEM_MESSAGE)));
    r.push(Message::user(String::from_str(AUTHOR_CATEGORIES_INSTRUCTIONS)));
    r.push(Message::user(categories_message(categories)));
    r.push(Message::user(String::from_str(post_content)));
    r
}

/// The votes of a model answer, each game with " by <author>" cut off its
/// title; the categories stay as they are.
pub fn clean_category_votes(votes: Vec<(String, VideoGame)>) -> (r: Vec<(String, VideoGame)>)
    ensures
        r@.len() == votes@.len(),
        forall|i: int|
            0 <= i < votes@.len() ==> (#[trigger] r@[i]).0@ == votes@[i].0@ && r@[i].1@ == cleaned_game(
                votes@[i].1@,
            ),
{
    let mut out: Vec<(String, VideoGame)> = Vec::new();
    let mut rest = votes;
    let ghost all = rest@;
    let n = rest.len();
    while rest.len() > 0
        invariant
            out@.len() + rest@.len() == n,
            n == all.len(),
            forall|k: int| 0 <= k < rest@.len() ==> #[trigger] rest@[k] == all[out@.len() + k],
            forall|k: int|
                0 <= k < out@.len() ==> (#[trigger] out@[k]).0@ == all[k].0@ && out@[k].1@ == cleaned_game(
                    all[k].1@,
                ),
        decreases rest@.len(),
    {
        let (category, game) = rest.remove(0);
        let ghost at = out@.len();
        out.push((category, remove_author_name_from_title(game)));
        assert forall|k: int| 0 <= k < rest@.len() implies #[trigger] rest@[k] == all[out@.len() + k] by {
            assert(all[at + 1 + k] == all[out@.len() + k]);
        }
    }
    out
}

} // verus!
