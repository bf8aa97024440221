//! Whether a post is a voting post, as the language model judges it.

use vstd::prelude::*;
use crate::ai::message::{is_message, Message, Role};
use crate::ai::SYSTEM_MESSAGE;
use crate::chars::chars_of;

verus! {

/// The instructions that ask whether a post is a ranked list of games.
pub const VOTING_POST_INSTRUCTIONS: &'static str = r#"
    You will be provided with a forum post which consists of BBCode-styled content.
    This post originates from a thread where users are ranking video games in a list.
    Some of these posts contain a ranked list of games. Others are administrative or serve
    other purposes. If the post you are given is a ranked list of games, respond "Yes". If
    the post serves any other purpose, respond "No".
  "#;

/// The chat that asks whether a post is a ranked list of games: the system
/// message, the instructions, then the post.
pub fn voting_post_request(post_content: &str) -> (r: Vec<Message>)
    ensures
        r@.len() == 3,
        is_message(r@[0], Role::System, SYSTEM_MESSAGE@),
        is_message(r@[1], Role::User, VOTING_POST_INSTRUCTIONS@),
        is_message(r@[2], Role::User, post_content@),
{
    let mut r: Vec<Message> = Vec::new();
    r.push(Message::system(String::from_str(SYSTEM_MESSAGE)));
    r.push(Message::user(String::from_str(VOTING_POST_INSTRUCTIONS)));
    r.push(Message::user(String::from_str(post_content)));
    r
}

/// Whether `s`, ASCII-lowercased, holds "yes" at position `i`.
pub open spec fn yes_at(s: Seq<char>, i: int) -> bool {
    &&& 0 <= i
    &&& i + 3 <= s.len()
    &&& s[i] == 'y' || s[i] == 'Y'
    &&& s[i + 1] == 'e' || s[i + 1] == 'E'
    &&& s[i + 2] == 's' || s[i + 2] == 'S'
}

/// Whether the answer, ASCII-lowercased, contains "yes".
pub open spec fn says_yes(s: Seq<char>) -> bool {
    exists|i: int| #[trigger] yes_at(s, i)
}

/// Reads the model's answer to the voting-post question.
pub fn response_says_yes(response: &str) -> (r: bool)
    ensures
        r == says_yes(response@),
{
    let cs = chars_of(response);
    let n = cs.len();
    if n < 3 {
        assert(!says_yes(response@)) by {
            if says_yes(response@) {
                let i = choose|i: int| #[trigger] yes_at(response@, i);
            }
        }
        return false;
    }
    let mut i: usize = 0;
    while i < n - 2
        invariant
            n == cs@.len(),
            cs@ == response@,
            n >= 3,
            i <= n - 2,
            forall|j: int| 0 <= j < i ==> !#[trigger] yes_at(response@, j),
        decreases n - i,
    {
        let y = cs[i] == 'y' || cs[i] == 'Y';
        let e = cs[i + 1] == 'e' || cs[i + 1] == 'E';
        let s = cs[i + 2] == 's' || cs[i + 2] == 'S';
        if y && e && s {
            assert(yes_at(response@, i as int));
            return true;
        }
        i = i + 1;
    }
    assert(!says_yes(response@)) by {
        if says_yes(response@) {
            let j = choose|j: int| #[trigger] yes_at(response@, j);
            assert(j < i);
        }
    }
    false
}

} // verus!
