//! How alike two games are: the token containment of their titles and of
//! their authors.

use vstd::prelude::*;
use crate::ai::scanner::VideoGame;
use crate::clustering::text::{containment_of_tokens, containment_spec, normalize_and_tokenize, string_views, tokens_spec, Ratio};

verus! {

/// The tokens of a game's title and author.
#[derive(Debug)]
pub struct GameTokens {
    pub title: Vec<String>,
    pub author: Vec<String>,
}

impl View for GameTokens {
    type V = (Seq<Seq<char>>, Seq<Seq<char>>);

    open spec fn view(&self) -> (Seq<Seq<char>>, Seq<Seq<char>>) {
        (string_views(self.title@), string_views(self.author@))
    }
}

/// The tokens of a game's title and author.
pub open spec fn game_tokens_spec(g: (Seq<char>, Seq<char>)) -> (Seq<Seq<char>>, Seq<Seq<char>>) {
    (tokens_spec(g.0), tokens_spec(g.1))
}

/// Splits a game's title and author into tokens.
pub fn game_tokens(game: &VideoGame) -> (r: GameTokens)
    ensures
        r@ == game_tokens_spec(game@),
{
    GameTokens {
        title: normalize_and_tokenize(game.title.as_str()),
        author: normalize_and_tokenize(game.author.as_str()),
    }
}

/// The containment ratios of two games' titles and of their authors.
pub fn game_token_ratios(a: &GameTokens, b: &GameTokens) -> (r: (Ratio, Ratio))
    ensures
        (r.0.numerator as int, r.0.denominator as int) == containment_spec(a@.0, b@.0),
        (r.1.numerator as int, r.1.denominator as int) == containment_spec(a@.1, b@.1),
        r.0.denominator > 0,
        r.1.denominator > 0,
{
    (containment_of_tokens(&a.title, &b.title), containment_of_tokens(&a.author, &b.author))
}

} // verus!
