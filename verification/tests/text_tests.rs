use jamcounter::chars::trim_text;
use jamcounter::clustering::games::{game_token_ratios, game_tokens};
use jamcounter::clustering::text::{
    containment_of_tokens, normalize_and_tokenize, normalize_text, token_containment_ratio, Ratio,
};
use jamcounter::ai::scanner::VideoGame;

fn tokens(s: &str) -> Vec<String> {
    normalize_and_tokenize(s)
}

fn strings(v: &[&str]) -> Vec<String> {
    v.iter().map(|s| s.to_string()).collect()
}

#[test]
fn normalize_text_lowercases_strips_symbols_and_trims() {
    assert_eq!(normalize_text("  The Legend of Zelda!  "), "the legend of zelda");
    assert_eq!(normalize_text("Zelda: BOTW (2017)"), "zelda botw 2017");
}

#[test]
fn normalize_text_removes_letters_that_lowercase_outside_ascii() {
    assert_eq!(normalize_text("ÉCOLE"), "cole");
    assert_eq!(normalize_text("  Half-Life: 2!\tHD "), "halflife 2hd");
}

#[test]
fn tokenize_drops_common_words() {
    assert_eq!(tokens("A Game of the Year"), strings(&["game", "of", "year"]));
    assert_eq!(tokens("An Apple"), strings(&["apple"]));
}

#[test]
fn tokenize_splits_on_any_run_of_spaces() {
    assert_eq!(tokens("big    red   dog"), strings(&["big", "red", "dog"]));
    assert_eq!(tokens("   "), Vec::<String>::new());
}

#[test]
fn tokenize_deletes_tabs_and_newlines_as_symbols() {
    assert_eq!(tokens("a\tb\nc"), strings(&["abc"]));
}

#[test]
fn tokens_are_never_empty_or_common() {
    for text in ["The the THE", "a an the", "x  y", "  The-Thing  "] {
        for t in tokens(text) {
            assert!(!t.is_empty());
            assert!(t != "the" && t != "an" && t != "a");
            assert!(!t.contains(' '));
        }
    }
}

#[test]
fn containment_counts_tokens_of_the_first_found_in_the_second() {
    let r = token_containment_ratio("Super Game", "super game deluxe");
    assert_eq!(r, Ratio { numerator: 2, denominator: 2 });
    let r = token_containment_ratio("Super Game Deluxe", "super game");
    assert_eq!(r, Ratio { numerator: 2, denominator: 2 });
    let r = token_containment_ratio("red blue green", "blue yellow");
    assert_eq!(r, Ratio { numerator: 1, denominator: 2 });
}

#[test]
fn containment_counts_repeated_tokens_each_time() {
    let r = token_containment_ratio("go go go", "go");
    assert_eq!(r, Ratio { numerator: 3, denominator: 1 });
}

#[test]
fn containment_of_empty_names() {
    assert_eq!(token_containment_ratio("", "!!!"), Ratio { numerator: 1, denominator: 1 });
    assert_eq!(token_containment_ratio("The", "game"), Ratio { numerator: 0, denominator: 1 });
    assert_eq!(token_containment_ratio("game", ""), Ratio { numerator: 0, denominator: 1 });
}

#[test]
fn a_name_fully_contains_itself() {
    for name in ["Super Mario", "x", "", "The Thing!"] {
        let t = tokens(name);
        let r = containment_of_tokens(&t, &t);
        assert_eq!(r.numerator, r.denominator);
        assert!(r.denominator > 0);
    }
}

#[test]
fn game_ratios_compare_titles_and_authors_separately() {
    let a = VideoGame { title: "Space Cats".to_string(), author: "Nova, Kit".to_string() };
    let b = VideoGame { title: "space cats 2".to_string(), author: "kit".to_string() };
    let ta = game_tokens(&a);
    let tb = game_tokens(&b);
    let (title, author) = game_token_ratios(&ta, &tb);
    assert_eq!(title, Ratio { numerator: 2, denominator: 2 });
    assert_eq!(author, Ratio { numerator: 1, denominator: 1 });
}

#[test]
fn trim_text_removes_unicode_white_space_at_both_ends() {
    assert_eq!(trim_text("  hello world \n"), "hello world");
    assert_eq!(trim_text("\u{3000}x\u{a0}"), "x");
    assert_eq!(trim_text(" \t "), "");
}
