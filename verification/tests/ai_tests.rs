use jamcounter::ai::categories::{
    author_categories_request, categories_message, categories_request, clean_category_votes,
    AUTHOR_CATEGORIES_INSTRUCTIONS, CATEGORIES_INSTRUCTIONS,
};
use jamcounter::ai::classifier::{response_says_yes, voting_post_request, VOTING_POST_INSTRUCTIONS};
use jamcounter::ai::scanner::{
    clean_extracted_games, names_request, remove_author_name_from_title, strip_code_fences,
    VideoGame, NAMES_INSTRUCTIONS,
};
use jamcounter::ai::{Message, Role, SYSTEM_MESSAGE};

fn game(title: &str, author: &str) -> VideoGame {
    VideoGame { title: title.to_string(), author: author.to_string() }
}

#[test]
fn messages_carry_role_and_content() {
    let m = Message::new(Role::User, "hi".to_string());
    assert_eq!(m.role, Role::User);
    assert_eq!(m.content, "hi");
    assert_eq!(Message::system("s".to_string()).role, Role::System);
    assert_eq!(Message::user("u".to_string()).role, Role::User);
}

#[test]
fn author_suffix_is_cut_from_the_title() {
    assert_eq!(remove_author_name_from_title(game("Space Cats by Kit", "Kit")), game("Space Cats", "Kit"));
    assert_eq!(remove_author_name_from_title(game("Space Cats", "Kit")), game("Space Cats", "Kit"));
    assert_eq!(remove_author_name_from_title(game("Space Cats by Kit", "Nova")), game("Space Cats by Kit", "Nova"));
    assert_eq!(remove_author_name_from_title(game(" by Kit", "Kit")), game("", "Kit"));
    assert_eq!(remove_author_name_from_title(game("Café by Zoë", "Zoë")), game("Café", "Zoë"));
}

#[test]
fn only_one_author_suffix_is_cut() {
    assert_eq!(remove_author_name_from_title(game("X by A by A", "A")), game("X by A", "A"));
}

#[test]
fn extracted_games_are_cleaned_in_order() {
    let games = vec![game("One by A", "A"), game("Two", "B")];
    assert_eq!(clean_extracted_games(games), vec![game("One", "A"), game("Two", "B")]);
}

#[test]
fn category_votes_are_cleaned() {
    let votes = vec![("art".to_string(), game("One by A", "A"))];
    assert_eq!(clean_category_votes(votes), vec![("art".to_string(), game("One", "A"))]);
}

#[test]
fn code_fences_are_removed() {
    assert_eq!(strip_code_fences("```json\n[1, 2]\n```"), "\n[1, 2]\n");
    assert_eq!(strip_code_fences("```[]```"), "[]");
    assert_eq!(strip_code_fences("````"), "`");
    assert_eq!(strip_code_fences("no fences"), "no fences");
}

#[test]
fn categories_message_joins_with_commas() {
    let cats = vec!["Art".to_string(), "Fun".to_string(), "Sound".to_string()];
    assert_eq!(categories_message(&cats), "The specific categories you are looking for are: Art, Fun, Sound");
    assert_eq!(categories_message(&[]), "The specific categories you are looking for are: ");
}

#[test]
fn requests_are_system_instructions_then_post() {
    let r = names_request("post");
    assert_eq!(r.len(), 3);
    assert_eq!((r[0].role, r[0].content.as_str()), (Role::System, SYSTEM_MESSAGE));
    assert_eq!((r[1].role, r[1].content.as_str()), (Role::User, NAMES_INSTRUCTIONS));
    assert_eq!((r[2].role, r[2].content.as_str()), (Role::User, "post"));

    let r = voting_post_request("post");
    assert_eq!(r[1].content, VOTING_POST_INSTRUCTIONS);

    let cats = vec!["Art".to_string()];
    let r = categories_request(&cats, "post");
    assert_eq!(r.len(), 4);
    assert_eq!(r[1].content, CATEGORIES_INSTRUCTIONS);
    assert_eq!(r[2].content, "The specific categories you are looking for are: Art");
    assert_eq!(r[3].content, "post");

    let r = author_categories_request(&cats, "post");
    assert_eq!(r[1].content, AUTHOR_CATEGORIES_INSTRUCTIONS);
}

#[test]
fn yes_is_found_in_any_case() {
    assert!(response_says_yes("Yes"));
    assert!(response_says_yes("the answer: YES."));
    assert!(response_says_yes("eyes"));
    assert!(!response_says_yes("No"));
    assert!(!response_says_yes("ye"));
    assert!(!response_says_yes(""));
}

#[test]
fn a_game_is_shown_as_title_by_author() {
    assert_eq!(game("Space Cats", "Kit").display_name(), "Space Cats by Kit");
}
