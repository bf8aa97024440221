use jamcounter::scraping::{clean_post_text, clean_scraped_posts, parse_posts, ForumPost, ScrapeError};

const PAGE: &str = r#"<html><body>
<div class="message-inner"><h4 class="message-name">Host</h4><div class="message-cell--main">Rules</div></div>
<div class="message-inner"><h4 class="message-name">Ann</h4><div class="message-cell--main">1. <b>Game</b></div></div>
<div class="message-inner"><div class="message-cell--main">orphan</div></div>
</body></html>"#;

fn post(author: &str, text: &str) -> ForumPost {
    ForumPost { author: author.to_string(), text: text.to_string() }
}

fn views(v: &[Option<ForumPost>]) -> Vec<Option<(String, String)>> {
    v.iter().map(|p| p.as_ref().map(|p| (p.author.clone(), p.text.clone()))).collect()
}

#[test]
fn posts_are_parsed_from_their_boxes() {
    let posts = parse_posts(PAGE);
    assert_eq!(
        views(&posts),
        vec![Some(("Host".to_string(), "Rules".to_string())), Some(("Ann".to_string(), "1. Game".to_string())), None]
    );
}

#[test]
fn a_page_without_posts_has_none() {
    assert_eq!(parse_posts("<p>nothing</p>").len(), 0);
}

#[test]
fn post_text_is_cut_before_comments() {
    assert_eq!(clean_post_text(&"1. A\n2. B\nComments: nice".to_string()), "1. A\n2. B\n");
    assert_eq!(clean_post_text(&"no comments here".to_string()), "no comments here");
}

#[test]
fn post_text_keeps_at_most_6000_characters() {
    let long: String = "é".repeat(7000);
    let cleaned = clean_post_text(&long);
    assert_eq!(cleaned.chars().count(), 6000);
    let short = format!("{}Comments:{}", "x".repeat(10), "y".repeat(7000));
    assert_eq!(clean_post_text(&short), "x".repeat(10));
}

#[test]
fn cleaned_posts_drop_the_instructions_post() {
    let posts = vec![Some(post("Host", "Rules")), Some(post("Ann", "1. A Comments: x")), Some(post("Bo", "1. B"))];
    let cleaned = clean_scraped_posts(posts).unwrap();
    let got: Vec<(String, String)> = cleaned.into_iter().map(|p| (p.author, p.text)).collect();
    assert_eq!(got, vec![("Ann".to_string(), "1. A ".to_string()), ("Bo".to_string(), "1. B".to_string())]);
}

#[test]
fn an_unparsed_post_is_an_error() {
    let posts = vec![Some(post("Host", "Rules")), None];
    assert_eq!(clean_scraped_posts(posts).unwrap_err(), ScrapeError::UnparsedPost);
}

#[test]
fn only_the_instructions_post_leaves_nothing() {
    assert!(clean_scraped_posts(vec![Some(post("Host", "Rules"))]).unwrap().is_empty());
}

#[test]
fn the_first_name_and_text_of_a_box_are_taken() {
    let page = r#"<div class="message-inner"><span class="message-name">A</span><span class="message-name">B</span><p class="message-cell--main">one</p><p class="message-cell--main">two</p></div>"#;
    let posts = parse_posts(page);
    assert_eq!(views(&posts), vec![Some(("A".to_string(), "one".to_string()))]);
}
