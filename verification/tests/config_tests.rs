use jamcounter::config::{default_model, default_openai_url, Config};

#[test]
fn defaults_name_the_openai_service() {
    assert_eq!(default_openai_url(), "https://api.openai.com/v1");
    assert_eq!(default_model(), "gpt-3.5-turbo");
}

#[test]
fn config_holds_plain_settings() {
    let c = Config {
        openai_api_key: String::new(),
        openai_url: default_openai_url(),
        llm_model: default_model(),
        voting_post_url: "https://example.org/thread".to_string(),
        output_path: "out.json".to_string(),
    };
    assert_eq!(c.clone().llm_model, "gpt-3.5-turbo");
}
