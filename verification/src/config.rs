//! The settings of a run.

use vstd::prelude::*;

verus! {

/// The settings of a run: how to reach the language model, which thread to
/// count and where to write the results.
#[derive(Clone, Debug)]
pub struct Config {
    pub openai_api_key: String,
    pub openai_url: String,
    pub llm_model: String,
    pub voting_post_url: String,
    pub output_path: String,
}

/// The address of the OpenAI API, used when none is set.
pub const DEFAULT_OPENAI_URL: &'static str = "https://api.openai.com/v1";

/// The model used when none is set.
pub const DEFAULT_MODEL: &'static str = "gpt-3.5-turbo";

/// The address of the OpenAI API.
pub fn default_openai_url() -> (r: String)
    ensures
        r@ == DEFAULT_OPENAI_URL@,
{
    String::from_str(DEFAULT_OPENAI_URL)
}

/// The model used when none is set.
pub fn default_model() -> (r: String)
    ensures
        r@ == DEFAULT_MODEL@,
{
    String::from_str(DEFAULT_MODEL)
}

} // verus!
