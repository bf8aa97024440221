//! What the library asks the language model, and how it reads the answers.

pub mod categories;
pub mod classifier;
pub mod message;
pub mod scanner;

pub use message::{Message, Role};

use vstd::prelude::*;

verus! {

/// The system message that opens every chat.
pub const SYSTEM_MESSAGE: &'static str = r"
You are a helpful assistant. The user will provide you
with instructions and text. Follow the instructions. Provide
output using the exact format specified. Do not provide
any additional output other than what is requested.
";

} // verus!
