//! Chat messages sent to the language model.

use vstd::prelude::*;

verus! {

/// Who speaks in a chat message.
#[derive(Clone, Copy, Debug, PartialEq, Eq, Structural)]
pub enum Role {
    System,
    User,
}

/// One message of a chat with the language model.
#[derive(Clone, Debug)]
pub struct Message {
    pub role: Role,
    pub content: String,
}

impl Message {
    /// A message with the given role and content.
    pub fn new(role: Role, content: String) -> (r: Self)
        ensures
            r.role == role,
            r.content@ == content@,
    {
        Message { role, content }
    }

    /// A system message.
    pub fn system(content: String) -> (r: Self)
        ensures
            r.role == Role::System,
            r.content@ == content@,
    {
        Self::new(Role::System, content)
    }

    /// A user message.
    pub fn user(content: String) -> (r: Self)
        ensures
            r.role == Role::User,
            r.content@ == content@,
    {
        Self::new(Role::User, content)
    }
}

/// Whether a message has the given role and content.
pub open spec fn is_message(m: Message, role: Role, content: Seq<char>) -> bool {
    m.role == role && m.content@ == content
}

} // verus!
