//! The history of a chat: every message sent and received, in order.
use vstd::prelude::*;

use crate::llm::{message_views, Message, Role};

verus! {

/// The messages of a chat, oldest first.
pub struct Conversation {
    messages: Vec<Message>,
}

impl View for Conversation {
    type V = Seq<(Role, Seq<char>)>;

    closed spec fn view(&self) -> Seq<(Role, Seq<char>)> {
        message_views(self.messages@)
    }
}

impl Default for Conversation {
    fn default() -> (r: Self)
        ensures
            r@ == Seq::<(Role, Seq<char>)>::empty(),
    {
        let r = Conversation { messages: Vec::new() };
        assert(r@ =~= Seq::<(Role, Seq<char>)>::empty());
        r
    }
}

impl Conversation {
    /// An empty conversation.
    pub fn new() -> (r: Self)
        ensures
            r@ == Seq::<(Role, Seq<char>)>::empty(),
    {
        Self::default()
    }

    /// Appends a message of the user.
    pub fn push_user(&mut self, content: &str)
        ensures
            final(self)@ == old(self)@.push((Role::User, content@)),
    {
        self.messages.push(Message::user(content));
        assert(self@ =~= old(self)@.push((Role::User, content@)));
    }

    /// Appends a message of the assistant.
    pub fn push_assistant(&mut self, content: &str)
        ensures
            final(self)@ == old(self)@.push((Role::Assistant, content@)),
    {
        self.messages.push(Message::assistant(content));
        assert(self@ =~= old(self)@.push((Role::Assistant, content@)));
    }

    /// Appends the system instruction given on the command line. It is sent
    /// in a message of the user's role.
    pub fn push_system(&mut self, content: &str)
        ensures
            final(self)@ == old(self)@.push((Role::User, content@)),
    {
        self.messages.push(Message::user(content));
        assert(self@ =~= old(self)@.push((Role::User, content@)));
    }

    /// The messages, oldest first.
    pub fn as_slice(&self) -> (r: &[Message])
        ensures
            message_views(r@) == self@,
    {
        self.messages.as_slice()
    }
}

} // verus!
