//! Chat messages and the request that carries a conversation to the server.
use vstd::prelude::*;

use crate::config::Config;

verus! {

/// Who wrote a message.
#[derive(Clone, Copy, Debug, PartialEq, Eq, Structural)]
pub enum Role {
    System,
    User,
    Assistant,
}

/// One message of a conversation.
#[derive(Debug)]
pub struct Message {
    pub role: Role,
    pub content: String,
}

impl View for Message {
    type V = (Role, Seq<char>);

    open spec fn view(&self) -> (Role, Seq<char>) {
        (self.role, self.content@)
    }
}

impl Clone for Message {
    fn clone(&self) -> (r: Self)
        ensures
            r@ == self@,
    {
        Message { role: self.role, content: self.content.clone() }
    }
}

impl Message {
    /// A message written by the user.
    pub fn user(content: &str) -> (m: Self)
        ensures
            m@ == (Role::User, content@),
    {
        Message { role: Role::User, content: content.to_owned() }
    }

    /// A message written by the assistant.
    pub fn assistant(content: &str) -> (m: Self)
        ensures
            m@ == (Role::Assistant, content@),
    {
        Message { role: Role::Assistant, content: content.to_owned() }
    }

    /// A system instruction.
    pub fn system(content: &str) -> (m: Self)
        ensures
            m@ == (Role::System, content@),
    {
        Message { role: Role::System, content: content.to_owned() }
    }
}

/// The views of a sequence of messages.
pub open spec fn message_views(ms: Seq<Message>) -> Seq<(Role, Seq<char>)> {
    ms.map_values(|m: Message| m@)
}

/// Options for the server's chat template.
#[derive(Clone, Copy, Debug, PartialEq, Eq, Structural)]
pub struct ChatTemplateKwargs {
    pub enable_thinking: bool,
}

/// The body of a chat-completion request. `temperature` holds the IEEE-754
/// bits of the sampling temperature.
#[derive(Debug)]
pub struct ChatRequest {
    pub model: String,
    pub messages: Vec<Message>,
    pub stream: bool,
    pub chat_template_kwargs: Option<ChatTemplateKwargs>,
    pub temperature: Option<u32>,
    pub max_tokens: Option<usize>,
}

/// The model that a configuration asks for: the one given on the command
/// line, else the one of the environment.
pub open spec fn requested_model(cfg: Config) -> Seq<char> {
    match cfg.model {
        Some(m) => m@,
        None => cfg.model_name@,
    }
}

/// The request that sends `messages` under the configuration `cfg`: a
/// streamed completion, without the model's thinking phase.
pub fn build_request(cfg: &Config, messages: &[Message]) -> (r: ChatRequest)
    ensures
        r.model@ == requested_model(*cfg),
        message_views(r.messages@) == message_views(messages@),
        r.stream,
        r.chat_template_kwargs == Some(ChatTemplateKwargs { enable_thinking: false }),
        r.temperature == cfg.temperature,
        r.max_tokens == cfg.max_tokens,
{
    let mut copied: Vec<Message> = Vec::new();
    let n = messages.len();
    let mut i: usize = 0;
    while i < n
        invariant
            n == messages@.len(),
            i <= n,
            copied@.len() == i,
            message_views(copied@) == message_views(messages@.take(i as int)),
        decreases n - i,
    {
        let m = messages[i].clone();
        assert(m@ == messages@[i as int]@);
        let ghost before = copied@;
        copied.push(m);
        assert forall|k: int| 0 <= k < i + 1 implies message_views(copied@)[k] == message_views(
            messages@.take(i + 1),
        )[k] by {
            if k < i {
                assert(message_views(before)[k] == message_views(messages@.take(i as int))[k]);
            }
        }
        assert(message_views(copied@) =~= message_views(messages@.take(i + 1)));
        i = i + 1;
    }
    assert(messages@.take(n as int) =~= messages@);
    let model = match &cfg.model {
        Some(m) => m.clone(),
        None => cfg.model_name.clone(),
    };
    ChatRequest {
        model,
        messages: copied,
        stream: true,
        chat_template_kwargs: Some(ChatTemplateKwargs { enable_thinking: false }),
        temperature: cfg.temperature,
        max_tokens: cfg.max_tokens,
    }
}

} // verus!
