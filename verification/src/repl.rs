//! What a line typed at the prompt, or the whole of a piped input, asks for.
use vstd::prelude::*;

use crate::config::Config;
use crate::conversation::Conversation;
use crate::llm::{build_request, message_views, requested_model, ChatRequest, ChatTemplateKwargs, Role};
use crate::text::{chars_of, trim, trim_str};

verus! {

/// The word that ends the session.
pub open spec fn exit_word() -> Seq<char> {
    seq!['e', 'x', 'i', 't']
}

/// What one read from the prompt asks for.
#[derive(Debug)]
pub enum PromptStep {
    /// End the session.
    Quit,
    /// Nothing to send; prompt again.
    Skip,
    /// Send this (trimmed) text.
    Ask(String),
}

/// Decides on one read from the prompt: `bytes_read` is what the read
/// returned (0 at the end of the input) and `line` the text read. The session
/// ends at the end of the input or on `exit`; a blank line is skipped; any
/// other line is sent trimmed.
pub fn prompt_step(bytes_read: usize, line: &str) -> (r: PromptStep)
    ensures
        (bytes_read == 0 || trim(line@) == exit_word()) ==> r is Quit,
        !(bytes_read == 0 || trim(line@) == exit_word()) && trim(line@).len() == 0 ==> r is Skip,
        !(bytes_read == 0 || trim(line@) == exit_word()) && trim(line@).len() > 0 ==> (r matches PromptStep::Ask(s)
            && s@ == trim(line@)),
{
    let trimmed = trim_str(line);
    let v = chars_of(trimmed.as_str());
    let is_exit = v.len() == 4 && v[0] == 'e' && v[1] == 'x' && v[2] == 'i' && v[3] == 't';
    proof {
        if is_exit {
            assert(trimmed@ =~= exit_word());
        } else if v.len() == 4 {
            assert(exit_word()[0] == 'e' && exit_word()[1] == 'x' && exit_word()[2] == 'i'
                && exit_word()[3] == 't');
        }
    }
    if is_exit || bytes_read == 0 {
        PromptStep::Quit
    } else if v.len() == 0 {
        PromptStep::Skip
    } else {
        PromptStep::Ask(trimmed)
    }
}

/// The prompt that a piped input makes: the input as it is, unless it is
/// blank.
pub fn pipe_prompt(input: String) -> (r: Option<String>)
    ensures
        trim(input@).len() > 0 ==> r == Some(input),
        trim(input@).len() == 0 ==> r is None,
{
    let trimmed = trim_str(input.as_str());
    if trimmed.as_str().is_empty() {
        None
    } else {
        Some(input)
    }
}

/// The messages of a dialogue: the `i`-th prompt, then the `i`-th answer,
/// and so on, oldest first.
pub open spec fn dialogue(prompts: Seq<Seq<char>>, answers: Seq<Seq<char>>) -> Seq<
    (Role, Seq<char>),
> {
    Seq::new(
        (prompts.len() + answers.len()) as nat,
        |k: int|
            if k % 2 == 0 {
                (Role::User, prompts[k / 2])
            } else {
                (Role::Assistant, answers[k / 2])
            },
    )
}

/// A dialogue grows one message per step: a prompt after as many answers as
/// prompts, an answer after one prompt more than answers.
pub proof fn law_dialogue_turn(
    prompts: Seq<Seq<char>>,
    answers: Seq<Seq<char>>,
    p: Seq<char>,
    a: Seq<char>,
)
    ensures
        prompts.len() == answers.len() ==> dialogue(prompts.push(p), answers) == dialogue(
            prompts,
            answers,
        ).push((Role::User, p)),
        prompts.len() == answers.len() + 1 ==> dialogue(prompts, answers.push(a)) == dialogue(
            prompts,
            answers,
        ).push((Role::Assistant, a)),
{
    let n = prompts.len() + answers.len();
    if prompts.len() == answers.len() {
        let d = dialogue(prompts.push(p), answers);
        let e = dialogue(prompts, answers).push((Role::User, p));
        assert forall|k: int| 0 <= k < d.len() implies d[k] == e[k] by {
            if k < n {
                if k % 2 == 0 {
                    assert(k / 2 < prompts.len());
                } else {
                    assert(k / 2 < answers.len());
                }
            } else {
                assert(k == 2 * prompts.len());
                assert(k % 2 == 0 && k / 2 == prompts.len());
            }
        }
        assert(d =~= e);
    }
    if prompts.len() == answers.len() + 1 {
        let d = dialogue(prompts, answers.push(a));
        let e = dialogue(prompts, answers).push((Role::Assistant, a));
        assert forall|k: int| 0 <= k < d.len() implies d[k] == e[k] by {
            if k < n {
                if k % 2 == 0 {
                    assert(k / 2 < prompts.len());
                } else {
                    assert(k / 2 < answers.len());
                }
            } else {
                assert(k == 2 * answers.len() + 1);
                assert(k % 2 == 1 && k / 2 == answers.len());
            }
        }
        assert(d =~= e);
    }
}

/// What a read from the prompt leads to.
#[derive(Debug)]
pub enum ReplAction {
    /// End the session.
    Quit,
    /// Nothing to send; prompt again.
    Skip,
    /// Send this request; its answer is then to be recorded.
    Send(ChatRequest),
}

/// The history of an interactive session: the system instruction, if any,
/// then the prompts and answers in turn.
pub struct Repl {
    conversation: Conversation,
    base: Ghost<Seq<(Role, Seq<char>)>>,
    prompts: Ghost<Seq<Seq<char>>>,
    answers: Ghost<Seq<Seq<char>>>,
}

/// The request that `cfg` makes of a conversation with the messages `history`.
pub open spec fn request_for(r: ChatRequest, cfg: Config, history: Seq<(Role, Seq<char>)>) -> bool {
    &&& r.model@ == requested_model(cfg)
    &&& message_views(r.messages@) == history
    &&& r.stream
    &&& r.chat_template_kwargs == Some(ChatTemplateKwargs { enable_thinking: false })
    &&& r.temperature == cfg.temperature
    &&& r.max_tokens == cfg.max_tokens
}

impl Repl {
    /// The messages before the first prompt: the system instruction, if any.
    pub closed spec fn base(&self) -> Seq<(Role, Seq<char>)> {
        self.base@
    }

    /// The prompts sent so far, trimmed, oldest first.
    pub closed spec fn prompts(&self) -> Seq<Seq<char>> {
        self.prompts@
    }

    /// The answers recorded so far, oldest first.
    pub closed spec fn answers(&self) -> Seq<Seq<char>> {
        self.answers@
    }

    /// A prompt has been sent and its answer is still to be recorded.
    pub open spec fn waiting(&self) -> bool {
        self.prompts().len() == self.answers().len() + 1
    }

    /// The messages of the session so far.
    pub closed spec fn history(&self) -> Seq<(Role, Seq<char>)> {
        self.conversation@
    }

    /// The history is the base followed by the dialogue of prompts and
    /// answers, and at most one prompt waits for its answer.
    pub closed spec fn wf(&self) -> bool {
        &&& self.conversation@ == self.base@ + dialogue(self.prompts@, self.answers@)
        &&& (self.prompts@.len() == self.answers@.len() || self.prompts@.len()
            == self.answers@.len() + 1)
    }

    /// A session that starts with the system instruction `system`, if any.
    pub fn new(system: Option<&str>) -> (r: Self)
        ensures
            r.history() == r.base() + dialogue(r.prompts(), r.answers()),
            r.wf(),
            !r.waiting(),
            r.prompts() == Seq::<Seq<char>>::empty(),
            r.answers() == Seq::<Seq<char>>::empty(),
            r.base() == match system {
                Some(s) => seq![(Role::User, s@)],
                None => Seq::<(Role, Seq<char>)>::empty(),
            },
            r.history() == r.base(),
    {
        let mut conversation = Conversation::new();
        match system {
            Some(s) => conversation.push_system(s),
            None => {},
        }
        let ghost base = conversation@;
        let r = Repl {
            conversation,
            base: Ghost(base),
            prompts: Ghost(Seq::empty()),
            answers: Ghost(Seq::empty()),
        };
        assert(dialogue(Seq::empty(), Seq::empty()) =~= Seq::<(Role, Seq<char>)>::empty());
        assert(r.conversation@ =~= r.base@ + dialogue(r.prompts@, r.answers@));
        r
    }

    /// The conversation so far.
    pub fn conversation(&self) -> (r: &Conversation)
        ensures
            r@ == self.history(),
    {
        &self.conversation
    }

    /// Takes one read from the prompt (`bytes_read` is 0 at the end of the
    /// input). A prompt is recorded and sent with the whole history; the end
    /// of the input, `exit` and blank lines send nothing.
    pub fn on_input(&mut self, bytes_read: usize, line: &str, cfg: &Config) -> (r: ReplAction)
        requires
            old(self).wf(),
            !old(self).waiting(),
        ensures
            final(self).history() == final(self).base() + dialogue(final(self).prompts(), final(self).answers()),
            final(self).wf(),
            final(self).base() == old(self).base(),
            final(self).answers() == old(self).answers(),
            (bytes_read == 0 || trim(line@) == exit_word()) ==> r is Quit,
            !(bytes_read == 0 || trim(line@) == exit_word()) && trim(line@).len() == 0 ==> r is Skip,
            r is Quit || r is Skip ==> final(self).prompts() == old(self).prompts()
                && final(self).history() == old(self).history(),
            !(bytes_read == 0 || trim(line@) == exit_word()) && trim(line@).len() > 0 ==> r is Send,
            r matches ReplAction::Send(req) ==> {
                &&& final(self).prompts() == old(self).prompts().push(trim(line@))
                &&& final(self).waiting()
                &&& final(self).history() == old(self).history().push((Role::User, trim(line@)))
                &&& request_for(req, *cfg, final(self).history())
            },
    {
        match prompt_step(bytes_read, line) {
            PromptStep::Quit => ReplAction::Quit,
            PromptStep::Skip => ReplAction::Skip,
            PromptStep::Ask(prompt) => ReplAction::Send(self.ask(prompt.as_str(), cfg)),
        }
    }

    /// Takes the whole of a piped input: unless it is blank, it is recorded
    /// as it is and sent with the whole history.
    pub fn on_piped(&mut self, input: String, cfg: &Config) -> (r: Option<ChatRequest>)
        requires
            old(self).wf(),
            !old(self).waiting(),
        ensures
            final(self).history() == final(self).base() + dialogue(final(self).prompts(), final(self).answers()),
            final(self).wf(),
            final(self).base() == old(self).base(),
            final(self).answers() == old(self).answers(),
            trim(input@).len() == 0 ==> r is None && final(self).prompts() == old(self).prompts()
                && final(self).history() == old(self).history(),
            trim(input@).len() > 0 ==> r is Some,
            r matches Some(req) ==> {
                &&& final(self).prompts() == old(self).prompts().push(input@)
                &&& final(self).waiting()
                &&& final(self).history() == old(self).history().push((Role::User, input@))
                &&& request_for(req, *cfg, final(self).history())
            },
    {
        match pipe_prompt(input) {
            Some(prompt) => Some(self.ask(prompt.as_str(), cfg)),
            None => None,
        }
    }

    fn ask(&mut self, prompt: &str, cfg: &Config) -> (r: ChatRequest)
        requires
            old(self).wf(),
            !old(self).waiting(),
        ensures
            final(self).history() == final(self).base() + dialogue(final(self).prompts(), final(self).answers()),
            final(self).wf(),
            final(self).base() == old(self).base(),
            final(self).answers() == old(self).answers(),
            final(self).prompts() == old(self).prompts().push(prompt@),
            final(self).waiting(),
            final(self).history() == old(self).history().push((Role::User, prompt@)),
            request_for(r, *cfg, final(self).history()),
    {
        proof {
            law_dialogue_turn(self.prompts@, self.answers@, prompt@, Seq::empty());
        }
        self.conversation.push_user(prompt);
        proof {
            self.prompts@ = self.prompts@.push(prompt@);
            assert(self.conversation@ =~= self.base@ + dialogue(self.prompts@, self.answers@));
        }
        build_request(cfg, self.conversation.as_slice())
    }

    /// Records the answer to the prompt that waits for one.
    pub fn on_answer(&mut self, answer: &str)
        requires
            old(self).wf(),
            old(self).waiting(),
        ensures
            final(self).history() == final(self).base() + dialogue(final(self).prompts(), final(self).answers()),
            final(self).wf(),
            !final(self).waiting(),
            final(self).base() == old(self).base(),
            final(self).prompts() == old(self).prompts(),
            final(self).answers() == old(self).answers().push(answer@),
            final(self).history() == old(self).history().push((Role::Assistant, answer@)),
    {
        proof {
            law_dialogue_turn(self.prompts@, self.answers@, Seq::empty(), answer@);
        }
        self.conversation.push_assistant(answer);
        proof {
            self.answers@ = self.answers@.push(answer@);
            assert(self.conversation@ =~= self.base@ + dialogue(self.prompts@, self.answers@));
        }
    }
}

} // verus!
