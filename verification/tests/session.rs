use chat_llm::config::{Cli, Config, EnvVars};
use chat_llm::conversation::Conversation;
use chat_llm::error::Error;
use chat_llm::llm::{build_request, ChatTemplateKwargs, Message, Role};
use chat_llm::render::{ChatStreamChunk, Delta, StreamChoice, Usage};
use chat_llm::repl::{pipe_prompt, prompt_step, PromptStep, Repl, ReplAction};
use chat_llm::stream::{check_budget, on_status, StatusStep, StreamState, MAX_ATTEMPTS};

fn env(key: &str, url: &str, model: &str) -> EnvVars {
    EnvVars {
        llm_api_key: key.to_string(),
        llm_url: url.to_string(),
        model_name: model.to_string(),
    }
}

fn no_args() -> Cli {
    Cli { system: None, model: None, temperature: None, max_tokens: None, budget: None }
}

fn chunk(text: Option<&str>, tokens: Option<u64>) -> ChatStreamChunk {
    ChatStreamChunk {
        choices: vec![StreamChoice { delta: Delta { content: text.map(|t| t.to_string()) } }],
        usage: tokens.map(|total_tokens| Usage { total_tokens }),
    }
}

#[test]
fn empty_envs() {
    match Config::new(env("", "", ""), no_args()) {
        Err(Error::EmptyConfig(name)) => assert_eq!(name, "MODEL_NAME"),
        other => panic!("unexpected {:?}", other),
    }
}

#[test]
fn each_empty_variable_is_named() {
    let name = |e: Result<Config, Error>| match e {
        Err(Error::EmptyConfig(name)) => name,
        other => panic!("unexpected {:?}", other),
    };
    assert_eq!(name(Config::new(env("", "u", "m"), no_args())), "LLM_API_KEY");
    assert_eq!(name(Config::new(env("k", "", "m"), no_args())), "LLM_URL");
    assert_eq!(name(Config::new(env("", "", "m"), no_args())), "LLM_API_KEY");
    assert_eq!(name(Config::new(env("", "u", ""), no_args())), "LLM_API_KEY");
    assert_eq!(name(Config::new(env("k", "", ""), no_args())), "LLM_URL");
    assert_eq!(name(Config::new(env("k", "u", ""), no_args())), "MODEL_NAME");
}

#[test]
fn complete_environment_is_accepted() {
    let cli = Cli {
        system: Some("s".to_string()),
        model: None,
        temperature: Some(0.5f32.to_bits()),
        max_tokens: Some(7),
        budget: Some(20),
    };
    let cfg = Config::new(env("test", "http://x", "m1"), cli).unwrap();
    assert_eq!(cfg.llm_api_key, "test");
    assert_eq!(cfg.llm_url, "http://x");
    assert_eq!(cfg.model_name, "m1");
    assert_eq!(cfg.system.as_deref(), Some("s"));
    assert_eq!(cfg.temperature, Some(0.5f32.to_bits()));
    assert_eq!(cfg.max_tokens, Some(7));
    assert_eq!(cfg.budget, Some(20));
}

#[test]
fn no_argument() {
    assert!(matches!(prompt_step(5, "exit\n"), PromptStep::Quit));
}

#[test]
fn prompt_steps() {
    assert!(matches!(prompt_step(0, ""), PromptStep::Quit));
    assert!(matches!(prompt_step(9, "  exit \n"), PromptStep::Quit));
    assert!(matches!(prompt_step(3, " \t\n"), PromptStep::Skip));
    match prompt_step(8, "  exits\n") {
        PromptStep::Ask(s) => assert_eq!(s, "exits"),
        other => panic!("unexpected {:?}", other),
    }
}

#[test]
fn linux_pipe() {
    let input = "What is the capital\nof France?\n".to_string();
    let prompt = pipe_prompt(input.clone()).unwrap();
    assert_eq!(prompt, input);
    let mut conversation = Conversation::new();
    conversation.push_user(&prompt);
    assert!(conversation.as_slice()[0].content.contains("of France?"));
    assert_eq!(pipe_prompt(" \n\t".to_string()), None);
}

#[test]
fn conversation_keeps_order_and_roles() {
    let mut c = Conversation::new();
    assert!(c.as_slice().is_empty());
    c.push_system("be brief");
    c.push_user("hi");
    c.push_assistant("hello");
    let m = c.as_slice();
    assert_eq!(m.len(), 3);
    assert_eq!((m[0].role, m[0].content.as_str()), (Role::User, "be brief"));
    assert_eq!((m[1].role, m[1].content.as_str()), (Role::User, "hi"));
    assert_eq!((m[2].role, m[2].content.as_str()), (Role::Assistant, "hello"));
}

#[test]
fn messages_carry_their_roles() {
    assert_eq!(Message::user("a").role, Role::User);
    assert_eq!(Message::assistant("b").role, Role::Assistant);
    let s = Message::system("c");
    assert_eq!((s.role, s.content.as_str()), (Role::System, "c"));
}

#[test]
fn repl_prompt_success() {
    let cfg = Config::new(env("test", "test", "test"), no_args()).unwrap();
    let mut conversation = Conversation::new();
    conversation.push_user("first input");
    conversation.push_assistant("");
    conversation.push_user("second input");
    let request = build_request(&cfg, conversation.as_slice());
    assert!(request.messages[0].content.contains("first input"));
    assert_eq!(request.messages.len(), 3);
}

#[test]
fn all_params_are_filled() {
    let cli = Cli {
        system: Some("speak in French".to_string()),
        model: Some("some_model_here".to_string()),
        temperature: Some(0.68f32.to_bits()),
        max_tokens: Some(123),
        budget: None,
    };
    let cfg = Config::new(env("test", "test", "test"), cli).unwrap();
    let mut conversation = Conversation::new();
    if let Some(system) = &cfg.system {
        conversation.push_system(system);
    }
    conversation.push_user("some_input");
    let request = build_request(&cfg, conversation.as_slice());
    assert_eq!(request.model, "some_model_here");
    assert_eq!(request.temperature.map(f32::from_bits), Some(0.68));
    assert_eq!(request.max_tokens.unwrap_or_default(), 123);
    assert!(request.messages[0].content.contains("speak in French"));
    assert!(request.stream);
    assert_eq!(request.chat_template_kwargs, Some(ChatTemplateKwargs { enable_thinking: false }));
}

#[test]
fn environment_model_is_the_default() {
    let cfg = Config::new(env("k", "u", "env-model"), no_args()).unwrap();
    let request = build_request(&cfg, &[]);
    assert_eq!(request.model, "env-model");
    assert_eq!(request.temperature, None);
    assert_eq!(request.max_tokens, None);
}

#[test]
fn stream_request_with_retry() {
    let mut sent = 0;
    let mut attempt = 1;
    loop {
        sent += 1;
        match on_status(429, attempt) {
            StatusStep::Retry { delay_ms } => {
                assert_eq!(delay_ms, 500 * attempt as u64);
                attempt += 1;
            }
            StatusStep::Fail => break,
            StatusStep::Stream => panic!("429 is no success"),
        }
    }
    assert_eq!(sent, 3);
    assert_eq!(MAX_ATTEMPTS, 3);
}

#[test]
fn status_steps() {
    assert_eq!(on_status(200, 1), StatusStep::Stream);
    assert_eq!(on_status(299, 3), StatusStep::Stream);
    assert_eq!(on_status(500, 1), StatusStep::Fail);
    assert_eq!(on_status(404, 1), StatusStep::Fail);
    assert_eq!(on_status(429, 2), StatusStep::Retry { delay_ms: 1000 });
    assert_eq!(on_status(429, 3), StatusStep::Fail);
}

#[test]
fn cfg_with_budget() {
    let mut state = StreamState::new();
    let body = b"data: {\"choices\":[{\"delta\":{\"content\":\"Paris\"}}]}\n";
    let payloads = state.feed(body);
    assert_eq!(payloads.len(), 1);
    let text = state.accept(vec![Ok(chunk(Some("Paris"), None))]).unwrap();
    assert_eq!(text, "Paris");
    let usage = state.feed(b"data: {\"choices\":[],\"usage\":{\"total_tokens\":25}}\n");
    assert_eq!(usage.len(), 1);
    assert_eq!(state.accept(vec![Ok(chunk(None, Some(25)))]).unwrap(), "");
    let rest = state.finish();
    assert!(rest.is_empty());
    state.accept(Vec::new()).unwrap();
    match state.into_answer(Some(20)) {
        Err(Error::BudgetExceeded { used, budget }) => assert_eq!((used, budget), (25, 20)),
        other => panic!("unexpected {:?}", other),
    }
}

#[test]
fn budget_rules() {
    assert!(check_budget(None, Some(1000)).is_ok());
    assert!(check_budget(Some(20), None).is_ok());
    assert!(check_budget(Some(20), Some(20)).is_ok());
    assert!(check_budget(Some(20), Some(21)).is_err());
    assert!(check_budget(Some(-1), Some(0)).is_err());
}

#[test]
fn stream_state_joins_pieces() {
    let mut state = StreamState::new();
    let a = state.feed(b"data: {\"x\"");
    assert!(a.is_empty());
    assert_eq!(state.accept(Vec::new()).unwrap(), "");
    let b = state.feed(b":1}\n\ndata: [DONE]\ndata: {\"y\":2}");
    assert_eq!(b, ["{\"x\":1}"]);
    assert_eq!(state.accept(vec![Ok(chunk(Some("a"), Some(3)))]).unwrap(), "a");
    let c = state.finish();
    assert_eq!(c, ["{\"y\":2}"]);
    assert_eq!(state.accept(vec![Ok(chunk(Some("b"), None))]).unwrap(), "b");
    assert_eq!(state.into_answer(Some(3)).unwrap(), "ab");
}

#[test]
fn failed_payload_leaves_the_reply() {
    let mut state = StreamState::new();
    state.feed(b"data: {\"a\":1}\n");
    assert_eq!(state.accept(vec![Ok(chunk(Some("x"), None))]).unwrap(), "x");
    state.feed(b"data: {\n");
    let bad = serde_json::from_str::<serde_json::Value>("{").unwrap_err();
    assert!(matches!(state.accept(vec![Err(bad)]), Err(Error::Decode(_))));
}

#[test]
fn repl_records_the_dialogue() {
    let cfg = Config::new(env("k", "u", "m"), no_args()).unwrap();
    let mut repl = Repl::new(None);
    assert!(matches!(repl.on_input(3, "  \n", &cfg), ReplAction::Skip));
    match repl.on_input(8, " hello \n", &cfg) {
        ReplAction::Send(req) => {
            assert_eq!(req.messages.len(), 1);
            assert_eq!((req.messages[0].role, req.messages[0].content.as_str()), (Role::User, "hello"));
        }
        other => panic!("unexpected {:?}", other),
    }
    repl.on_answer("hi there");
    match repl.on_input(4, "bye\n", &cfg) {
        ReplAction::Send(req) => {
            let got: Vec<(Role, &str)> =
                req.messages.iter().map(|m| (m.role, m.content.as_str())).collect();
            assert_eq!(
                got,
                [(Role::User, "hello"), (Role::Assistant, "hi there"), (Role::User, "bye")]
            );
        }
        other => panic!("unexpected {:?}", other),
    }
    repl.on_answer("ciao");
    assert!(matches!(repl.on_input(5, "exit\n", &cfg), ReplAction::Quit));
    assert!(matches!(repl.on_input(0, "", &cfg), ReplAction::Quit));
    assert_eq!(repl.conversation().as_slice().len(), 4);
}

#[test]
fn repl_starts_with_the_system_instruction() {
    let cfg = Config::new(env("k", "u", "m"), no_args()).unwrap();
    let mut repl = Repl::new(Some("speak in French"));
    match repl.on_piped("bonjour\n".to_string(), &cfg) {
        Some(req) => {
            assert_eq!(req.messages.len(), 2);
            assert_eq!(req.messages[0].content, "speak in French");
            assert_eq!(req.messages[1].content, "bonjour\n");
        }
        None => panic!("a prompt was piped"),
    }
    let mut quiet = Repl::new(None);
    assert!(quiet.on_piped(" \n".to_string(), &cfg).is_none());
}
