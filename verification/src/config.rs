//! The configuration: three settings from the environment, the rest from the
//! command line.
use vstd::prelude::*;

use crate::error::Error;

verus! {

/// The command-line options. `temperature` holds the IEEE-754 bits of the
/// sampling temperature.
#[derive(Debug)]
pub struct Cli {
    pub system: Option<String>,
    pub model: Option<String>,
    pub temperature: Option<u32>,
    pub max_tokens: Option<usize>,
    pub budget: Option<i32>,
}

/// The settings read from the environment (`LLM_API_KEY`, `LLM_URL`,
/// `MODEL_NAME`).
#[derive(Debug)]
pub struct EnvVars {
    pub llm_api_key: String,
    pub llm_url: String,
    pub model_name: String,
}

/// The whole configuration of the client.
#[derive(Debug)]
pub struct Config {
    pub llm_api_key: String,
    pub llm_url: String,
    pub model_name: String,
    pub system: Option<String>,
    pub model: Option<String>,
    pub temperature: Option<u32>,
    pub max_tokens: Option<usize>,
    pub budget: Option<i32>,
}

/// The environment settings are all non-empty.
pub open spec fn env_complete(env: EnvVars) -> bool {
    env.llm_api_key@.len() > 0 && env.llm_url@.len() > 0 && env.model_name@.len() > 0
}

/// The variable that an incomplete environment is refused for: the first
/// empty one of `LLM_API_KEY`, `LLM_URL`, `MODEL_NAME`; when all three are
/// empty, `MODEL_NAME`.
pub open spec fn missing_variable(env: EnvVars) -> Seq<char> {
    if env.llm_api_key@.len() == 0 && env.llm_url@.len() == 0 && env.model_name@.len() == 0 {
        "MODEL_NAME"@
    } else if env.llm_api_key@.len() == 0 {
        "LLM_API_KEY"@
    } else if env.llm_url@.len() == 0 {
        "LLM_URL"@
    } else {
        "MODEL_NAME"@
    }
}

impl Config {
    /// Joins the environment settings and the command-line options; refuses an
    /// environment with an empty setting.
    pub fn new(env: EnvVars, cli: Cli) -> (r: Result<Config, Error>)
        ensures
            r is Ok <==> env_complete(env),
            r matches Err(e) ==> e matches Error::EmptyConfig(name) && name@ == missing_variable(
                env,
            ),
            r matches Ok(c) ==> {
                &&& c.llm_api_key == env.llm_api_key
                &&& c.llm_url == env.llm_url
                &&& c.model_name == env.model_name
                &&& c.system == cli.system
                &&& c.model == cli.model
                &&& c.temperature == cli.temperature
                &&& c.max_tokens == cli.max_tokens
                &&& c.budget == cli.budget
            },
    {
        let no_key = env.llm_api_key.as_str().is_empty();
        let no_url = env.llm_url.as_str().is_empty();
        let no_model = env.model_name.as_str().is_empty();
        if no_key && no_url && no_model {
            return Err(Error::EmptyConfig("MODEL_NAME"));
        }
        if no_key {
            return Err(Error::EmptyConfig("LLM_API_KEY"));
        }
        if no_url {
            return Err(Error::EmptyConfig("LLM_URL"));
        }
        if no_model {
            return Err(Error::EmptyConfig("MODEL_NAME"));
        }
        Ok(
            Config {
                llm_api_key: env.llm_api_key,
                llm_url: env.llm_url,
                model_name: env.model_name,
                system: cli.system,
                model: cli.model,
                temperature: cli.temperature,
                max_tokens: cli.max_tokens,
                budget: cli.budget,
            },
        )
    }
}

} // verus!
