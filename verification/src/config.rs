//! Runtime configuration, read once at startup from environment values.

use vstd::prelude::*;

use crate::text::{ascii_lower, eq_ignore_ascii_case, is_str_chars, parse_u64, parse_u64_spec, to_chars};

verus! {

/// Runtime configuration.
#[derive(Debug, Clone)]
pub struct Config {
    pub discord_token: String,
    pub application_id: Option<u64>,
    /// OpenAI-compatible endpoint, e.g. `https://api.openai.com/v1` or
    /// `http://localhost:11434/v1`.
    pub ai_base_url: String,
    pub ai_api_key: String,
    pub ai_model: String,
    /// Context7 key; enables `/context7`.
    pub context7_api_key: Option<String>,
    /// Load every documentation page at startup.
    pub preload_docs: bool,
}

/// Why no configuration could be made.
#[derive(Debug, Clone, Copy, PartialEq, Eq, Structural)]
pub enum ConfigError {
    /// `DISCORD_TOKEN` is missing.
    MissingDiscordToken,
}

impl ConfigError {
    /// The message shown at startup.
    pub fn message(&self) -> (r: &'static str)
        ensures
            r@ == "DISCORD_TOKEN must be set"@,
    {
        "DISCORD_TOKEN must be set"
    }
}

/// The view of an optional string.
pub open spec fn opt_view(v: Option<String>) -> Option<Seq<char>> {
    match v {
        Some(s) => Some(s@),
        None => None,
    }
}

/// `PRELOAD_DOCS` is on when it is `1` or `true` (ASCII case ignored).
pub open spec fn preload_flag(v: Option<Seq<char>>) -> bool {
    match v {
        Some(s) => s == "1"@ || ascii_lower(s) == ascii_lower("true"@),
        None => false,
    }
}

impl Config {
    /// A configuration from the values of `DISCORD_TOKEN`,
    /// `APPLICATION_ID`, `AI_BASE_URL`, `AI_API_KEY`, `AI_MODEL`,
    /// `CONTEXT7_API_KEY` and `PRELOAD_DOCS` (`None` when unset).
    /// Defaults: `https://api.openai.com/v1`, an empty key, `gpt-4o-mini`;
    /// an application id that is not a `u64` and an empty Context7 key
    /// count as unset.
    pub fn from_vars(
        discord_token: Option<String>,
        application_id: Option<String>,
        ai_base_url: Option<String>,
        ai_api_key: Option<String>,
        ai_model: Option<String>,
        context7_api_key: Option<String>,
        preload_docs: Option<String>,
    ) -> (r: Result<Config, ConfigError>)
        ensures
            discord_token is None ==> r == Err::<Config, ConfigError>(ConfigError::MissingDiscordToken),
            discord_token is Some ==> (r matches Ok(c) && {
                &&& c.discord_token@ == discord_token.unwrap()@
                &&& c.application_id == match application_id {
                    Some(a) => parse_u64_spec(a@),
                    None => None,
                }
                &&& c.ai_base_url@ == match ai_base_url {
                    Some(u) => u@,
                    None => "https://api.openai.com/v1"@,
                }
                &&& c.ai_api_key@ == match ai_api_key {
                    Some(k) => k@,
                    None => Seq::<char>::empty(),
                }
                &&& c.ai_model@ == match ai_model {
                    Some(m) => m@,
                    None => "gpt-4o-mini"@,
                }
                &&& opt_view(c.context7_api_key) == match context7_api_key {
                    Some(k) => if k@.len() > 0 {
                        Some(k@)
                    } else {
                        None
                    },
                    None => None,
                }
                &&& c.preload_docs == preload_flag(opt_view(preload_docs))
            }),
    {
        let discord_token = match discord_token {
            Some(t) => t,
            None => {
                return Err(ConfigError::MissingDiscordToken);
            },
        };
        let application_id = match application_id {
            Some(a) => {
                let cs = to_chars(a.as_str());
                parse_u64(cs.as_slice())
            },
            None => None,
        };
        let ai_base_url = match ai_base_url {
            Some(u) => u,
            None => "https://api.openai.com/v1".to_owned(),
        };
        let ai_api_key = match ai_api_key {
            Some(k) => k,
            None => String::new(),
        };
        let ai_model = match ai_model {
            Some(m) => m,
            None => "gpt-4o-mini".to_owned(),
        };
        let context7_api_key = match context7_api_key {
            Some(k) => if k.as_str().is_empty() {
                None
            } else {
                Some(k)
            },
            None => None,
        };
        let preload = match &preload_docs {
            Some(v) => {
                let cs = to_chars(v.as_str());
                let t = to_chars("true");
                is_str_chars(cs.as_slice(), "1") || eq_ignore_ascii_case(cs.as_slice(), t.as_slice())
            },
            None => false,
        };
        Ok(Config {
            discord_token,
            application_id,
            ai_base_url,
            ai_api_key,
            ai_model,
            context7_api_key,
            preload_docs: preload,
        })
    }

    /// Timeout of outgoing HTTP requests, in seconds.
    pub fn http_timeout() -> (r: u64)
        ensures
            r == 20,
    {
        20
    }
}

} // verus!
