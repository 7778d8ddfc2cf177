use vstd::prelude::*;

use crate::text::{chars_of, eq_ignore_ascii_case, eq_ignore_ascii_case_exec};

verus! {

/// The user's settings: model, API key, API URL and thinking options.
#[derive(Debug, Clone)]
pub struct Config {
    pub active_model: String,
    pub api_key: String,
    pub api_url: String,
    /// Thinking mode for DeepSeek V4 models: "enabled" or "disabled".
    /// Disabled by default: translating man pages does not need chain-of-thought
    /// reasoning, which dramatically increases latency and output size.
    pub thinking: String,
    /// Reasoning effort used when thinking mode is enabled: "low", "high" or "max".
    pub reasoning_effort: String,
}

/// Thinking mode used when the configuration does not set one.
pub fn default_thinking() -> (r: String)
    ensures
        r@ == "disabled"@,
{
    String::from_str("disabled")
}

/// Reasoning effort used when the configuration does not set one.
pub fn default_effort() -> (r: String)
    ensures
        r@ == "low"@,
{
    String::from_str("low")
}

impl Config {
    /// Thinking mode is on: the setting is `enabled`, ignoring ASCII case.
    pub open spec fn thinking_on(&self) -> bool {
        eq_ignore_ascii_case(self.thinking@, seq!['e', 'n', 'a', 'b', 'l', 'e', 'd'])
    }

    /// Whether thinking mode is enabled (`thinking` is `enabled`, ignoring ASCII case).
    pub fn thinking_enabled(&self) -> (r: bool)
        ensures
            r == self.thinking_on(),
    {
        let t = chars_of(self.thinking.as_str());
        eq_ignore_ascii_case_exec(&t, &['e', 'n', 'a', 'b', 'l', 'e', 'd'])
    }
}

/// The path components of the woman data directory, from the values of
/// `XDG_DATA_HOME` and `HOME` (`None` where unset): `$XDG_DATA_HOME/woman` when
/// that is set and not empty, else `$HOME/.local/share/woman`; an error when
/// neither applies.
pub fn woman_dir_components(xdg_data_home: Option<String>, home: Option<String>) -> (r: Result<
    Vec<String>,
    String,
>)
    ensures
        match xdg_data_home {
            Some(x) if x@.len() > 0 => r matches Ok(v) && v@.len() == 2 && v@[0]@ == x@ && v@[1]@
                == "woman"@,
            _ => match home {
                Some(h) => r matches Ok(v) && v@.len() == 4 && v@[0]@ == h@ && v@[1]@ == ".local"@
                    && v@[2]@ == "share"@ && v@[3]@ == "woman"@,
                None => r matches Err(e) && e@ == "HOME environment variable is not set"@,
            },
        },
{
    if let Some(x) = xdg_data_home {
        if x.as_str().unicode_len() > 0 {
            let mut v: Vec<String> = Vec::new();
            v.push(x);
            v.push(String::from_str("woman"));
            return Ok(v);
        }
    }
    match home {
        Some(h) => {
            let mut v: Vec<String> = Vec::new();
            v.push(h);
            v.push(String::from_str(".local"));
            v.push(String::from_str("share"));
            v.push(String::from_str("woman"));
            Ok(v)
        },
        None => Err(String::from_str("HOME environment variable is not set")),
    }
}

} // verus!
