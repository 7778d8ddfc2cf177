use vstd::prelude::*;

use crate::text::{
    chars_of, lowercase_eq, lowercase_eq_exec, lowercase_occurs_at_exec,
    trim_end_char, trim_end_char_string,
};

verus! {

/// Information about an available model from a provider.
#[derive(Debug, Clone)]
pub struct ModelInfo {
    pub id: String,
    pub object: String,
    pub owned_by: String,
}

/// What every model provider (DeepSeek, OpenAI, etc.) offers to the library.
pub trait ModelProvider {
    /// The provider's human-readable name.
    spec fn spec_name(&self) -> Seq<char>;

    /// The provider's default API base URL.
    spec fn spec_default_api_url(&self) -> Seq<char>;

    /// Human-readable provider name (e.g. "DeepSeek").
    fn name(&self) -> (r: &str)
        ensures
            r@ == self.spec_name(),
    ;

    /// Default API base URL for this provider.
    fn default_api_url(&self) -> (r: &str)
        ensures
            r@ == self.spec_default_api_url(),
    ;

    /// The chat completions endpoint path relative to the API base URL.
    fn completions_path(&self) -> (r: &str)
        ensures
            r@ == "/chat/completions"@,
    {
        "/chat/completions"
    }
}

/// The DeepSeek API.
pub struct DeepSeekProvider;

/// DeepSeek's default API base URL.
pub open spec fn deepseek_api_url() -> Seq<char> {
    "https://api.deepseek.com/v1"@
}

impl ModelProvider for DeepSeekProvider {
    open spec fn spec_name(&self) -> Seq<char> {
        "DeepSeek"@
    }

    open spec fn spec_default_api_url(&self) -> Seq<char> {
        deepseek_api_url()
    }

    fn name(&self) -> (r: &str) {
        "DeepSeek"
    }

    fn default_api_url(&self) -> (r: &str) {
        "https://api.deepseek.com/v1"
    }
}

/// The registered provider name `deepseek`.
pub open spec fn deepseek_name() -> Seq<char> {
    seq!['d', 'e', 'e', 'p', 's', 'e', 'e', 'k']
}

/// Registry of all supported model providers: the provider whose registered
/// name equals the lowercase form of `name`.
pub fn get_provider(name: &str) -> (r: Option<Box<dyn ModelProvider>>)
    ensures
        r is Some <==> lowercase_eq(name@, deepseek_name()),
        r matches Some(p) ==> p.spec_default_api_url() == deepseek_api_url() && p.spec_name()
            == "DeepSeek"@,
{
    let n = chars_of(name);
    if lowercase_eq_exec(&n, &['d', 'e', 'e', 'p', 's', 'e', 'e', 'k']) {
        Some(Box::new(DeepSeekProvider))
    } else {
        None
    }
}

/// List all registered provider names.
pub fn list_providers() -> (r: Vec<&'static str>)
    ensures
        r@.len() == 1,
        r@[0]@ == deepseek_name(),
{
    let mut r: Vec<&'static str> = Vec::new();
    let name = "deepseek";
    proof {
        reveal_strlit("deepseek");
    }
    r.push(name);
    r
}

/// Guess which provider handles the given model name: the first registered
/// provider whose name occurs in the lowercase model name, else `deepseek`.
/// With DeepSeek the only registered provider, the answer is always `deepseek`.
pub fn infer_provider_from_model(model: &str) -> (r: &'static str)
    ensures
        r@ == deepseek_name(),
{
    let m = chars_of(model);
    let providers = list_providers();
    let mut k: usize = 0;
    while k < providers.len()
        invariant
            k <= providers@.len(),
            providers@.len() == 1,
            providers@[0]@ == deepseek_name(),
        decreases providers.len() - k,
    {
        let name = chars_of(providers[k]);
        let mut i: usize = 0;
        while i < m.len()
            invariant
                i <= m.len(),
                k < providers@.len(),
                providers@.len() == 1,
                providers@[0]@ == deepseek_name(),
            decreases m.len() - i,
        {
            if lowercase_occurs_at_exec(&m, name.as_slice(), i) {
                return providers[k];
            }
            i += 1;
        }
        k += 1;
    }
    let r = "deepseek";
    proof {
        reveal_strlit("deepseek");
    }
    r
}

/// Resolve the effective API base URL:
/// - If `configured_url` is non-empty, the user has set a custom URL; use it.
/// - Otherwise, the default URL of the provider inferred from the model name.
pub fn resolve_api_url(configured_url: &str, model: &str) -> (r: String)
    ensures
        r@ == (if configured_url@.len() > 0 { configured_url@ } else { deepseek_api_url() }),
{
    let configured = chars_of(configured_url);
    if configured.len() > 0 {
        return String::from_str(configured_url);
    }
    let provider_name = infer_provider_from_model(model);
    match get_provider(provider_name) {
        Some(p) => String::from_str(p.default_api_url()),
        None => String::from_str("https://api.deepseek.com/v1"),
    }
}

/// The models endpoint of an API base URL (trailing slashes dropped).
pub fn models_url(api_url: &str) -> (r: String)
    ensures
        r@ == trim_end_char(api_url@, '/') + "/models"@,
{
    let mut r = trim_end_char_string(api_url, '/');
    r.append("/models");
    r
}

/// The `Authorization` header value for an API key.
pub fn bearer_authorization(api_key: &str) -> (r: String)
    ensures
        r@ == "Bearer "@ + api_key@,
{
    let mut r = String::from_str("Bearer ");
    r.append(api_key);
    r
}

} // verus!
