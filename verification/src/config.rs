//! Configuration data and the pure part of configuration management.
//!
//! Reading and writing the configuration file, and the interactive
//! setup, happen in the binary around this library; the key/value view
//! over a loaded configuration is decided here.

use vstd::prelude::*;
use crate::chars::{lower_of, lowercase, str_eq};
use crate::error::CyxError;
use crate::textnum::{dec_str, parse_u32, parse_u32_spec, u64_to_string};

verus! {

/// Which backend answers queries.
#[derive(Debug, Clone, PartialEq, Eq, Structural)]
pub enum LLMProvider {
    Perplexity,
    Groq,
    Ollama,
}

/// The display name of a provider, as configuration shows it.
pub open spec fn provider_name_spec(p: LLMProvider) -> Seq<char> {
    match p {
        LLMProvider::Perplexity => "Perplexity"@,
        LLMProvider::Groq => "Groq"@,
        LLMProvider::Ollama => "Ollama"@,
    }
}

impl LLMProvider {
    /// The provider's display name.
    pub fn name(&self) -> (r: String)
        ensures
            r@ == provider_name_spec(*self),
    {
        match self {
            LLMProvider::Perplexity => "Perplexity".to_owned(),
            LLMProvider::Groq => "Groq".to_owned(),
            LLMProvider::Ollama => "Ollama".to_owned(),
        }
    }
}

/// API keys for the hosted providers.
#[derive(Debug, Clone)]
pub struct ApiKeys {
    pub perplexity: Option<String>,
    pub groq: Option<String>,
}

/// Connection settings for a local Ollama service.
#[derive(Debug, Clone)]
pub struct OllamaConfig {
    pub base_url: String,
    pub model: String,
    pub timeout_seconds: u64,
    pub context_window: usize,
}

pub fn default_base_url() -> (r: String)
    ensures
        r@ == "http://localhost:11434"@,
{
    "http://localhost:11434".to_owned()
}

pub fn default_model() -> (r: String)
    ensures
        r@ == "mistral:7b-instruct"@,
{
    "mistral:7b-instruct".to_owned()
}

pub fn default_timeout() -> (r: u64)
    ensures
        r == 120,
{
    120
}

pub fn default_context_window() -> (r: usize)
    ensures
        r == 8192,
{
    8192
}

impl Default for OllamaConfig {
    fn default() -> (r: OllamaConfig)
        ensures
            r.base_url@ == "http://localhost:11434"@,
            r.model@ == "mistral:7b-instruct"@,
            r.timeout_seconds == 120,
            r.context_window == 8192,
    {
        OllamaConfig {
            base_url: default_base_url(),
            model: default_model(),
            timeout_seconds: default_timeout(),
            context_window: default_context_window(),
        }
    }
}

/// Cache behavior: the similarity threshold is fixed point, with
/// `crate::embedder::SCALE` standing for 1.0.
#[derive(Debug, Clone)]
pub struct CacheConfig {
    pub enabled: bool,
    pub ttl_days: u32,
    pub embedding_model: String,
    pub similarity_threshold: i64,
}

pub fn default_embedding_model() -> (r: String)
    ensures
        r@ == "small"@,
{
    "small".to_owned()
}

pub fn default_cache_enabled() -> (r: bool)
    ensures
        r == true,
{
    true
}

pub fn default_ttl_days() -> (r: u32)
    ensures
        r == 30,
{
    30
}

/// The default similarity threshold: 0.80 in fixed point.
pub fn default_similarity_threshold() -> (r: i64)
    ensures
        r == crate::embedder::SCALE * 4 / 5,
{
    crate::embedder::SCALE * 4 / 5
}

impl Default for CacheConfig {
    fn default() -> (r: CacheConfig)
        ensures
            r.enabled == true,
            r.ttl_days == 30,
            r.embedding_model@ == "small"@,
            r.similarity_threshold == crate::embedder::SCALE * 4 / 5,
    {
        CacheConfig {
            enabled: default_cache_enabled(),
            ttl_days: default_ttl_days(),
            embedding_model: default_embedding_model(),
            similarity_threshold: default_similarity_threshold(),
        }
    }
}

/// The whole user configuration.
#[derive(Debug, Clone)]
pub struct Config {
    pub provider: LLMProvider,
    pub api_keys: ApiKeys,
    pub ollama: OllamaConfig,
    pub cache: CacheConfig,
}

impl Default for Config {
    fn default() -> (r: Config)
        ensures
            r.provider == LLMProvider::Groq,
            r.api_keys.perplexity is None,
            r.api_keys.groq is None,
            r.cache.enabled == true,
            r.cache.ttl_days == 30,
    {
        Config {
            provider: LLMProvider::Groq,
            api_keys: ApiKeys { perplexity: None, groq: None },
            ollama: OllamaConfig::default(),
            cache: CacheConfig::default(),
        }
    }
}

/// What reading configuration key `key` out of `cfg` yields; unknown
/// keys yield nothing.
pub open spec fn get_value_spec(cfg: Config, key: Seq<char>) -> Option<Seq<char>> {
    if key == "provider"@ {
        Some(provider_name_spec(cfg.provider))
    } else if key == "groq_api_key"@ {
        Some(
            match cfg.api_keys.groq {
                Some(k) => k@,
                None => "Not set"@,
            },
        )
    } else if key == "perplexity_api_key"@ {
        Some(
            match cfg.api_keys.perplexity {
                Some(k) => k@,
                None => "Not set"@,
            },
        )
    } else if key == "ollama_model"@ {
        Some(cfg.ollama.model@)
    } else if key == "ollama_base_url"@ {
        Some(cfg.ollama.base_url@)
    } else if key == "cache.enabled"@ {
        Some(
            if cfg.cache.enabled {
                "true"@
            } else {
                "false"@
            },
        )
    } else if key == "cache.ttl_days"@ {
        Some(dec_str(cfg.cache.ttl_days as int))
    } else {
        None
    }
}

/// How a successful `set_value` call rewrites the configuration.
pub open spec fn set_value_rel(pre: Config, post: Config, key: Seq<char>, value: Seq<char>) -> bool {
    if key == "provider"@ {
        &&& (lower_of(value) == "groq"@ ==> post.provider == LLMProvider::Groq)
        &&& (lower_of(value) == "perplexity"@ ==> post.provider == LLMProvider::Perplexity)
        &&& (lower_of(value) == "ollama"@ ==> post.provider == LLMProvider::Ollama)
        &&& post.api_keys == pre.api_keys
        &&& post.ollama == pre.ollama
        &&& post.cache == pre.cache
    } else if key == "groq_api_key"@ {
        &&& post.api_keys.groq matches Some(k) && k@ == value
        &&& post.api_keys.perplexity == pre.api_keys.perplexity
        &&& post.provider == pre.provider
        &&& post.ollama == pre.ollama
        &&& post.cache == pre.cache
    } else if key == "perplexity_api_key"@ {
        &&& post.api_keys.perplexity matches Some(k) && k@ == value
        &&& post.api_keys.groq == pre.api_keys.groq
        &&& post.provider == pre.provider
        &&& post.ollama == pre.ollama
        &&& post.cache == pre.cache
    } else if key == "ollama_model"@ {
        &&& post.ollama.model@ == value
        &&& post.ollama.base_url == pre.ollama.base_url
        &&& post.ollama.timeout_seconds == pre.ollama.timeout_seconds
        &&& post.ollama.context_window == pre.ollama.context_window
        &&& post.provider == pre.provider
        &&& post.api_keys == pre.api_keys
        &&& post.cache == pre.cache
    } else if key == "ollama_base_url"@ {
        &&& post.ollama.base_url@ == value
        &&& post.ollama.model == pre.ollama.model
        &&& post.ollama.timeout_seconds == pre.ollama.timeout_seconds
        &&& post.ollama.context_window == pre.ollama.context_window
        &&& post.provider == pre.provider
        &&& post.api_keys == pre.api_keys
        &&& post.cache == pre.cache
    } else if key == "cache.enabled"@ {
        &&& post.cache.enabled == (lower_of(value) == "true"@)
        &&& post.cache.ttl_days == pre.cache.ttl_days
        &&& post.cache.embedding_model == pre.cache.embedding_model
        &&& post.cache.similarity_threshold == pre.cache.similarity_threshold
        &&& post.provider == pre.provider
        &&& post.api_keys == pre.api_keys
        &&& post.ollama == pre.ollama
    } else if key == "cache.ttl_days"@ {
        &&& parse_u32_spec(value) matches Some(d) && post.cache.ttl_days == d
        &&& post.cache.enabled == pre.cache.enabled
        &&& post.cache.embedding_model == pre.cache.embedding_model
        &&& post.cache.similarity_threshold == pre.cache.similarity_threshold
        &&& post.provider == pre.provider
        &&& post.api_keys == pre.api_keys
        &&& post.ollama == pre.ollama
    } else {
        false
    }
}

/// The pure side of configuration management: reading and rewriting a
/// loaded configuration by key.  Loading, saving and the interactive
/// setup stay outside this crate.
pub struct ConfigManager;

impl ConfigManager {
    /// The display text for one configuration key, or an error on an
    /// unknown key.
    pub fn get_value(config: &Config, key: &str) -> (r: Result<String, CyxError>)
        ensures
            match r {
                Ok(v) => get_value_spec(*config, key@) == Some(v@),
                Err(_) => get_value_spec(*config, key@) is None,
            },
    {
        if str_eq(key, "provider") {
            Ok(config.provider.name())
        } else if str_eq(key, "groq_api_key") {
            match &config.api_keys.groq {
                Some(k) => Ok(k.clone()),
                None => Ok("Not set".to_owned()),
            }
        } else if str_eq(key, "perplexity_api_key") {
            match &config.api_keys.perplexity {
                Some(k) => Ok(k.clone()),
                None => Ok("Not set".to_owned()),
            }
        } else if str_eq(key, "ollama_model") {
            Ok(config.ollama.model.clone())
        } else if str_eq(key, "ollama_base_url") {
            Ok(config.ollama.base_url.clone())
        } else if str_eq(key, "cache.enabled") {
            if config.cache.enabled {
                Ok("true".to_owned())
            } else {
                Ok("false".to_owned())
            }
        } else if str_eq(key, "cache.ttl_days") {
            Ok(u64_to_string(config.cache.ttl_days as u64))
        } else {
            Err(CyxError::new("unknown config key".to_owned()))
        }
    }

    /// Rewrites one configuration key in place; unknown keys, unknown
    /// provider names and unparsable day counts leave the configuration
    /// unchanged and report an error.
    pub fn set_value(config: &mut Config, key: &str, value: &str) -> (r: Result<(), CyxError>)
        ensures
            match r {
                Ok(_) => set_value_rel(*old(config), *final(config), key@, value@),
                Err(_) => *final(config) == *old(config),
            },
    {
        if str_eq(key, "provider") {
            proof {
                reveal_strlit("groq");
                reveal_strlit("perplexity");
                reveal_strlit("ollama");
                assert("groq"@.len() == 4 && "perplexity"@.len() == 10 && "ollama"@.len() == 6);
            }
            let lowered = lowercase(value);
            if str_eq(lowered.as_str(), "groq") {
                config.provider = LLMProvider::Groq;
                Ok(())
            } else if str_eq(lowered.as_str(), "perplexity") {
                config.provider = LLMProvider::Perplexity;
                Ok(())
            } else if str_eq(lowered.as_str(), "ollama") {
                config.provider = LLMProvider::Ollama;
                Ok(())
            } else {
                Err(CyxError::new("invalid provider".to_owned()))
            }
        } else if str_eq(key, "groq_api_key") {
            config.api_keys.groq = Some(value.to_owned());
            Ok(())
        } else if str_eq(key, "perplexity_api_key") {
            config.api_keys.perplexity = Some(value.to_owned());
            Ok(())
        } else if str_eq(key, "ollama_model") {
            config.ollama.model = value.to_owned();
            Ok(())
        } else if str_eq(key, "ollama_base_url") {
            config.ollama.base_url = value.to_owned();
            Ok(())
        } else if str_eq(key, "cache.enabled") {
            let lowered = lowercase(value);
            config.cache.enabled = str_eq(lowered.as_str(), "true");
            Ok(())
        } else if str_eq(key, "cache.ttl_days") {
            match parse_u32(value) {
                Some(d) => {
                    config.cache.ttl_days = d;
                    Ok(())
                },
                None => Err(CyxError::new("invalid number for ttl_days".to_owned())),
            }
        } else {
            Err(CyxError::new("unknown config key".to_owned()))
        }
    }
}

} // verus!
