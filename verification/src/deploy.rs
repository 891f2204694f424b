//! Server configuration.

use crate::text::{decimal_text, push_decimal, split, split_text, texts_of, trim, trim_text};
use vstd::prelude::*;
use vstd::utf8::encode_utf8;

verus! {

/// Default listen address: loopback, so an unconfigured server is not exposed.
pub const DEFAULT_BINDING: &'static str = "127.0.0.1:18623";

/// Minimum key length accepted from configuration, in bytes.
pub const MIN_SIGNING_KEY_LEN: usize = 32;

/// How often idle sessions and finished rounds are swept, in seconds.
pub const SWEEP_INTERVAL_SECS: u64 = 60;

/// Largest request body the server will read, in bytes.
///
/// The biggest legitimate submission carries a frozen trajectory of about two
/// and a half megabytes; this leaves room for that to grow.
pub const MAX_REQUEST_BODY_BYTES: usize = 8_388_608;

/// Runtime configuration.
#[derive(Clone, Debug, PartialEq, Eq)]
pub struct ServerConfig {
    /// `address:port` to listen on.
    pub binding: String,
    /// Origins permitted by CORS, or nothing to send no CORS headers at all.
    pub cors_allow_origin: Option<String>,
    /// Key for item references.
    pub signing_key: Vec<u8>,
    /// Where to append the usage log, or nothing to collect nothing.
    pub usage_log_path: Option<String>,
}

/// Why a configuration was refused.
#[derive(Clone, Copy, Debug, PartialEq, Eq, Structural)]
pub enum ConfigError {
    /// The signing key was absent.
    ///
    /// Fatal rather than defaulted: a server that invents its own key mints item
    /// references that every restart invalidates.
    MissingSigningKey,
    /// The signing key was too short to be worth having.
    SigningKeyTooShort {
        /// What was supplied.
        len: usize,
    },
}

impl ConfigError {
    /// The sentence shown for a refused configuration.
    pub open spec fn sentence(self) -> Seq<char> {
        match self {
            ConfigError::MissingSigningKey =>
                "HCR_SIGNING_KEY is required. Generate one with: openssl rand -hex 32"@,
            ConfigError::SigningKeyTooShort { len } => "HCR_SIGNING_KEY is "@ + decimal_text(len as nat)
                + " bytes; at least "@ + decimal_text(MIN_SIGNING_KEY_LEN as nat) + " are required."@,
        }
    }

    /// The refusal in one sentence.
    pub fn message(&self) -> (r: String)
        ensures
            r@ == self.sentence(),
    {
        match self {
            ConfigError::MissingSigningKey =>
                "HCR_SIGNING_KEY is required. Generate one with: openssl rand -hex 32".to_owned(),
            ConfigError::SigningKeyTooShort { len } => {
                let mut out: String = "HCR_SIGNING_KEY is ".to_owned();
                push_decimal(&mut out, *len as u64);
                out.append(" bytes; at least ");
                push_decimal(&mut out, MIN_SIGNING_KEY_LEN as u64);
                out.append(" are required.");
                out
            },
        }
    }
}

/// A setting without surrounding white space; one with nothing left is absent.
pub open spec fn trimmed_setting(setting: Option<Seq<char>>) -> Option<Seq<char>> {
    match setting {
        Some(text) if trim_text(text).len() > 0 => Some(trim_text(text)),
        _ => None,
    }
}

/// An optional text, by its characters.
pub open spec fn setting_view(setting: Option<String>) -> Option<Seq<char>> {
    match setting {
        Some(text) => Some(text@),
        None => None,
    }
}

fn trimmed(setting: Option<String>) -> (r: Option<String>)
    ensures
        setting_view(r) == trimmed_setting(setting_view(setting)),
{
    match setting {
        Some(text) => {
            let kept = trim(text.as_str());
            if kept.is_empty() {
                None
            } else {
                Some(kept.to_owned())
            }
        },
        None => None,
    }
}

impl ServerConfig {
    /// Build a configuration from the settings of the environment.
    ///
    /// | Setting | Default | Meaning |
    /// | --- | --- | --- |
    /// | `HCR_SIGNING_KEY` | required | Key for item references. |
    /// | `HCR_BIND` | [`DEFAULT_BINDING`] | Listen address. |
    /// | `HCR_CORS_ORIGIN` | none | Comma-separated browser origins allowed to call this API. |
    /// | `HCR_USAGE_LOG` | none | Path to append usage events to. |
    pub fn from_env(
        signing_key: Option<String>,
        binding: Option<String>,
        cors_origin: Option<String>,
        usage_log: Option<String>,
    ) -> (r: Result<ServerConfig, ConfigError>)
        ensures
            match signing_key {
                None => r == Err::<ServerConfig, ConfigError>(ConfigError::MissingSigningKey),
                Some(key) => {
                    let bytes = encode_utf8(key@);
                    if bytes.len() < MIN_SIGNING_KEY_LEN {
                        r == Err::<ServerConfig, ConfigError>(
                            ConfigError::SigningKeyTooShort { len: bytes.len() as usize },
                        )
                    } else {
                        &&& r is Ok
                        &&& r->Ok_0.signing_key@ == bytes
                        &&& match binding {
                            Some(address) => r->Ok_0.binding == address,
                            None => r->Ok_0.binding@ == DEFAULT_BINDING@,
                        }
                        &&& setting_view(r->Ok_0.cors_allow_origin) == trimmed_setting(
                            setting_view(cors_origin),
                        )
                        &&& setting_view(r->Ok_0.usage_log_path) == trimmed_setting(
                            setting_view(usage_log),
                        )
                    }
                },
            },
    {
        let key = match signing_key {
            Some(key) => key,
            None => {
                return Err(ConfigError::MissingSigningKey);
            },
        };
        let bytes = key.as_str().as_bytes_vec();
        if bytes.len() < MIN_SIGNING_KEY_LEN {
            return Err(ConfigError::SigningKeyTooShort { len: bytes.len() });
        }
        let binding = match binding {
            Some(address) => address,
            None => DEFAULT_BINDING.to_owned(),
        };
        Ok(
            ServerConfig {
                binding,
                cors_allow_origin: trimmed(cors_origin),
                signing_key: bytes,
                usage_log_path: trimmed(usage_log),
            },
        )
    }
}

/// What follows the last colon of a listen address.
pub open spec fn port_text(binding: Seq<char>) -> Seq<char> {
    split_text(binding, ':').last()
}

/// The advice for a listen address that another process holds.
pub open spec fn occupied_text(binding: Seq<char>) -> Seq<char> {
    binding + " is already in use by another process.\n\nFind it with:   ss -lntp | grep "@ + port_text(
        binding,
    )
        + "\nThen either stop it, or set HCR_BIND to a free port in\n/etc/hcr-server.env and point the reverse proxy at the new one."@
}

proof fn lemma_split_is_not_empty(text: Seq<char>, separator: char)
    ensures
        split_text(text, separator).len() > 0,
    decreases text.len(),
{
    if text.len() > 0 {
        lemma_split_is_not_empty(text.drop_last(), separator);
    }
}

/// The advice for a listen address that another process holds: one sentence
/// naming it, and the command to find the squatter.
pub fn occupied_message(binding: &str) -> (r: String)
    ensures
        r@ == occupied_text(binding@),
{
    let pieces = split(binding, ':');
    proof {
        lemma_split_is_not_empty(binding@, ':');
        assert(texts_of(pieces@).len() == pieces@.len());
    }
    let port = pieces[pieces.len() - 1];
    assert(texts_of(pieces@)[pieces@.len() - 1] == port@);
    let mut out: String = binding.to_owned();
    out.append(" is already in use by another process.\n\nFind it with:   ss -lntp | grep ");
    out.append(port);
    out.append(
        "\nThen either stop it, or set HCR_BIND to a free port in\n/etc/hcr-server.env and point the reverse proxy at the new one.",
    );
    out
}

}
