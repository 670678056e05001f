use vstd::prelude::*;
use vstd::string::StringExecFns;

use crate::text::{parse_bool, parse_decimal_micros, parse_u64, parsed_bool, parsed_micros, parsed_u64};
use crate::units::MICROS;

verus! {

/// Runtime settings of the bot.
#[derive(Clone)]
pub struct Config {
    /// Polymarket CLOB API key.
    pub api_key: String,
    /// CLOB API secret, base64.
    pub api_secret: String,
    /// CLOB API passphrase.
    pub api_passphrase: String,
    /// Signing key (may be empty).
    pub private_key: String,
    /// Our wallet / proxy address.
    pub funder_address: String,
    /// Wallet whose positions are copied.
    pub target_wallet: String,
    /// Polling interval in milliseconds.
    pub poll_interval_ms: u64,
    /// Minimum bet, in micro-USDC.
    pub min_bet_size: u64,
    /// Maximum slippage in basis points.
    pub max_slippage_bps: u64,
    /// Log trades instead of placing them.
    pub dry_run: bool,
    /// Balance to assume when none can be fetched, in micro-USDC.
    pub initial_balance: Option<u64>,
    /// Base URL of the CLOB API.
    pub clob_api_url: String,
    /// Base URL of the data API.
    pub gamma_api_url: String,
}

/// Polling interval when none is configured, milliseconds.
pub const DEFAULT_POLL_INTERVAL_MS: u64 = 500;

/// Maximum slippage when none is configured, basis points.
pub const DEFAULT_MAX_SLIPPAGE_BPS: u64 = 50;

/// The raw values of the environment variables the bot reads.
pub struct EnvVars {
    /// `POLYMARKET_API_KEY`
    pub api_key: Option<String>,
    /// `POLYMARKET_API_SECRET`
    pub api_secret: Option<String>,
    /// `POLYMARKET_API_PASSPHRASE`
    pub api_passphrase: Option<String>,
    /// `POLYMARKET_PRIVATE_KEY`
    pub private_key: Option<String>,
    /// `POLYMARKET_FUNDER_ADDRESS`
    pub funder_address: Option<String>,
    /// `TARGET_WALLET_ADDRESS`
    pub target_wallet: Option<String>,
    /// `POLL_INTERVAL_MS`
    pub poll_interval_ms: Option<String>,
    /// `MIN_BET_SIZE`, in USDC
    pub min_bet_size: Option<String>,
    /// `MAX_SLIPPAGE_BPS`
    pub max_slippage_bps: Option<String>,
    /// `DRY_RUN`
    pub dry_run: Option<String>,
    /// `INITIAL_BALANCE`, in USDC
    pub initial_balance: Option<String>,
}

/// A required environment variable is not set.
pub struct ConfigError {
    /// The name of the missing variable.
    pub missing: String,
}

/// The first required variable that is not set, by name.
pub open spec fn first_missing(vars: EnvVars) -> Option<Seq<char>> {
    if vars.api_key is None {
        Some("POLYMARKET_API_KEY"@)
    } else if vars.api_secret is None {
        Some("POLYMARKET_API_SECRET"@)
    } else if vars.api_passphrase is None {
        Some("POLYMARKET_API_PASSPHRASE"@)
    } else if vars.funder_address is None {
        Some("POLYMARKET_FUNDER_ADDRESS"@)
    } else if vars.target_wallet is None {
        Some("TARGET_WALLET_ADDRESS"@)
    } else {
        None
    }
}

/// A number variable: its value when it reads as one, else the default.
pub open spec fn u64_or(v: Option<String>, default: u64) -> u64 {
    match v {
        Some(s) => match parsed_u64(s@) { Some(n) => n, None => default },
        None => default,
    }
}

/// An amount variable in micro-units: its value when it reads as one, else the default.
pub open spec fn micros_or(v: Option<String>, default: u64) -> u64 {
    match v {
        Some(s) => match parsed_micros(s@) { Some(n) => n, None => default },
        None => default,
    }
}

/// A flag variable: its value when it reads as `true` or `false`, else the default.
pub open spec fn bool_or(v: Option<String>, default: bool) -> bool {
    match v {
        Some(s) => match parsed_bool(s@) { Some(b) => b, None => default },
        None => default,
    }
}

/// The text of an optional variable, empty when unset.
pub open spec fn text_or_empty(v: Option<String>) -> Seq<char> {
    match v {
        Some(s) => s@,
        None => Seq::empty(),
    }
}

fn required(v: Option<String>, name: &str) -> (r: Result<String, ConfigError>)
    ensures
        match r {
            Ok(s) => v == Some(s),
            Err(e) => v is None && e.missing@ == name@,
        },
{
    match v {
        Some(s) => Ok(s),
        None => Err(ConfigError { missing: String::from_str(name) }),
    }
}

fn u64_var(v: &Option<String>, default: u64) -> (r: u64)
    ensures
        r == u64_or(*v, default),
{
    match v {
        Some(s) => match parse_u64(s.as_str()) {
            Some(n) => n,
            None => default,
        },
        None => default,
    }
}

fn micros_var(v: &Option<String>, default: u64) -> (r: u64)
    ensures
        r == micros_or(*v, default),
{
    match v {
        Some(s) => match parse_decimal_micros(s.as_str()) {
            Some(n) => n,
            None => default,
        },
        None => default,
    }
}

impl Config {
    /// Read the settings from the environment variables' values:
    /// the API key, secret and passphrase, the funder address and the target
    /// wallet are required; the private key defaults to empty; the polling
    /// interval to 500 ms, the minimum bet to 1 USDC, the slippage to 50 bps,
    /// dry-run to off when unset or unreadable; the initial balance is kept
    /// when it reads as an amount. The endpoints are Polymarket's.
    pub fn from_vars(vars: EnvVars) -> (r: Result<Config, ConfigError>)
        ensures
            match r {
                Ok(c) => {
                    &&& first_missing(vars) is None
                    &&& c.api_key@ == vars.api_key->0@
                    &&& c.api_secret@ == vars.api_secret->0@
                    &&& c.api_passphrase@ == vars.api_passphrase->0@
                    &&& c.private_key@ == text_or_empty(vars.private_key)
                    &&& c.funder_address@ == vars.funder_address->0@
                    &&& c.target_wallet@ == vars.target_wallet->0@
                    &&& c.poll_interval_ms == u64_or(vars.poll_interval_ms, DEFAULT_POLL_INTERVAL_MS)
                    &&& c.min_bet_size == micros_or(vars.min_bet_size, MICROS)
                    &&& c.max_slippage_bps == u64_or(vars.max_slippage_bps, DEFAULT_MAX_SLIPPAGE_BPS)
                    &&& c.dry_run == bool_or(vars.dry_run, false)
                    &&& c.initial_balance == match vars.initial_balance {
                        Some(s) => parsed_micros(s@),
                        None => None,
                    }
                    &&& c.clob_api_url@ == "https://clob.polymarket.com"@
                    &&& c.gamma_api_url@ == "https://data-api.polymarket.com"@
                },
                Err(e) => first_missing(vars) == Some(e.missing@),
            },
    {
        let poll_interval_ms = u64_var(&vars.poll_interval_ms, DEFAULT_POLL_INTERVAL_MS);
        let min_bet_size = micros_var(&vars.min_bet_size, MICROS);
        let max_slippage_bps = u64_var(&vars.max_slippage_bps, DEFAULT_MAX_SLIPPAGE_BPS);
        let dry_run = match &vars.dry_run {
            Some(s) => match parse_bool(s.as_str()) {
                Some(b) => b,
                None => false,
            },
            None => false,
        };
        let initial_balance = match &vars.initial_balance {
            Some(s) => parse_decimal_micros(s.as_str()),
            None => None,
        };
        let private_key = match vars.private_key {
            Some(s) => s,
            None => String::new(),
        };
        let api_key = required(vars.api_key, "POLYMARKET_API_KEY")?;
        let api_secret = required(vars.api_secret, "POLYMARKET_API_SECRET")?;
        let api_passphrase = required(vars.api_passphrase, "POLYMARKET_API_PASSPHRASE")?;
        let funder_address = required(vars.funder_address, "POLYMARKET_FUNDER_ADDRESS")?;
        let target_wallet = required(vars.target_wallet, "TARGET_WALLET_ADDRESS")?;
        Ok(Config {
            api_key,
            api_secret,
            api_passphrase,
            private_key,
            funder_address,
            target_wallet,
            poll_interval_ms,
            min_bet_size,
            max_slippage_bps,
            dry_run,
            initial_balance,
            clob_api_url: String::from_str("https://clob.polymarket.com"),
            gamma_api_url: String::from_str("https://data-api.polymarket.com"),
        })
    }
}

} // verus!
