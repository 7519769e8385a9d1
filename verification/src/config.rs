//! Service configuration from environment variables.
use vstd::prelude::*;
use vstd::string::*;
use crate::error::AppError;

verus! {

/// The environment variables the service reads; `None` stands for a
/// variable that is unset or not valid Unicode.
pub struct EnvVars {
    pub app_host: Option<String>,
    pub app_port: Option<String>,
    pub normalization_file: Option<String>,
    pub mcc_risk_file: Option<String>,
    pub index_file: Option<String>,
    pub references_file: Option<String>,
}

/// Service configuration.
pub struct AppConfig {
    pub host: String,
    pub port: u16,
    pub normalization_path: String,
    pub mcc_risk_path: String,
    pub index_path: String,
    pub references_path: String,
}

/// A decimal ASCII digit.
pub open spec fn is_ascii_digit(c: char) -> bool {
    '0' <= c && c <= '9'
}

/// Value of a string of decimal digits.
pub open spec fn digits_value(s: Seq<char>) -> nat
    decreases s.len(),
{
    if s.len() == 0 {
        0
    } else {
        digits_value(s.drop_last()) * 10 + (s.last() as nat - '0' as nat) as nat
    }
}

/// The digits of an unsigned number: the text after an optional leading `+`.
pub open spec fn unsigned_digits(s: Seq<char>) -> Seq<char> {
    if s.len() > 0 && s[0] == '+' {
        s.drop_first()
    } else {
        s
    }
}

/// The `u16` that `s` spells: an optional `+` and one or more ASCII digits
/// whose value is at most 65535.
pub open spec fn decimal_u16(s: Seq<char>) -> Option<u16> {
    let d = unsigned_digits(s);
    if d.len() > 0 && (forall|i: int| 0 <= i < d.len() ==> is_ascii_digit(#[trigger] d[i]))
        && digits_value(d) <= 65535 {
        Some(digits_value(d) as u16)
    } else {
        None
    }
}

/// Text with which the standard library reports that `s` is not a `u16`.
pub uninterp spec fn parse_int_error_text(s: Seq<char>) -> Seq<char>;

/// Parses `s` as a `u16` with the standard library's `str::parse::<u16>`,
/// whose documentation admits an optional `+` followed by ASCII digits only,
/// with a value that fits. The text of its error is left unstated, named by
/// `parse_int_error_text`.
#[verifier::external_body]
fn parse_u16(s: &str) -> (r: Result<u16, String>)
    ensures
        match r {
            Ok(v) => decimal_u16(s@) == Some(v),
            Err(m) => decimal_u16(s@) is None && m@ == parse_int_error_text(s@),
        },
{
    match s.parse::<u16>() {
        Ok(v) => Ok(v),
        Err(e) => Err(e.to_string()),
    }
}

/// The value of an optional variable, or `default` when it is unset.
pub open spec fn var_or(v: Option<String>, default: Seq<char>) -> Seq<char> {
    match v {
        Some(s) => s@,
        None => default,
    }
}

/// Message for a port variable that does not hold a `u16`.
pub open spec fn invalid_port_text(value: Seq<char>) -> Seq<char> {
    "Invalid value '"@ + value + "' for env APP_PORT: "@ + parse_int_error_text(value)
}

fn var_or_default(v: &Option<String>, default: &str) -> (s: String)
    ensures
        s@ == var_or(*v, default@),
{
    match v {
        Some(s) => s.clone(),
        None => String::from_str(default),
    }
}

impl AppConfig {
    /// The configuration from the environment: each path and the host fall
    /// back to a default when unset, and the port to 3000; a port that is
    /// not a `u16` is an error.
    pub fn from_env(env: &EnvVars) -> (r: Result<AppConfig, AppError>)
        ensures
            match env.app_port {
                Some(p) => match decimal_u16(p@) {
                    Some(port) => r matches Ok(c) && c.port == port,
                    None => r matches Err(AppError::Config(m)) && m@ == invalid_port_text(p@),
                },
                None => r matches Ok(c) && c.port == 3000,
            },
            r matches Ok(c) ==> {
                &&& c.host@ == var_or(env.app_host, "0.0.0.0"@)
                &&& c.normalization_path@ == var_or(
                    env.normalization_file,
                    "/app/resources/normalization.json"@,
                )
                &&& c.mcc_risk_path@ == var_or(env.mcc_risk_file, "/app/resources/mcc_risk.json"@)
                &&& c.index_path@ == var_or(env.index_file, "/app/resources/index.bin"@)
                &&& c.references_path@ == var_or(
                    env.references_file,
                    "/app/resources/references.json.gz"@,
                )
            },
    {
        let host = var_or_default(&env.app_host, "0.0.0.0");
        let port: u16 = match &env.app_port {
            Some(value) => match parse_u16(value.as_str()) {
                Ok(p) => p,
                Err(reason) => {
                    let mut m = String::from_str("Invalid value '");
                    m.append(value.as_str());
                    m.append("' for env APP_PORT: ");
                    m.append(reason.as_str());
                    return Err(AppError::Config(m));
                },
            },
            None => 3000,
        };
        Ok(AppConfig {
            host,
            port,
            normalization_path: var_or_default(
                &env.normalization_file,
                "/app/resources/normalization.json",
            ),
            mcc_risk_path: var_or_default(&env.mcc_risk_file, "/app/resources/mcc_risk.json"),
            index_path: var_or_default(&env.index_file, "/app/resources/index.bin"),
            references_path: var_or_default(
                &env.references_file,
                "/app/resources/references.json.gz",
            ),
        })
    }
}

} // verus!
