//! The decisions around the Roblox Cloud localization API: checking the API
//! key, building request URLs, telling table ids from universe ids, and
//! turning a failed HTTP response into an error.

use vstd::prelude::*;

use crate::text::push_char;
use crate::validation::Config;

verus! {

/// What can go wrong when talking to Roblox Cloud.
#[derive(Debug, Clone, PartialEq)]
pub enum CloudSyncError {
    /// The configuration (the API key) is missing or unusable.
    ConfigError(String),
    /// The API key was refused or lacks a permission.
    AuthenticationError(String),
    /// Too many requests; retry after the given number of seconds.
    RateLimitError { retry_after: u64, attempt: u32 },
    /// The server failed with a 5xx status.
    ServerError { status: u16, message: String },
    /// Any other failed request.
    ApiError(String),
}

/// The decimal digit `d` as a character.
pub open spec fn digit_char(d: nat) -> char {
    (48 + d) as char
}

/// The decimal notation of `n`, without leading zeros.
pub open spec fn decimal(n: nat) -> Seq<char>
    decreases n,
{
    if n < 10 {
        seq![digit_char(n)]
    } else {
        decimal(n / 10).push(digit_char(n % 10))
    }
}

/// The decimal notation of `n`.
pub fn decimal_text(n: u64) -> (r: String)
    ensures
        r@ == decimal(n as nat),
    decreases n,
{
    let d = (n % 10) as u8;
    let c = (48u8 + d) as char;
    assert(c == digit_char((n % 10) as nat));
    if n < 10 {
        let mut s = String::new();
        push_char(&mut s, c);
        assert(s@ =~= seq![c]);
        s
    } else {
        let mut s = decimal_text(n / 10);
        push_char(&mut s, c);
        s
    }
}

/// The text of a rate-limit error.
pub open spec fn rate_limit_text(retry_after: u64, attempt: u32) -> Seq<char> {
    "Rate limit exceeded, retry after "@ + decimal(retry_after as nat) + " seconds (attempt "@
        + decimal(attempt as nat) + ")"@
}

impl CloudSyncError {
    /// The text shown to the user.
    pub fn message(&self) -> (r: String)
        ensures
            r@ == match *self {
                CloudSyncError::ConfigError(m) => "Configuration error: "@ + m@,
                CloudSyncError::AuthenticationError(m) => "Authentication failed: "@ + m@,
                CloudSyncError::RateLimitError { retry_after, attempt } => rate_limit_text(
                    retry_after,
                    attempt,
                ),
                CloudSyncError::ServerError { status, message } => "Server error "@ + decimal(
                    status as nat,
                ) + ": "@ + message@,
                CloudSyncError::ApiError(m) => "API error: "@ + m@,
            },
    {
        match self {
            CloudSyncError::ConfigError(m) => String::from_str("Configuration error: ").concat(
                m.as_str(),
            ),
            CloudSyncError::AuthenticationError(m) => String::from_str(
                "Authentication failed: ",
            ).concat(m.as_str()),
            CloudSyncError::RateLimitError { retry_after, attempt } => {
                let s = String::from_str("Rate limit exceeded, retry after ");
                let s = s.concat(decimal_text(*retry_after).as_str());
                let s = s.concat(" seconds (attempt ");
                let s = s.concat(decimal_text(*attempt as u64).as_str());
                s.concat(")")
            },
            CloudSyncError::ServerError { status, message } => {
                let s = String::from_str("Server error ");
                let s = s.concat(decimal_text(*status as u64).as_str());
                let s = s.concat(": ");
                s.concat(message.as_str())
            },
            CloudSyncError::ApiError(m) => String::from_str("API error: ").concat(m.as_str()),
        }
    }
}

/// The credentials for Roblox Cloud.
#[derive(Debug)]
pub struct AuthConfig {
    pub api_key: String,
}

/// The text of the error for an empty API key.
pub open spec fn empty_key_text() -> Seq<char> {
    "API key cannot be empty"@
}

/// The text of the error for a too short API key.
pub open spec fn short_key_text() -> Seq<char> {
    "API key appears to be invalid (too short)"@
}

/// The error an API key draws, if any: empty, or shorter than ten bytes in
/// UTF-8.
pub open spec fn key_error(api_key: Seq<char>) -> Option<Seq<char>> {
    if api_key.len() == 0 {
        Some(empty_key_text())
    } else if vstd::utf8::encode_utf8(api_key).len() < 10 {
        Some(short_key_text())
    } else {
        None
    }
}

/// `r` is the outcome that `key_error` gives for `api_key`.
pub open spec fn reports_key(r: Result<(), CloudSyncError>, api_key: Seq<char>) -> bool {
    match key_error(api_key) {
        None => r is Ok,
        Some(text) => r matches Err(CloudSyncError::ConfigError(m)) && m@ == text,
    }
}

/// The text of the error when no API key is configured.
pub open spec fn missing_key_text() -> Seq<char> {
    "Roblox Cloud API key not found\n\nPlease set your API key using one of these methods:\n\n1. Environment variable (recommended):\nexport ROBLOX_CLOUD_API_KEY=your_api_key_here\n\n2. Configuration file (slang-roblox.yaml):\ncloud:\napi_key: your_api_key_here\n\nGet your API key from:\nhttps://create.roblox.com/credentials"@
}

/// The API key that the configuration holds, if any.
pub open spec fn configured_key(config: Config) -> Option<String> {
    match config.cloud {
        Some(c) => c.api_key,
        None => None,
    }
}

fn check_key(api_key: &str) -> (r: Result<(), CloudSyncError>)
    ensures
        reports_key(r, api_key@),
{
    if api_key.is_empty() {
        return Err(CloudSyncError::ConfigError(String::from_str("API key cannot be empty")));
    }
    if api_key.as_bytes().len() < 10 {
        return Err(
            CloudSyncError::ConfigError(
                String::from_str("API key appears to be invalid (too short)"),
            ),
        );
    }
    Ok(())
}

impl AuthConfig {
    /// Checks the API key: an empty key and a key shorter than ten bytes are
    /// refused with a configuration error.
    pub fn validate(&self) -> (r: Result<(), CloudSyncError>)
        ensures
            reports_key(r, self.api_key@),
    {
        check_key(self.api_key.as_str())
    }

    /// The credentials from the key in the environment, if one is set, or
    /// else from the key in the configuration; the key is checked as
    /// `validate` does. Without a key, a configuration error says how to
    /// provide one.
    pub fn load(env_key: Option<String>, config: &Config) -> (r: Result<AuthConfig, CloudSyncError>)
        ensures
            match env_key {
                Some(k) => match r {
                    Ok(a) => a.api_key@ == k@ && key_error(k@) is None,
                    Err(e) => reports_key(Err(e), k@),
                },
                None => match configured_key(*config) {
                    Some(k) => match r {
                        Ok(a) => a.api_key@ == k@ && key_error(k@) is None,
                        Err(e) => reports_key(Err(e), k@),
                    },
                    None => r matches Err(CloudSyncError::ConfigError(m)) && m@
                        == missing_key_text(),
                },
            },
    {
        if let Some(k) = env_key {
            let auth = AuthConfig { api_key: k };
            match auth.validate() {
                Ok(()) => return Ok(auth),
                Err(e) => return Err(e),
            }
        }
        if let Some(cloud) = &config.cloud {
            if let Some(k) = &cloud.api_key {
                let auth = AuthConfig { api_key: k.clone() };
                match auth.validate() {
                    Ok(()) => return Ok(auth),
                    Err(e) => return Err(e),
                }
            }
        }
        Err(
            CloudSyncError::ConfigError(
                String::from_str(
                    "Roblox Cloud API key not found\n\nPlease set your API key using one of these methods:\n\n1. Environment variable (recommended):\nexport ROBLOX_CLOUD_API_KEY=your_api_key_here\n\n2. Configuration file (slang-roblox.yaml):\ncloud:\napi_key: your_api_key_here\n\nGet your API key from:\nhttps://create.roblox.com/credentials",
                ),
            ),
        )
    }
}

/// `r` is the error for a failed response with `status`, the seconds of
/// its `Retry-After` header where it had a numeric one, and its `body`.
pub open spec fn error_for_status(r: CloudSyncError, status: u16, retry_after: Option<u64>, body: Seq<
    char,
>) -> bool {
    if status == 401 {
        r matches CloudSyncError::AuthenticationError(m) && m@
            == "Invalid or expired API key. Please check your credentials.\n\nResponse: "@ + body
    } else if status == 403 {
        r matches CloudSyncError::AuthenticationError(m) && m@
            == "Insufficient permissions for this operation.\n\nMake sure your API key has access to this table.\nResponse: "@
            + body
    } else if status == 429 {
        r == CloudSyncError::RateLimitError {
            retry_after: match retry_after {
                Some(n) => n,
                None => 1,
            },
            attempt: 1,
        }
    } else if 500 <= status <= 599 {
        r matches CloudSyncError::ServerError { status: s, message: m } && s == status && m@
            == "Roblox server error. Please try again later.\n\nResponse: "@ + body
    } else {
        r matches CloudSyncError::ApiError(m) && m@ == "API request failed with status "@ + decimal(
            status as nat,
        ) + ": "@ + body
    }
}

/// The error for a failed response: a refused key (401) or a missing
/// permission (403), a rate limit (429) that says when to retry (after the
/// `Retry-After` seconds, or one second), a server error (5xx), or any
/// other failure with its status; the response body is kept in the text.
pub fn error_from_response(status: u16, retry_after: Option<u64>, body: &str) -> (r: CloudSyncError)
    ensures
        error_for_status(r, status, retry_after, body@),
{
    if status == 401 {
        CloudSyncError::AuthenticationError(
            String::from_str(
                "Invalid or expired API key. Please check your credentials.\n\nResponse: ",
            ).concat(body),
        )
    } else if status == 403 {
        CloudSyncError::AuthenticationError(
            String::from_str(
                "Insufficient permissions for this operation.\n\nMake sure your API key has access to this table.\nResponse: ",
            ).concat(body),
        )
    } else if status == 429 {
        let retry = match retry_after {
            Some(n) => n,
            None => 1,
        };
        CloudSyncError::RateLimitError { retry_after: retry, attempt: 1 }
    } else if 500 <= status && status <= 599 {
        CloudSyncError::ServerError {
            status,
            message: String::from_str("Roblox server error. Please try again later.\n\nResponse: ").concat(
                body,
            ),
        }
    } else {
        let s = String::from_str("API request failed with status ");
        let s = s.concat(decimal_text(status as u64).as_str());
        let s = s.concat(": ");
        CloudSyncError::ApiError(s.concat(body))
    }
}

/// A decimal digit.
pub open spec fn is_digit(c: char) -> bool {
    '0' <= c <= '9'
}

/// The number that the decimal digits `d` spell.
pub open spec fn digits_value(d: Seq<char>) -> nat
    decreases d.len(),
{
    if d.len() == 0 {
        0
    } else {
        digits_value(d.drop_last()) * 10 + ((d.last() as nat) - 48) as nat
    }
}

/// The digits of an unsigned number's text: without its `+` sign, if any.
pub open spec fn unsigned_digits(s: Seq<char>) -> Seq<char> {
    if s.len() > 0 && s[0] == '+' {
        s.drop_first()
    } else {
        s
    }
}

/// The `u64` that a text spells, as `str::parse::<u64>` reads it: an
/// optional `+`, then one or more decimal digits, with a value that fits.
pub open spec fn u64_of(s: Seq<char>) -> Option<u64> {
    let d = unsigned_digits(s);
    if d.len() > 0 && (forall|i: int| 0 <= i < d.len() ==> is_digit(#[trigger] d[i]))
        && digits_value(d) <= u64::MAX {
        Some(digits_value(d) as u64)
    } else {
        None
    }
}

proof fn lemma_digits_value_grows(d: Seq<char>, j: int)
    requires
        0 <= j <= d.len(),
        forall|i: int| 0 <= i < d.len() ==> is_digit(#[trigger] d[i]),
    ensures
        digits_value(d.take(j)) <= digits_value(d),
    decreases d.len() - j,
{
    if j < d.len() {
        let e = d.take(j + 1);
        assert(e.drop_last() =~= d.take(j));
        assert(is_digit(d[j]));
        lemma_digits_value_grows(d, j + 1);
    } else {
        assert(d.take(j) =~= d);
    }
}

/// The number a text spells, as `str::parse::<u64>` reads it: an optional
/// `+`, then decimal digits only, with a value that fits in a `u64`.
pub fn parse_u64(s: &str) -> (r: Option<u64>)
    ensures
        r == u64_of(s@),
{
    let chars = crate::text::chars_of(s);
    let mut start: usize = 0;
    if chars.len() > 0 && chars[0] == '+' {
        start = 1;
    }
    let ghost d = unsigned_digits(s@);
    assert(d =~= chars@.subrange(start as int, chars@.len() as int));
    if start >= chars.len() {
        return None;
    }
    let mut acc: u64 = 0;
    let mut i: usize = start;
    assert(d.take(0) =~= Seq::<char>::empty());
    while i < chars.len()
        invariant
            start <= i <= chars.len(),
            start < chars.len(),
            d == chars@.subrange(start as int, chars@.len() as int),
            d == unsigned_digits(s@),
            forall|k: int| 0 <= k < i - start ==> is_digit(#[trigger] d[k]),
            acc == digits_value(d.take(i - start)),
        decreases chars.len() - i,
    {
        let c = chars[i];
        assert(d[i - start] == c);
        if !('0' <= c && c <= '9') {
            assert(!is_digit(d[i - start]));
            return None;
        }
        let digit = (c as u32 - 48) as u64;
        assert(d.take(i - start + 1).drop_last() =~= d.take(i - start));
        assert(d.take(i - start + 1).last() == c);
        assert(digits_value(d.take(i - start + 1)) == acc * 10 + digit);
        match acc.checked_mul(10) {
            Some(m) => match m.checked_add(digit) {
                Some(v) => {
                    acc = v;
                },
                None => {
                    proof {
                        if forall|k: int| 0 <= k < d.len() ==> is_digit(#[trigger] d[k]) {
                            lemma_digits_value_grows(d, i - start + 1);
                        }
                    }
                    return None;
                },
            },
            None => {
                proof {
                    if forall|k: int| 0 <= k < d.len() ==> is_digit(#[trigger] d[k]) {
                        lemma_digits_value_grows(d, i - start + 1);
                    }
                }
                return None;
            },
        }
        i = i + 1;
    }
    assert(d.take(d.len() as int) =~= d);
    Some(acc)
}

/// The metadata of a localization table: its id and, where it has one, its
/// name.
#[derive(Debug, Clone, PartialEq)]
pub struct TableMetadata {
    pub id: String,
    pub name: Option<String>,
}

/// What an id given for a localization table names.
#[derive(Debug, Clone, Copy, PartialEq, Eq)]
pub enum TableIdKind {
    /// A table id: 36 bytes with a hyphen, as a UUID is written.
    TableId,
    /// A universe id: an unsigned number; its first table is meant.
    UniverseId,
    /// Neither.
    Invalid,
}

/// The kind of an id, as `resolve_table_id` decides it.
pub open spec fn table_id_kind_of(id: Seq<char>) -> TableIdKind {
    if id.contains('-') && vstd::utf8::encode_utf8(id).len() == 36 {
        TableIdKind::TableId
    } else if u64_of(id) is Some {
        TableIdKind::UniverseId
    } else {
        TableIdKind::Invalid
    }
}

fn contains_char(s: &str, c: char) -> (r: bool)
    ensures
        r <==> s@.contains(c),
{
    let chars = crate::text::chars_of(s);
    let mut i: usize = 0;
    while i < chars.len()
        invariant
            i <= chars.len(),
            chars@ == s@,
            forall|j: int| 0 <= j < i ==> chars@[j] != c,
        decreases chars.len() - i,
    {
        if chars[i] == c {
            assert(s@[i as int] == c);
            return true;
        }
        i = i + 1;
    }
    false
}

/// Tells a table id (36 bytes with a hyphen) from a universe id (an
/// unsigned number) and from an id that is neither.
pub fn table_id_kind(id: &str) -> (r: TableIdKind)
    ensures
        r == table_id_kind_of(id@),
{
    if contains_char(id, '-') && id.as_bytes().len() == 36 {
        TableIdKind::TableId
    } else if parse_u64(id).is_some() {
        TableIdKind::UniverseId
    } else {
        TableIdKind::Invalid
    }
}

/// The text of the error for an id that is neither a table nor a universe.
pub fn invalid_id_text(id: &str) -> (r: String)
    ensures
        r@ == "Invalid table ID or universe ID format: "@ + id@,
{
    String::from_str("Invalid table ID or universe ID format: ").concat(id)
}

/// The table of a universe: the first of its tables, or an error text when
/// it has none.
pub fn first_table(table_ids: &Vec<String>, universe: &str) -> (r: Result<String, String>)
    ensures
        table_ids@.len() > 0 ==> (r matches Ok(t) && t@ == table_ids@[0]@),
        table_ids@.len() == 0 ==> (r matches Err(m) && m@
            == "No localization tables found for universe "@ + universe@),
{
    if table_ids.len() == 0 {
        Err(String::from_str("No localization tables found for universe ").concat(universe))
    } else {
        Ok(table_ids[0].clone())
    }
}

/// The path of the localization tables of the legacy API.
pub open spec fn tables_path() -> Seq<char> {
    "/legacy-localization-tables/v1/localization-table/tables/"@
}

/// `?gameId=` and the game, where one is given.
pub open spec fn game_query(game_id: Option<Seq<char>>) -> Seq<char> {
    match game_id {
        Some(g) => "?gameId="@ + g,
        None => Seq::empty(),
    }
}

/// The view of an optional text.
pub open spec fn opt_str(o: Option<&str>) -> Option<Seq<char>> {
    match o {
        Some(s) => Some(s@),
        None => None,
    }
}

fn append_game(s: String, game_id: Option<&str>) -> (r: String)
    ensures
        r@ == s@ + game_query(opt_str(game_id)),
{
    match game_id {
        Some(g) => s.concat("?gameId=").concat(g),
        None => {
            assert(s@ + Seq::<char>::empty() =~= s@);
            s
        },
    }
}

/// The URL of a table's entries.
pub fn entries_url(base_url: &str, table_id: &str, game_id: Option<&str>) -> (r: String)
    ensures
        r@ == base_url@ + tables_path() + table_id@ + "/entries"@ + game_query(opt_str(game_id)),
{
    let s = String::from_str(base_url);
    let s = s.concat("/legacy-localization-tables/v1/localization-table/tables/");
    let s = s.concat(table_id);
    let s = s.concat("/entries");
    append_game(s, game_id)
}

/// The URL of a table itself, where its entries are updated and its
/// metadata read.
pub fn table_url(base_url: &str, table_id: &str, game_id: Option<&str>) -> (r: String)
    ensures
        r@ == base_url@ + tables_path() + table_id@ + game_query(opt_str(game_id)),
{
    let s = String::from_str(base_url);
    let s = s.concat("/legacy-localization-tables/v1/localization-table/tables/");
    let s = s.concat(table_id);
    append_game(s, game_id)
}

/// The URL that lists the localization tables of a universe.
pub fn universe_tables_url(base_url: &str, universe_id: &str) -> (r: String)
    ensures
        r@ == base_url@ + "/cloud/v2/universes/"@ + universe_id@ + "/localization-tables"@,
{
    let s = String::from_str(base_url);
    let s = s.concat("/cloud/v2/universes/");
    let s = s.concat(universe_id);
    s.concat("/localization-tables")
}

} // verus!
