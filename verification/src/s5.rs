//! Configuration of the S5 storage backends: the storage mode, its
//! settings as read from the environment, their validation, and the
//! records that the S5 services exchange.
use vstd::prelude::*;
use crate::text::{starts_with, concat, push_decimal, decimal};

verus! {

/// Where objects are stored.
#[derive(Debug, Clone, Copy, PartialEq, Eq, Structural)]
pub enum StorageMode {
    Mock,
    Real,
}

/// Settings of an S5 storage backend.
#[derive(Debug, Clone)]
pub struct S5StorageConfig {
    pub mode: StorageMode,
    pub mock_server_url: Option<String>,
    pub portal_url: Option<String>,
    pub seed_phrase: Option<String>,
    /// Milliseconds.
    pub connection_timeout: Option<u64>,
    pub retry_attempts: Option<u32>,
    /// Encryption at rest; on unless set to false.
    pub encrypt_at_rest: Option<bool>,
}

/// A rejected storage configuration.
#[derive(Debug)]
pub struct StorageConfigError {
    message: String,
}

impl StorageConfigError {
    /// The message.
    pub closed spec fn message_spec(&self) -> Seq<char> {
        self.message@
    }

    /// An error with the message.
    pub fn new(message: &str) -> (r: Self)
        ensures
            r.message_spec() == message@,
    {
        StorageConfigError { message: String::from_str(message) }
    }

    /// The message.
    pub fn message(&self) -> (r: &str)
        ensures
            r@ == self.message_spec(),
    {
        self.message.as_str()
    }

    /// The display form: the message after a fixed lead.
    pub fn to_string(&self) -> (r: String)
        ensures
            r@ == "Storage configuration error: "@ + self.message_spec(),
    {
        concat("Storage configuration error: ", self.message.as_str())
    }
}

// ---------------------------------------------------------------------------
// Words of a seed phrase
// ---------------------------------------------------------------------------

/// The characters with the Unicode `White_Space` property.
pub open spec fn is_whitespace(c: char) -> bool {
    ||| ('\u{9}' <= c && c <= '\u{d}')
    ||| c == ' '
    ||| c == '\u{85}'
    ||| c == '\u{a0}'
    ||| c == '\u{1680}'
    ||| ('\u{2000}' <= c && c <= '\u{200a}')
    ||| c == '\u{2028}'
    ||| c == '\u{2029}'
    ||| c == '\u{202f}'
    ||| c == '\u{205f}'
    ||| c == '\u{3000}'
}

/// The number of words: maximal runs of characters other than whitespace.
pub open spec fn word_count(s: Seq<char>) -> nat
    decreases s.len(),
{
    if s.len() == 0 {
        0
    } else {
        word_count(s.drop_last()) + if !is_whitespace(s.last()) && (s.len() == 1 || is_whitespace(s[s.len() - 2])) {
            1nat
        } else {
            0nat
        }
    }
}

fn char_is_whitespace(c: char) -> (r: bool)
    ensures
        r == is_whitespace(c),
{
    ('\u{9}' <= c && c <= '\u{d}') || c == ' ' || c == '\u{85}' || c == '\u{a0}' || c == '\u{1680}'
        || ('\u{2000}' <= c && c <= '\u{200a}') || c == '\u{2028}' || c == '\u{2029}' || c == '\u{202f}'
        || c == '\u{205f}' || c == '\u{3000}'
}

/// The number of whitespace-separated words.
pub fn count_words(s: &str) -> (r: usize)
    ensures
        r == word_count(s@),
{
    let n = s.unicode_len();
    let mut count: usize = 0;
    let mut prev_ws = true;
    let mut i: usize = 0;
    while i < n
        invariant
            n == s@.len(),
            i <= n,
            count == word_count(s@.take(i as int)),
            count <= i,
            prev_ws == (i == 0 || is_whitespace(s@[i - 1])),
        decreases n - i,
    {
        let c = s.get_char(i);
        let ws = char_is_whitespace(c);
        proof {
            let t = s@.take(i + 1);
            assert(t.drop_last() =~= s@.take(i as int));
            assert(t.last() == c);
            if i > 0 {
                assert(t[t.len() - 2] == s@[i - 1]);
            }
        }
        if !ws && prev_ws {
            count = count + 1;
        }
        prev_ws = ws;
        i = i + 1;
    }
    assert(s@.take(n as int) =~= s@);
    count
}

// ---------------------------------------------------------------------------
// Numbers and flags from the environment
// ---------------------------------------------------------------------------

/// The value of a decimal digit character.
pub open spec fn digit_value(c: char) -> nat {
    (c as nat - '0' as nat) as nat
}

/// All characters are ASCII digits.
pub open spec fn all_digits(s: Seq<char>) -> bool {
    forall|i: int| 0 <= i < s.len() ==> '0' <= #[trigger] s[i] && s[i] <= '9'
}

/// The number that a string of digits spells.
pub open spec fn digits_value(s: Seq<char>) -> nat
    decreases s.len(),
{
    if s.len() == 0 {
        0
    } else {
        digits_value(s.drop_last()) * 10 + digit_value(s.last())
    }
}

/// The digits of an unsigned number in text: an optional `+` and at least
/// one digit, as `str::parse` reads unsigned integers.
pub open spec fn unsigned_digits(s: Seq<char>) -> Option<Seq<char>> {
    let d = if s.len() > 0 && s[0] == '+' { s.drop_first() } else { s };
    if d.len() > 0 && all_digits(d) { Some(d) } else { None }
}

/// The number a text spells, if it spells one no larger than `max`.
pub open spec fn parse_unsigned(s: Seq<char>, max: nat) -> Option<nat> {
    match unsigned_digits(s) {
        Some(d) => if digits_value(d) <= max { Some(digits_value(d)) } else { None },
        None => None,
    }
}

proof fn lemma_digits_value_grows(s: Seq<char>, i: int)
    requires
        0 <= i <= s.len(),
    ensures
        digits_value(s.take(i)) <= digits_value(s),
    decreases s.len() - i,
{
    if i < s.len() {
        lemma_digits_value_grows(s, i + 1);
        assert(s.take(i + 1).drop_last() =~= s.take(i));
    } else {
        assert(s.take(i) =~= s);
    }
}

/// Reads an unsigned number no larger than `max` the way `str::parse` does
/// for the unsigned integer types.
fn parse_bounded(s: &str, max: u64) -> (r: Option<u64>)
    requires
        max >= 9,
    ensures
        match parse_unsigned(s@, max as nat) {
            Some(v) => r == Some(v as u64),
            None => r is None,
        },
{
    let n = s.unicode_len();
    let mut i: usize = 0;
    if n > 0 && s.get_char(0) == '+' {
        i = 1;
    }
    let start = i;
    let ghost d = if s@.len() > 0 && s@[0] == '+' { s@.drop_first() } else { s@ };
    if start == n {
        return None;
    }
    let mut value: u64 = 0;
    while i < n
        invariant
            n == s@.len(),
            start <= i <= n,
            start < n,
            d == s@.subrange(start as int, n as int),
            d == (if s@.len() > 0 && s@[0] == '+' { s@.drop_first() } else { s@ }),
            max >= 9,
            all_digits(s@.subrange(start as int, i as int)),
            value == digits_value(s@.subrange(start as int, i as int)),
            value <= max,
        decreases n - i,
    {
        let c = s.get_char(i);
        proof {
            let t = s@.subrange(start as int, i + 1);
            assert(t.drop_last() =~= s@.subrange(start as int, i as int));
            assert(t.last() == c);
            assert(d.take(i + 1 - start) =~= t);
        }
        if c < '0' || c > '9' {
            proof {
                assert(d[i - start] == c);
                assert(!all_digits(d));
                assert(unsigned_digits(s@) is None);
            }
            return None;
        }
        let digit = (c as u32 - '0' as u32) as u64;
        assert(digit <= 9);
        if value > (max - digit) / 10 {
            proof {
                lemma_digits_value_grows(d, i + 1 - start);
                assert(value * 10 + digit > max) by (nonlinear_arith)
                    requires value > (max - digit) / 10, digit <= 9, max >= 9;
                assert(d.take(i + 1 - start) =~= s@.subrange(start as int, i + 1));
                assert(digits_value(d) > max);
            }
            return None;
        }
        proof {
            assert(value * 10 + digit <= max) by (nonlinear_arith)
                requires value <= (max - digit) / 10, digit <= max;
        }
        value = value * 10 + digit;
        i = i + 1;
    }
    proof {
        assert(s@.subrange(start as int, n as int) =~= d);
    }
    Some(value)
}

/// Reads a `u64` as `str::parse` does.
pub fn parse_u64(s: &str) -> (r: Option<u64>)
    ensures
        match parse_unsigned(s@, u64::MAX as nat) {
            Some(v) => r == Some(v as u64),
            None => r is None,
        },
{
    parse_bounded(s, u64::MAX)
}

/// Reads a `usize` as `str::parse` does.
pub fn parse_usize(s: &str) -> (r: Option<usize>)
    ensures
        match parse_unsigned(s@, usize::MAX as nat) {
            Some(v) => r == Some(v as usize),
            None => r is None,
        },
{
    match parse_bounded(s, usize::MAX as u64) {
        Some(v) => Some(v as usize),
        None => None,
    }
}

/// Reads a `u32` as `str::parse` does.
pub fn parse_u32(s: &str) -> (r: Option<u32>)
    ensures
        match parse_unsigned(s@, u32::MAX as nat) {
            Some(v) => r == Some(v as u32),
            None => r is None,
        },
{
    match parse_bounded(s, u32::MAX as u64) {
        Some(v) => Some(v as u32),
        None => None,
    }
}

/// Reads a `bool` as `str::parse` does: exactly `true` or `false`.
pub fn parse_bool(s: &str) -> (r: Option<bool>)
    ensures
        r == (if s@ == "true"@ { Some(true) } else if s@ == "false"@ { Some(false) } else { None::<bool> }),
{
    proof {
        reveal_strlit("true");
        reveal_strlit("false");
    }
    let n = s.unicode_len();
    if n == 4 && s.get_char(0) == 't' && s.get_char(1) == 'r' && s.get_char(2) == 'u' && s.get_char(3) == 'e' {
        assert(s@ =~= "true"@);
        return Some(true);
    }
    if n == 5 && s.get_char(0) == 'f' && s.get_char(1) == 'a' && s.get_char(2) == 'l' && s.get_char(3) == 's'
        && s.get_char(4) == 'e' {
        assert(s@ =~= "false"@);
        return Some(false);
    }
    assert(s@ != "true"@ && s@ != "false"@) by {
        if s@ == "true"@ {
            assert(s@[0] == 't' && s@[1] == 'r' && s@[2] == 'u' && s@[3] == 'e');
        }
        if s@ == "false"@ {
            assert(s@[0] == 'f' && s@[1] == 'a' && s@[2] == 'l' && s@[3] == 's' && s@[4] == 'e');
        }
    }
    None
}

// ---------------------------------------------------------------------------
// The factory
// ---------------------------------------------------------------------------

/// The connection timeout of a backend that sets none, in milliseconds.
pub const DEFAULT_TIMEOUT_MS: u64 = 30000;

/// Builds storage configurations from the environment and checks them.
pub struct S5StorageFactory;

/// A URL of the web: `http://` or `https://` first.
pub open spec fn is_web_url(u: Seq<char>) -> bool {
    "http://"@.is_prefix_of(u) || "https://"@.is_prefix_of(u)
}

/// The configuration that the environment describes (see
/// `S5StorageFactory::config_from_env_values`), or the message of the error.
pub open spec fn env_config(storage_mode: Option<Seq<char>>, s5_mode: Option<Seq<char>>,
    mock_server_url: Option<Seq<char>>, portal_url: Option<Seq<char>>, seed_phrase: Option<Seq<char>>)
    -> Result<(StorageMode, Option<Seq<char>>, Option<Seq<char>>, Option<Seq<char>>), Seq<char>>
{
    let mode_var = match storage_mode { Some(m) => Some(m), None => s5_mode };
    let is_real_mode = mode_var == Some("real"@);
    if !is_real_mode {
        let url = match mock_server_url { Some(u) => u, None => "http://localhost:5522"@ };
        if !is_web_url(url) {
            Err("Invalid URL format for S5_MOCK_SERVER_URL: must start with http:// or https://"@)
        } else {
            Ok((StorageMode::Mock, Some(url), None, None))
        }
    } else {
        match portal_url {
            None => Err("S5_PORTAL_URL required for real mode"@),
            Some(p) => if !is_web_url(p) {
                Err("Invalid URL format for S5_PORTAL_URL: must start with http:// or https://"@)
            } else {
                match seed_phrase {
                    Some(phrase) => if word_count(phrase) != 12 && word_count(phrase) != 24 {
                        Err(seed_phrase_message(phrase))
                    } else {
                        Ok((StorageMode::Real, None, Some(p), Some(phrase)))
                    },
                    None => Ok((StorageMode::Real, None, Some(p), None)),
                }
            },
        }
    }
}

/// The message of a seed phrase of the wrong length.
pub open spec fn seed_phrase_message(phrase: Seq<char>) -> Seq<char> {
    "Invalid seed phrase: expected 12 or 24 words, got "@ + decimal(word_count(phrase))
}

/// The view of an optional string.
pub open spec fn opt_view(o: Option<String>) -> Option<Seq<char>> {
    match o {
        Some(s) => Some(s@),
        None => None,
    }
}

/// The view of an optional string slice.
pub open spec fn opt_str_view(o: Option<&str>) -> Option<Seq<char>> {
    match o {
        Some(s) => Some(s@),
        None => None,
    }
}

fn is_web_url_exec(u: &str) -> (r: bool)
    ensures
        r == is_web_url(u@),
{
    starts_with(u, "http://") || starts_with(u, "https://")
}

fn is_real(mode: Option<&str>) -> (r: bool)
    ensures
        r == (opt_str_view(mode) == Some("real"@)),
{
    proof {
        reveal_strlit("real");
    }
    match mode {
        Some(m) => {
            let n = m.unicode_len();
            if n == 4 && m.get_char(0) == 'r' && m.get_char(1) == 'e' && m.get_char(2) == 'a' && m.get_char(3) == 'l' {
                assert(m@ =~= "real"@);
                true
            } else {
                assert(m@ != "real"@) by {
                    if m@ == "real"@ {
                        assert(m@[0] == 'r' && m@[1] == 'e' && m@[2] == 'a' && m@[3] == 'l');
                    }
                }
                false
            }
        },
        None => false,
    }
}

impl S5StorageFactory {
    /// A seed phrase has twelve or twenty-four words.
    pub fn validate_seed_phrase(seed_phrase: &str) -> (r: Result<(), StorageConfigError>)
        ensures
            (word_count(seed_phrase@) == 12 || word_count(seed_phrase@) == 24) ==> r is Ok,
            !(word_count(seed_phrase@) == 12 || word_count(seed_phrase@) == 24) ==> (r matches Err(e)
                && e.message_spec() == seed_phrase_message(seed_phrase@)),
    {
        let word_count = count_words(seed_phrase);
        if word_count != 12 && word_count != 24 {
            let mut message = String::from_str("Invalid seed phrase: expected 12 or 24 words, got ");
            push_decimal(&mut message, word_count);
            return Err(StorageConfigError { message });
        }
        Ok(())
    }

    /// The configuration that environment values describe: the mode from
    /// `STORAGE_MODE`, else `S5_MODE` (`real`, or mock otherwise); for mock,
    /// the server URL (by default `http://localhost:5522`); for real, the
    /// portal URL, which is required, and the seed phrase, checked when
    /// given. Either URL must start with `http://` or `https://`. The
    /// timeout, retry count and encryption flag are read when they parse.
    pub fn config_from_env_values(storage_mode: Option<&str>, s5_mode: Option<&str>,
        mock_server_url: Option<&str>, portal_url: Option<&str>, seed_phrase: Option<&str>,
        connection_timeout: Option<&str>, retry_attempts: Option<&str>, encrypt_at_rest: Option<&str>)
        -> (r: Result<S5StorageConfig, StorageConfigError>)
        ensures
            match env_config(opt_str_view(storage_mode), opt_str_view(s5_mode), opt_str_view(mock_server_url),
                opt_str_view(portal_url), opt_str_view(seed_phrase)) {
                Ok((mode, mock, portal, phrase)) => r matches Ok(c)
                    && c.mode == mode
                    && opt_view(c.mock_server_url) == mock
                    && opt_view(c.portal_url) == portal
                    && opt_view(c.seed_phrase) == phrase
                    && c.connection_timeout == match connection_timeout {
                        Some(t) => match parse_unsigned(t@, u64::MAX as nat) { Some(v) => Some(v as u64), None => None },
                        None => None::<u64>,
                    }
                    && c.retry_attempts == match retry_attempts {
                        Some(t) => match parse_unsigned(t@, u32::MAX as nat) { Some(v) => Some(v as u32), None => None },
                        None => None::<u32>,
                    }
                    && c.encrypt_at_rest == match encrypt_at_rest {
                        Some(t) => if t@ == "true"@ { Some(true) } else if t@ == "false"@ { Some(false) } else { None },
                        None => None::<bool>,
                    },
                Err(msg) => r matches Err(e) && e.message_spec() == msg,
            },
    {
        proof {
            reveal_strlit("http://localhost:5522");
        }
        let mode_var = match storage_mode {
            Some(m) => Some(m),
            None => s5_mode,
        };
        let timeout = match connection_timeout {
            Some(t) => parse_u64(t),
            None => None,
        };
        let retries = match retry_attempts {
            Some(t) => parse_u32(t),
            None => None,
        };
        let encrypt = match encrypt_at_rest {
            Some(t) => parse_bool(t),
            None => None,
        };
        if !is_real(mode_var) {
            let url = match mock_server_url {
                Some(u) => String::from_str(u),
                None => String::from_str("http://localhost:5522"),
            };
            if !is_web_url_exec(url.as_str()) {
                return Err(StorageConfigError::new(
                    "Invalid URL format for S5_MOCK_SERVER_URL: must start with http:// or https://",
                ));
            }
            return Ok(S5StorageConfig {
                mode: StorageMode::Mock,
                mock_server_url: Some(url),
                portal_url: None,
                seed_phrase: None,
                connection_timeout: timeout,
                retry_attempts: retries,
                encrypt_at_rest: encrypt,
            });
        }
        let portal = match portal_url {
            Some(p) => p,
            None => {
                return Err(StorageConfigError::new("S5_PORTAL_URL required for real mode"));
            },
        };
        if !is_web_url_exec(portal) {
            return Err(StorageConfigError::new(
                "Invalid URL format for S5_PORTAL_URL: must start with http:// or https://",
            ));
        }
        let phrase = match seed_phrase {
            Some(p) => {
                match S5StorageFactory::validate_seed_phrase(p) {
                    Ok(()) => {},
                    Err(e) => {
                        return Err(e);
                    },
                }
                Some(String::from_str(p))
            },
            None => None,
        };
        Ok(S5StorageConfig {
            mode: StorageMode::Real,
            mock_server_url: None,
            portal_url: Some(String::from_str(portal)),
            seed_phrase: phrase,
            connection_timeout: timeout,
            retry_attempts: retries,
            encrypt_at_rest: encrypt,
        })
    }

    /// A configuration names the URL its mode needs; the result is the
    /// connection timeout in milliseconds: thirty seconds unless set, as S5
    /// operations take seconds.
    pub fn check_config(config: &S5StorageConfig) -> (r: Result<u64, StorageConfigError>)
        ensures
            config.mode == StorageMode::Mock && config.mock_server_url is None ==> (r matches Err(e)
                && e.message_spec() == "mock_server_url is required for Mock mode"@),
            config.mode == StorageMode::Real && config.portal_url is None ==> (r matches Err(e)
                && e.message_spec() == "portal_url is required for Real mode"@),
            (config.mode == StorageMode::Mock ==> config.mock_server_url is Some)
                && (config.mode == StorageMode::Real ==> config.portal_url is Some) ==> r == Ok::<u64, StorageConfigError>(
                    match config.connection_timeout { Some(t) => t, None => DEFAULT_TIMEOUT_MS }),
    {
        match config.mode {
            StorageMode::Mock => {
                if config.mock_server_url.is_none() {
                    return Err(StorageConfigError::new("mock_server_url is required for Mock mode"));
                }
            },
            StorageMode::Real => {
                if config.portal_url.is_none() {
                    return Err(StorageConfigError::new("portal_url is required for Real mode"));
                }
            },
        }
        match config.connection_timeout {
            Some(t) => Ok(t),
            None => Ok(DEFAULT_TIMEOUT_MS),
        }
    }

    /// Where a key is stored: under `/s5/fs/` on a mock server and under
    /// `/storage/` on a portal.
    pub fn storage_path(mode: StorageMode, key: &str) -> (r: String)
        ensures
            mode == StorageMode::Mock ==> r@ == "/s5/fs/"@ + key@,
            mode == StorageMode::Real ==> r@ == "/storage/"@ + key@,
    {
        match mode {
            StorageMode::Mock => concat("/s5/fs/", key),
            StorageMode::Real => concat("/storage/", key),
        }
    }
}

// ---------------------------------------------------------------------------
// Records of the S5 services
// ---------------------------------------------------------------------------

/// Settings of the S5 node client.
#[derive(Clone, Debug)]
pub struct S5Config {
    pub node_url: String,
    pub api_key: Option<String>,
    pub enable_compression: bool,
    pub cache_size: usize,
}

impl Default for S5Config {
    /// A local node on port 5050, no key, no compression, a hundred cached
    /// entries.
    fn default() -> (r: Self)
        ensures
            r.node_url@ == "http://localhost:5050"@,
            r.api_key is None,
            !r.enable_compression,
            r.cache_size == 100,
    {
        S5Config {
            node_url: String::from_str("http://localhost:5050"),
            api_key: None,
            enable_compression: false,
            cache_size: 100,
        }
    }
}

/// What the store knows of a stored key.
#[derive(Clone, Debug)]
pub struct StorageMetadata {
    pub key: String,
    pub cid: String,
    pub size: usize,
    /// Unix seconds.
    pub created_at: i64,
    pub compressed: bool,
}

/// The answer to an upload.
pub struct UploadResponse {
    pub cid: String,
}

/// The answer to a write at a path.
pub struct PathResponse {
    pub cid: String,
    pub path: String,
}

/// An entry of a directory listing.
pub struct DirectoryEntry {
    pub name: String,
    /// `file` or `directory`.
    pub entry_type: String,
    pub size: Option<u64>,
}

/// A directory listing, with the cursor of the next page.
pub struct ListResponse {
    pub entries: Vec<DirectoryEntry>,
    pub cursor: Option<String>,
}

/// The outcome of one upload of a batch.
pub struct BatchResult {
    pub path: String,
    pub cid: Option<String>,
    pub success: bool,
    pub error: Option<String>,
}

/// Metadata that S5 keeps of stored content.
pub struct S5Metadata {
    pub cid: String,
    pub size: usize,
    pub mime_type: String,
    /// Unix seconds.
    pub created_at: i64,
    pub encryption: Option<String>,
}

} // verus!
