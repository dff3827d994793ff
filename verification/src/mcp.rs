//! The rules of the local MCP endpoint: which caller is let in, the port it
//! listens on, what a stored token must look like, and which tool call
//! becomes which request to the app.
//!
//! Serving HTTP, reading the token file and waiting for the app's reply are
//! the caller's part.
use vstd::prelude::*;

use crate::text::{
    append_chars, byte_len, byte_length, chars_of, decimal_chars, decimal_string, string_of,
    trim, trim_ws,
};

verus! {

/// The header scheme a caller presents its token with.
pub open spec fn bearer_prefix() -> Seq<char> {
    "Bearer "@
}

proof fn lemma_push_eq<A>(s: Seq<A>, u: Seq<A>, x: A, y: A)
    ensures
        (s.push(x) == u.push(y)) == (s == u && x == y),
{
    if s.push(x) == u.push(y) {
        assert(s =~= s.push(x).drop_last());
        assert(u =~= u.push(y).drop_last());
        assert(x == s.push(x).last());
        assert(y == u.push(y).last());
    }
}

/// Whether `candidate` is the token: same length in bytes, then every byte
/// compared, with no early exit.
pub fn token_matches(candidate: &str, token: &str) -> (r: bool)
    ensures
        r == (candidate@ == token@),
{
    let a = candidate.as_bytes();
    let b = token.as_bytes();
    proof {
        vstd::utf8::encode_utf8_decode_utf8(candidate@);
        vstd::utf8::encode_utf8_decode_utf8(token@);
    }
    if a.len() != b.len() {
        return false;
    }
    let mut diff: u8 = 0;
    let mut i: usize = 0;
    assert(a@.subrange(0, 0) =~= b@.subrange(0, 0));
    while i < a.len()
        invariant
            a@ == vstd::utf8::encode_utf8(candidate@),
            b@ == vstd::utf8::encode_utf8(token@),
            a@.len() == b@.len(),
            i <= a@.len(),
            (diff == 0) == (a@.subrange(0, i as int) == b@.subrange(0, i as int)),
        decreases a@.len() - i,
    {
        let x = a[i];
        let y = b[i];
        let before = diff;
        diff = diff | (x ^ y);
        assert((before | (x ^ y)) == 0 <==> (before == 0 && x == y)) by (bit_vector);
        assert(a@.subrange(0, i + 1) =~= a@.subrange(0, i as int).push(a@[i as int]));
        assert(b@.subrange(0, i + 1) =~= b@.subrange(0, i as int).push(b@[i as int]));
        proof {
            lemma_push_eq(a@.subrange(0, i as int), b@.subrange(0, i as int), a@[i as int], b@[i as int]);
        }
        i += 1;
    }
    assert(a@.subrange(0, a@.len() as int) =~= a@);
    assert(b@.subrange(0, b@.len() as int) =~= b@);
    diff == 0
}

/// Whether an `Authorization` header value lets the caller in: `Bearer `
/// followed by exactly the token.
pub open spec fn authorized_by(header: Option<Seq<char>>, token: Seq<char>) -> bool {
    header matches Some(h) && bearer_prefix().is_prefix_of(h) && h.subrange(
        bearer_prefix().len() as int,
        h.len() as int,
    ) == token
}

/// Whether a request with this `Authorization` header (`None` when absent
/// or not visible ASCII) may call the endpoint.
pub fn authorized(header: Option<&str>, token: &str) -> (r: bool)
    ensures
        r == authorized_by(
            match header {
                Some(h) => Some(h@),
                None => None,
            },
            token@,
        ),
{
    let h = match header {
        Some(h) => h,
        None => return false,
    };
    let chars = chars_of(h);
    let prefix = chars_of("Bearer ");
    proof {
        reveal_strlit("Bearer ");
    }
    if !crate::text::starts_with(&chars, &prefix) {
        return false;
    }
    let rest = crate::text::slice_chars(&chars, prefix.len(), chars.len());
    token_matches(string_of(&rest).as_str(), token)
}

/// The port the endpoint listens on when none is configured.
pub const DEFAULT_PORT: u16 = 47831;

/// The value of a decimal digit.
pub open spec fn digit_value(c: char) -> int {
    c as int - '0' as int
}

pub open spec fn is_digit(c: char) -> bool {
    '0' <= c <= '9'
}

/// The number the digits spell.
pub open spec fn digits_value(s: Seq<char>) -> int
    decreases s.len(),
{
    if s.len() == 0 {
        0
    } else {
        digits_value(s.drop_last()) * 10 + digit_value(s.last())
    }
}

/// The text after an optional leading `+`.
pub open spec fn sign_stripped(s: Seq<char>) -> Seq<char> {
    if s.len() > 0 && s[0] == '+' {
        s.drop_first()
    } else {
        s
    }
}

/// Every character is a decimal digit.
pub open spec fn all_digits(d: Seq<char>) -> bool {
    forall|i: int| 0 <= i < d.len() ==> is_digit(#[trigger] d[i])
}

/// `str::parse::<u16>`: an optional `+`, then one or more decimal digits
/// whose value fits.
pub open spec fn parsed_u16(s: Seq<char>) -> Option<u16> {
    let digits = sign_stripped(s);
    if digits.len() > 0 && all_digits(digits) && digits_value(digits) <= u16::MAX {
        Some(digits_value(digits) as u16)
    } else {
        None
    }
}

proof fn lemma_digits_grow(s: Seq<char>)
    requires
        s.len() > 0,
        forall|i: int| 0 <= i < s.len() ==> is_digit(#[trigger] s[i]),
    ensures
        digits_value(s.drop_last()) <= digits_value(s),
        digits_value(s) >= 0,
    decreases s.len(),
{
    if s.len() > 1 {
        let p = s.drop_last();
        assert forall|i: int| 0 <= i < p.len() implies is_digit(#[trigger] p[i]) by {
            assert(p[i] == s[i]);
        }
        lemma_digits_grow(p);
    }
}

proof fn lemma_digits_prefix_bound(s: Seq<char>, n: int)
    requires
        0 <= n <= s.len(),
        forall|i: int| 0 <= i < s.len() ==> is_digit(#[trigger] s[i]),
    ensures
        0 <= digits_value(s.subrange(0, n)) <= digits_value(s),
    decreases s.len() - n,
{
    if n == s.len() {
        assert(s.subrange(0, n) =~= s);
        if s.len() > 0 {
            lemma_digits_grow(s);
        }
    } else {
        lemma_digits_prefix_bound(s, n + 1);
        let p = s.subrange(0, n + 1);
        assert(p.drop_last() =~= s.subrange(0, n));
        assert forall|i: int| 0 <= i < p.len() implies is_digit(#[trigger] p[i]) by {
            assert(p[i] == s[i]);
        }
        lemma_digits_grow(p);
    }
}

/// `str::parse::<u16>`.
pub fn parse_u16(text: &str) -> (r: Option<u16>)
    ensures
        r == parsed_u16(text@),
{
    let s = chars_of(text);
    let start: usize = if s.len() > 0 && s[0] == '+' {
        1
    } else {
        0
    };
    let ghost digits = sign_stripped(s@);
    assert(digits =~= s@.subrange(start as int, s@.len() as int));
    if start >= s.len() {
        return None;
    }
    let mut value: u32 = 0;
    let mut i: usize = start;
    while i < s.len()
        invariant
            start <= i <= s@.len(),
            s@ == text@,
            digits == sign_stripped(text@),
            digits == s@.subrange(start as int, s@.len() as int),
            forall|k: int| start <= k < i ==> is_digit(#[trigger] s@[k]),
            value == digits_value(s@.subrange(start as int, i as int)),
            value <= u16::MAX,
        decreases s@.len() - i,
    {
        let c = s[i];
        assert(digits[i - start] == c);
        if !('0' <= c && c <= '9') {
            assert(!is_digit(digits[i - start]));
            assert(!all_digits(digits));
            return None;
        }
        let ghost p = s@.subrange(start as int, i + 1);
        assert(p.drop_last() =~= s@.subrange(start as int, i as int));
        assert(p.last() == c);
        let next = value * 10 + (c as u32 - '0' as u32);
        assert(digits_value(p) == next);
        if next > 65535 {
            proof {
                assert forall|k: int| 0 <= k < p.len() implies is_digit(#[trigger] p[k]) by {
                    assert(p[k] == s@[start + k]);
                }
                if all_digits(digits) {
                    lemma_digits_prefix_bound(digits, i + 1 - start);
                    assert(digits.subrange(0, i + 1 - start) =~= p);
                }
            }
            return None;
        }
        value = next;
        i += 1;
    }
    assert(s@.subrange(start as int, s@.len() as int) =~= digits);
    Some(value as u16)
}

/// The port the endpoint listens on, from the configured value (`None`
/// when unset).
pub open spec fn port_of(configured: Option<Seq<char>>) -> Result<u16, Seq<char>> {
    let text = match configured {
        Some(t) => t,
        None => "47831"@,
    };
    match parsed_u16(text) {
        None => Err("Invalid ARTIFEX_MCP_PORT"@),
        Some(0) => Err("ARTIFEX_MCP_PORT must be a fixed nonzero port"@),
        Some(p) => Ok(p),
    }
}

/// The port the endpoint listens on: the configured one, or 47831; a
/// value that is not a port, or 0, is refused.
pub fn mcp_port(configured: Option<&str>) -> (r: Result<u16, String>)
    ensures
        match r {
            Ok(p) => port_of(
                match configured {
                    Some(t) => Some(t@),
                    None => None,
                },
            ) == Ok::<u16, Seq<char>>(p),
            Err(e) => port_of(
                match configured {
                    Some(t) => Some(t@),
                    None => None,
                },
            ) == Err::<u16, Seq<char>>(e@),
        },
{
    let text = match configured {
        Some(t) => t,
        None => "47831",
    };
    match parse_u16(text) {
        None => Err("Invalid ARTIFEX_MCP_PORT".to_string()),
        Some(p) => {
            if p == 0 {
                Err("ARTIFEX_MCP_PORT must be a fixed nonzero port".to_string())
            } else {
                Ok(p)
            }
        },
    }
}

/// The hosts and origins a request may name: the loopback address and
/// `localhost`, on the port.
pub fn allowed_hosts(port: u16) -> (r: (Vec<String>, Vec<String>))
    ensures
        r.0@.len() == 2,
        r.0@[0]@ == "127.0.0.1:"@ + decimal_chars(port as nat),
        r.0@[1]@ == "localhost:"@ + decimal_chars(port as nat),
        r.1@.len() == 2,
        r.1@[0]@ == "http://127.0.0.1:"@ + decimal_chars(port as nat),
        r.1@[1]@ == "http://localhost:"@ + decimal_chars(port as nat),
{
    let digits = decimal_string(port as u64);
    let mut hosts: Vec<String> = Vec::new();
    let mut origins: Vec<String> = Vec::new();
    let mut a = chars_of("127.0.0.1:");
    append_chars(&mut a, &digits);
    hosts.push(string_of(&a));
    let mut b = chars_of("localhost:");
    append_chars(&mut b, &digits);
    hosts.push(string_of(&b));
    let mut c = chars_of("http://127.0.0.1:");
    append_chars(&mut c, &digits);
    origins.push(string_of(&c));
    let mut d = chars_of("http://localhost:");
    append_chars(&mut d, &digits);
    origins.push(string_of(&d));
    (hosts, origins)
}

/// Whether the token file is private: a regular file, no permission for
/// group or others, and no longer than 128 bytes.
pub fn token_file_private(is_file: bool, mode: u32, len: u64) -> (r: bool)
    ensures
        r == (is_file && mode & 0o77 == 0 && len <= 128),
{
    is_file && mode & 0o77 == 0 && len <= 128
}

/// The message for a token file that is not private.
pub fn token_file_error() -> (r: String)
    ensures
        r@ == "MCP token must be a private regular file (chmod 600)"@,
{
    "MCP token must be a private regular file (chmod 600)".to_string()
}

pub open spec fn is_hex_digit(c: char) -> bool {
    ('0' <= c <= '9') || ('a' <= c <= 'f') || ('A' <= c <= 'F')
}

/// A stored token, trimmed: 64 bytes, every one a hexadecimal digit.
pub open spec fn stored_token(text: Seq<char>) -> Result<Seq<char>, Seq<char>> {
    let t = trim(text);
    if byte_len(t) == 64 && forall|i: int| 0 <= i < t.len() ==> is_hex_digit(#[trigger] t[i]) {
        Ok(t)
    } else {
        Err("MCP token must contain 64 hexadecimal characters"@)
    }
}

/// The token a token file holds, trimmed; refused unless it is 64
/// hexadecimal characters.
pub fn checked_token(text: &str) -> (r: Result<String, String>)
    ensures
        match r {
            Ok(t) => stored_token(text@) == Ok::<Seq<char>, Seq<char>>(t@),
            Err(e) => stored_token(text@) == Err::<Seq<char>, Seq<char>>(e@),
        },
{
    let t = trim_ws(&chars_of(text));
    if byte_length(&t) != 64 {
        return Err("MCP token must contain 64 hexadecimal characters".to_string());
    }
    let mut i: usize = 0;
    while i < t.len()
        invariant
            i <= t@.len(),
            t@ == trim(text@),
            forall|k: int| 0 <= k < i ==> is_hex_digit(#[trigger] t@[k]),
        decreases t@.len() - i,
    {
        let c = t[i];
        if !(('0' <= c && c <= '9') || ('a' <= c && c <= 'f') || ('A' <= c && c <= 'F')) {
            assert(!is_hex_digit(t@[i as int]));
            return Err("MCP token must contain 64 hexadecimal characters".to_string());
        }
        i += 1;
    }
    Ok(string_of(&t))
}

/// The lowercase hexadecimal digit for a value below 16.
pub open spec fn hex_digit(v: u8) -> char {
    if v < 10 {
        ('0' as u8 + v) as char
    } else {
        ('a' as u8 + v - 10) as char
    }
}

/// Each byte as two lowercase hexadecimal digits.
pub open spec fn hex_of(bytes: Seq<u8>) -> Seq<char>
    decreases bytes.len(),
{
    if bytes.len() == 0 {
        Seq::empty()
    } else {
        hex_of(bytes.drop_last()) + seq![
            hex_digit(bytes.last() / 16),
            hex_digit(bytes.last() % 16),
        ]
    }
}

fn hex_char(v: u8) -> (c: char)
    requires
        v < 16,
    ensures
        c == hex_digit(v),
{
    if v < 10 {
        (48 + v) as char
    } else {
        (97 + v - 10) as char
    }
}

/// A fresh token from random bytes: their lowercase hexadecimal digits.
pub fn fresh_token(random: &[u8]) -> (r: String)
    ensures
        r@ == hex_of(random@),
{
    let mut out: Vec<char> = Vec::new();
    let mut i: usize = 0;
    while i < random.len()
        invariant
            i <= random@.len(),
            out@ == hex_of(random@.subrange(0, i as int)),
        decreases random@.len() - i,
    {
        let b = random[i];
        assert(random@.subrange(0, i + 1).drop_last() =~= random@.subrange(0, i as int));
        out.push(hex_char(b / 16));
        out.push(hex_char(b % 16));
        assert(out@ =~= hex_of(random@.subrange(0, i + 1)));
        i += 1;
    }
    assert(random@.subrange(0, random@.len() as int) =~= random@);
    string_of(&out)
}

/// A request the endpoint forwards to the app.
#[derive(Debug, PartialEq, Eq)]
pub enum Action {
    /// List the open workspaces.
    List,
    /// Fetch and fast-forward a workspace's upstream.
    Pull { workspace_id: String, expected_branch: String },
}

/// A tool call, with its arguments read: `list_workspaces` with whether it
/// came with no arguments; `pull_workspace` with its two fields, or the
/// reason its arguments could not be read; any other tool.
pub enum ToolCall {
    List { no_arguments: bool },
    Pull(Result<(String, String), String>),
    Other,
}

/// The request a tool call becomes, or the reason it is refused.
pub open spec fn action_of(call: ToolCall) -> Result<(Seq<char>, Seq<char>, bool), Seq<char>> {
    match call {
        ToolCall::List { no_arguments } => if no_arguments {
            Ok((Seq::empty(), Seq::empty(), false))
        } else {
            Err("Unknown tool or invalid arguments"@)
        },
        ToolCall::Pull(Ok((w, b))) => if w@.len() == 0 || b@.len() == 0 {
            Err("Workspace and branch must not be empty"@)
        } else {
            Ok((w@, b@, true))
        },
        ToolCall::Pull(Err(e)) => Err(e@),
        ToolCall::Other => Err("Unknown tool or invalid arguments"@),
    }
}

/// The request a tool call becomes: a listing for `list_workspaces` with
/// no arguments, a pull for `pull_workspace` with both fields non-empty;
/// anything else is refused with its reason.
pub fn tool_action(call: ToolCall) -> (r: Result<Action, String>)
    ensures
        match r {
            Ok(Action::List) => action_of(call) == Ok::<(Seq<char>, Seq<char>, bool), Seq<char>>(
                (Seq::empty(), Seq::empty(), false),
            ),
            Ok(Action::Pull { workspace_id, expected_branch }) => action_of(call) == Ok::<
                (Seq<char>, Seq<char>, bool),
                Seq<char>,
            >((workspace_id@, expected_branch@, true)),
            Err(e) => action_of(call) == Err::<(Seq<char>, Seq<char>, bool), Seq<char>>(e@),
        },
{
    match call {
        ToolCall::List { no_arguments } => {
            if no_arguments {
                Ok(Action::List)
            } else {
                Err("Unknown tool or invalid arguments".to_string())
            }
        },
        ToolCall::Pull(Ok((w, b))) => {
            if chars_of(w.as_str()).len() == 0 || chars_of(b.as_str()).len() == 0 {
                Err("Workspace and branch must not be empty".to_string())
            } else {
                Ok(Action::Pull { workspace_id: w, expected_branch: b })
            }
        },
        ToolCall::Pull(Err(e)) => Err(e),
        ToolCall::Other => Err("Unknown tool or invalid arguments".to_string()),
    }
}

/// Why a forwarded request got no answer.
#[derive(Clone, Copy, Debug, PartialEq, Eq)]
pub enum NoAnswer {
    /// The app's queue was full or closed when the request was sent.
    NotSent,
    /// The app went away before answering.
    Dropped,
    /// No answer came in time.
    TimedOut,
}

pub open spec fn no_answer_text(n: NoAnswer) -> Seq<char> {
    match n {
        NoAnswer::NotSent => "App unavailable or request queue full"@,
        NoAnswer::Dropped => "Workspace or app closed; operation outcome unknown"@,
        NoAnswer::TimedOut => "Timed out; operation may still finish. Check repository state before retrying."@,
    }
}

/// The error a caller sees when its request got no answer.
pub fn no_answer_message(n: NoAnswer) -> (r: String)
    ensures
        r@ == no_answer_text(n),
{
    match n {
        NoAnswer::NotSent => "App unavailable or request queue full".to_string(),
        NoAnswer::Dropped => "Workspace or app closed; operation outcome unknown".to_string(),
        NoAnswer::TimedOut => "Timed out; operation may still finish. Check repository state before retrying.".to_string(),
    }
}

} // verus!
