//! What a request may carry: wallet tokens, network names, memos and amounts.

use crate::address::Prefix;
use crate::text::{
    ascii_lower, chars_of, contains, contains_text, decimal_text, digit_char, digits_text,
    is_lowered, push_decimal, push_digits, same_lowered, text_of, trim, trimmed,
};
use vstd::prelude::*;
use vstd::string::*;

verus! {

/// Base units in one coin.
pub const SOMPI_PER_ZKAS: u64 = 100_000_000;

/// Longest wallet token.
pub const MAX_TOKEN_LEN: usize = 128;

/// The characters that a wallet token may hold: it becomes a file name.
pub open spec fn token_char(c: char) -> bool {
    ('a' <= c && c <= 'z') || ('A' <= c && c <= 'Z') || ('0' <= c && c <= '9') || c == '-' || c
        == '_'
}

/// The text is a wallet token.
pub open spec fn is_token(t: Seq<char>) -> bool {
    &&& 0 < t.len() <= MAX_TOKEN_LEN
    &&& forall|i: int| 0 <= i < t.len() ==> token_char(#[trigger] t[i])
}

/// The wallet token that a raw text holds between white space; `None` where that is empty,
/// too long or holds anything that a file name should not.
pub fn sanitize_token(raw: &str) -> (r: Option<String>)
    ensures
        r is Some <==> is_token(trimmed(raw@)),
        r matches Some(t) ==> t@ == trimmed(raw@),
{
    let t: Vec<char> = trim(raw);
    if t.len() == 0 || t.len() > MAX_TOKEN_LEN {
        return None;
    }
    let mut i: usize = 0;
    while i < t.len()
        invariant
            0 <= i <= t@.len(),
            t@ == trimmed(raw@),
            forall|j: int| 0 <= j < i ==> token_char(#[trigger] t@[j]),
        decreases t@.len() - i,
    {
        let c: char = t[i];
        if !(('a' <= c && c <= 'z') || ('A' <= c && c <= 'Z') || ('0' <= c && c <= '9') || c == '-'
            || c == '_') {
            assert(!token_char(t@[i as int]));
            return None;
        }
        i = i + 1;
    }
    Some(text_of(t.as_slice()))
}

/// Why a request names no wallet.
#[derive(Debug, Clone, Copy, PartialEq, Eq, Structural)]
pub enum TokenError {
    /// The token is no token.
    Invalid,
    /// There is no token, and the daemon has no default wallet.
    Missing,
}

impl TokenError {
    /// The HTTP status to answer with.
    pub fn status(&self) -> (code: u16)
        ensures
            code == (match *self {
                TokenError::Invalid => 400u16,
                TokenError::Missing => 401u16,
            }),
    {
        match self {
            TokenError::Invalid => 400,
            TokenError::Missing => 401,
        }
    }

    /// The message for people.
    pub fn message(&self) -> (s: &'static str)
        ensures
            s@ == (match *self {
                TokenError::Invalid => "invalid X-Wallet-Token"@,
                TokenError::Missing => "missing X-Wallet-Token"@,
            }),
    {
        match self {
            TokenError::Invalid => "invalid X-Wallet-Token",
            TokenError::Missing => "missing X-Wallet-Token",
        }
    }
}

/// The wallet that a request means, from its token header: without one it means the default
/// wallet where the daemon has one, and none else.
pub fn token_from(header: Option<&str>, allow_default: bool) -> (r: Result<String, TokenError>)
    ensures
        match header {
            Some(raw) => if is_token(trimmed(raw@)) {
                r matches Ok(t) && t@ == trimmed(raw@)
            } else {
                r == Err::<String, _>(TokenError::Invalid)
            },
            None => if allow_default {
                r matches Ok(t) && t@ == "default"@
            } else {
                r == Err::<String, _>(TokenError::Missing)
            },
        },
{
    match header {
        Some(raw) => match sanitize_token(raw) {
            Some(t) => Ok(t),
            None => Err(TokenError::Invalid),
        },
        None => if allow_default {
            Ok(String::from_str("default"))
        } else {
            Err(TokenError::Missing)
        },
    }
}

/// The network that a name means: names are told apart in small letters, and an unknown one
/// means the main network.
pub open spec fn named_network(name: Seq<char>) -> Prefix {
    if same_lowered(name, "testnet"@) {
        Prefix::Testnet
    } else if same_lowered(name, "devnet"@) {
        Prefix::Devnet
    } else if same_lowered(name, "simnet"@) {
        Prefix::Simnet
    } else {
        Prefix::Mainnet
    }
}

/// The address prefix of a named network.
pub fn prefix_from(network: &str) -> (p: Prefix)
    ensures
        p == named_network(network@),
{
    if is_lowered(network, "testnet") {
        Prefix::Testnet
    } else if is_lowered(network, "devnet") {
        Prefix::Devnet
    } else if is_lowered(network, "simnet") {
        Prefix::Simnet
    } else {
        Prefix::Mainnet
    }
}

/// The network that a name means exactly, where it names one.
pub open spec fn known_network(name: Seq<char>) -> Option<Prefix> {
    if same_lowered(name, "mainnet"@) {
        Some(Prefix::Mainnet)
    } else if same_lowered(name, "testnet"@) || same_lowered(name, "devnet"@) || same_lowered(
        name,
        "simnet"@,
    ) {
        Some(named_network(name))
    } else {
        None
    }
}

/// The address prefix of a named network; `None` where there is no such network.
pub fn known_prefix(network: &str) -> (p: Option<Prefix>)
    ensures
        p == known_network(network@),
{
    if is_lowered(network, "mainnet") {
        Some(Prefix::Mainnet)
    } else if is_lowered(network, "testnet") || is_lowered(network, "devnet") || is_lowered(
        network,
        "simnet",
    ) {
        Some(prefix_from(network))
    } else {
        None
    }
}

/// A node's error says that the block at a wallet's cursor is gone for good.
pub open spec fn says_gone(err: Seq<char>) -> bool {
    ||| contains_text(err, "cannot find full block"@)
    ||| contains_text(err, "cannot find header"@)
    ||| contains_text(err, "required chain data is missing"@)
    ||| contains_text(err, "does not have retention root"@)
}

/// Whether a node's error is positive evidence that the block at a wallet's cursor is gone.
/// A time-out or an overloaded node is none: giving a checkpoint up costs a whole scan.
pub fn cursor_gone(err: &str) -> (r: bool)
    ensures
        r == says_gone(err@),
{
    contains(err, "cannot find full block") || contains(err, "cannot find header") || contains(
        err,
        "required chain data is missing",
    ) || contains(err, "does not have retention root")
}

/// An amount in coins, with eight decimals.
pub open spec fn coin_text(sompi: nat) -> Seq<char> {
    crate::text::decimal_text(sompi / (SOMPI_PER_ZKAS as nat)) + "."@ + digits_text(
        sompi % (SOMPI_PER_ZKAS as nat),
        8,
    )
}

/// Writes an amount in coins, with eight decimals.
pub fn fmt_fc(sompi: u128) -> (s: String)
    ensures
        s@ == coin_text(sompi as nat),
{
    let mut s: String = String::new();
    push_decimal(&mut s, sompi / (SOMPI_PER_ZKAS as u128));
    s.append(".");
    push_digits(&mut s, sompi % (SOMPI_PER_ZKAS as u128), 8);
    assert(s@ =~= coin_text(sompi as nat));
    s
}

/// The file of a wallet.
pub fn wallet_path(dir: &str, token: &str) -> (p: String)
    ensures
        p@ == dir@ + "/"@ + token@ + ".json"@,
{
    let mut p: String = String::from_str(dir);
    p.append("/");
    p.append(token);
    p.append(".json");
    p
}

/// The file of a wallet's scan checkpoint.
pub fn scan_path(dir: &str, token: &str) -> (p: String)
    ensures
        p@ == dir@ + "/"@ + token@ + ".scan"@,
{
    let mut p: String = String::from_str(dir);
    p.append("/");
    p.append(token);
    p.append(".scan");
    p
}

/// The value of a decimal digit.
pub open spec fn digit_value(c: char) -> Option<int> {
    if '0' <= c && c <= '9' {
        Some((c as u8) as int - 48)
    } else {
        None
    }
}

/// The number that digits spell, if they are all digits.
pub open spec fn digits_value(s: Seq<char>) -> Option<nat>
    decreases s.len(),
{
    if s.len() == 0 {
        Some(0nat)
    } else {
        match (digits_value(s.drop_last()), digit_value(s.last())) {
            (Some(n), Some(d)) => Some((n * 10 + d) as nat),
            _ => None,
        }
    }
}

/// The number that a text spells: digits, after a plus sign or without, that fit in 64 bits.
pub open spec fn u64_value(s: Seq<char>) -> Option<nat> {
    let digits = if s.len() > 0 && s[0] == '+' {
        s.skip(1)
    } else {
        s
    };
    if digits.len() == 0 {
        None
    } else {
        match digits_value(digits) {
            Some(n) => if n <= u64::MAX {
                Some(n)
            } else {
                None
            },
            None => None,
        }
    }
}

proof fn lemma_digits_prefix(s: Seq<char>, k: int)
    requires
        0 <= k <= s.len(),
        digits_value(s) is Some,
    ensures
        digits_value(s.take(k)) matches Some(n) && n <= digits_value(s)->Some_0,
    decreases s.len(),
{
    if k < s.len() {
        lemma_digits_prefix(s.drop_last(), k);
        assert(s.drop_last().take(k) =~= s.take(k));
    } else {
        assert(s.take(k) =~= s);
    }
}

/// Reads a 64-bit number in decimal notation, exactly.
pub fn parse_u64(s: &str) -> (r: Option<u64>)
    ensures
        match r {
            Some(n) => u64_value(s@) == Some(n as nat),
            None => u64_value(s@) is None,
        },
{
    let all: Vec<char> = chars_of(s);
    let start: usize = if all.len() > 0 && all[0] == '+' {
        1
    } else {
        0
    };
    let ghost digits = if start == 1 {
        s@.skip(1)
    } else {
        s@
    };
    if start == all.len() {
        return None;
    }
    let mut n: u64 = 0;
    let mut i: usize = start;
    assert(digits.take(0) =~= Seq::<char>::empty());
    while i < all.len()
        invariant
            start <= i <= all@.len(),
            start <= 1,
            all@ == s@,
            digits == (if start == 1 {
                s@.skip(1)
            } else {
                s@
            }),
            digits.len() == all@.len() - start,
            digits.len() > 0,
            digits == (if s@.len() > 0 && s@[0] == '+' {
                s@.skip(1)
            } else {
                s@
            }),
            digits_value(digits.take(i - start)) == Some(n as nat),
        decreases all@.len() - i,
    {
        let c: char = all[i];
        proof {
            assert(digits[i - start] == c);
            assert(digits.take(i - start + 1).drop_last() =~= digits.take(i - start));
            assert(digits.take(i - start + 1).last() == c);
        }
        if !('0' <= c && c <= '9') {
            proof {
                if digits_value(digits) is Some {
                    lemma_digits_prefix(digits, i - start + 1);
                }
            }
            return None;
        }
        let d: u64 = (c as u8 - 48) as u64;
        if n > (u64::MAX - d) / 10 {
            proof {
                assert(n * 10 + d > u64::MAX) by (nonlinear_arith)
                    requires
                        n > (u64::MAX - d) / 10,
                        0 <= d <= 9,
                ;
                if digits_value(digits) is Some {
                    lemma_digits_prefix(digits, i - start + 1);
                }
            }
            return None;
        }
        assert(n * 10 + d <= u64::MAX) by (nonlinear_arith)
            requires
                n <= (u64::MAX - d) / 10,
                0 <= d <= 9,
        ;
        n = n * 10 + d;
        i = i + 1;
    }
    assert(digits.take(i - start) =~= digits);
    Some(n)
}

/// A number in a request: as a number, or in decimal notation for clients whose numbers
/// cannot hold it.
#[derive(Debug, Clone, PartialEq, Eq)]
pub enum JsonU64 {
    Number(u64),
    Decimal(String),
}

impl JsonU64 {
    /// The number; `None` where the text spells none of 64 bits.
    pub fn parse(&self) -> (r: Option<u64>)
        ensures
            match *self {
                JsonU64::Number(n) => r == Some(n),
                JsonU64::Decimal(s) => match r {
                    Some(n) => u64_value(s@) == Some(n as nat),
                    None => u64_value(s@) is None,
                },
            },
    {
        match self {
            JsonU64::Number(n) => Some(*n),
            JsonU64::Decimal(s) => parse_u64(s.as_str()),
        }
    }
}

/// The message for a field that is no such number.
pub fn not_a_u64(field: &str) -> (s: String)
    ensures
        s@ == field@ + " must be an unsigned 64-bit decimal integer"@,
{
    let mut s: String = String::from_str(field);
    s.append(" must be an unsigned 64-bit decimal integer");
    s
}

/// Which rows of a history a request asks for: how many, between 1 and 5000, and from where.
pub fn history_window(limit: Option<usize>, offset: Option<usize>) -> (r: (usize, usize))
    ensures
        r.0 == (match limit {
            None => 500,
            Some(n) => if n < 1 {
                1
            } else if n > 5000 {
                5000
            } else {
                n as int
            },
        }),
        r.1 == (match offset {
            None => 0,
            Some(n) => n as int,
        }),
{
    let rows: usize = match limit {
        None => 500,
        Some(n) => if n < 1 {
            1
        } else if n > 5000 {
            5000
        } else {
            n
        },
    };
    let from: usize = match offset {
        None => 0,
        Some(n) => n,
    };
    (rows, from)
}

/// The text that pairs a phone with a daemon.
pub open spec fn pairing_text(
    insecure: bool,
    host: Option<&str>,
    port: u16,
    token: Seq<char>,
    network: Seq<char>,
    fingerprint: Option<&str>,
) -> Seq<char> {
    (if insecure {
        "zkas+http"@
    } else {
        "zkas+https"@
    }) + "://"@ + (match host {
        Some(h) => h@,
        None => "<YOUR-PUBLIC-IP>"@,
    }) + ":"@ + crate::text::decimal_text(port as nat) + "#token="@ + token + "&net="@ + network
        + (match fingerprint {
        Some(f) => "&fp="@ + f@,
        None => Seq::empty(),
    })
}

/// The one text that a phone needs to connect: where to, and the token and fingerprint to
/// pin. These stand behind the hash sign, so that they are in no request line.
pub fn pairing_uri(
    insecure: bool,
    host: Option<&str>,
    port: u16,
    token: &str,
    network: &str,
    fingerprint: Option<&str>,
) -> (s: String)
    ensures
        s@ == pairing_text(insecure, host, port, token@, network@, fingerprint),
{
    let mut s: String = if insecure {
        String::from_str("zkas+http")
    } else {
        String::from_str("zkas+https")
    };
    s.append("://");
    match host {
        Some(h) => s.append(h),
        None => s.append("<YOUR-PUBLIC-IP>"),
    }
    s.append(":");
    push_decimal(&mut s, port as u128);
    s.append("#token=");
    s.append(token);
    s.append("&net=");
    s.append(network);
    match fingerprint {
        Some(f) => {
            s.append("&fp=");
            s.append(f);
        },
        None => {},
    }
    assert(s@ =~= pairing_text(insecure, host, port, token@, network@, fingerprint));
    s
}

/// Ten to a power.
pub open spec fn pow10(k: nat) -> nat
    decreases k,
{
    if k == 0 {
        1
    } else {
        10 * pow10((k - 1) as nat)
    }
}

proof fn lemma_digit(d: int)
    requires
        0 <= d < 10,
    ensures
        digit_value(digit_char(d)) == Some(d),
        digit_char(d) != '+',
        digit_char(d) == '0' <==> d == 0,
{
}

/// A number reads back from its decimal notation, which has no sign and no needless zero in
/// front.
pub proof fn decimal_notation_reads_back(n: nat)
    ensures
        digits_value(decimal_text(n)) == Some(n),
        decimal_text(n).len() > 0,
        decimal_text(n)[0] != '+',
        n >= 1 ==> decimal_text(n)[0] != '0',
        n <= u64::MAX ==> u64_value(decimal_text(n)) == Some(n),
    decreases n,
{
    let s = decimal_text(n);
    if n < 10 {
        lemma_digit(n as int);
        assert(s.drop_last() =~= Seq::<char>::empty());
        assert(digits_value(s.drop_last()) == Some(0nat));
    } else {
        let front = decimal_text(n / 10);
        decimal_notation_reads_back(n / 10);
        lemma_digit((n % 10) as int);
        assert(s.drop_last() =~= front);
        assert(n / 10 * 10 + n % 10 == n);
        assert(s[0] == front[0]);
    }
}

/// Digits of a fixed width are that many, and read as the number modulo the power of ten.
pub proof fn fixed_digits_read_back(n: nat, width: nat)
    ensures
        digits_text(n, width).len() == width,
        digits_value(digits_text(n, width)) == Some(n % pow10(width)),
    decreases width,
{
    let s = digits_text(n, width);
    if width == 0 {
        assert(n % 1 == 0);
    } else {
        let k = (width - 1) as nat;
        fixed_digits_read_back(n / 10, k);
        lemma_digit((n % 10) as int);
        assert(s.drop_last() =~= digits_text(n / 10, k));
        lemma_pow10_positive(k);
        let p = pow10(k) as int;
        assert((n as int / 10) % p * 10 + n as int % 10 == n as int % (10 * p)) by {
            vstd::arithmetic::div_mod::lemma_breakdown(n as int, 10, p);
        }
    }
}

proof fn lemma_pow10_positive(k: nat)
    ensures
        pow10(k) > 0,
    decreases k,
{
    if k > 0 {
        lemma_pow10_positive((k - 1) as nat);
    }
}

/// An amount in coins says the amount: whole coins before the point, and behind it eight
/// digits for the rest.
pub proof fn coin_amounts_read_back(sompi: nat)
    ensures
        exists|whole: Seq<char>, rest: Seq<char>|
            coin_text(sompi) == #[trigger] (whole + "."@ + rest) && rest.len() == 8 && (digits_value(
                whole,
            ) matches Some(a) && digits_value(rest) matches Some(b) && a * 100_000_000 + b == sompi),
{
    let whole = decimal_text(sompi / 100_000_000);
    let rest = digits_text(sompi % 100_000_000, 8);
    decimal_notation_reads_back(sompi / 100_000_000);
    fixed_digits_read_back(sompi % 100_000_000, 8);
    assert(pow10(8) == 100_000_000) by {
        reveal_with_fuel(pow10, 9);
    }
    assert(coin_text(sompi) == whole + "."@ + rest);
    assert((sompi % 100_000_000) % 100_000_000 == sompi % 100_000_000);
    assert(sompi / 100_000_000 * 100_000_000 + sompi % 100_000_000 == sompi);
}

/// A name that is known as a network's means that network.
pub proof fn known_names_mean_their_network(name: Seq<char>)
    ensures
        known_network(name) matches Some(p) ==> named_network(name) == p,
{
    reveal_strlit("mainnet");
    reveal_strlit("testnet");
    reveal_strlit("devnet");
    reveal_strlit("simnet");
    let lowered = Seq::new(name.len(), |i: int| ascii_lower(name[i]));
    if same_lowered(name, "mainnet"@) {
        assert(lowered[0] == 'm');
        assert("testnet"@[0] == 't' && "devnet"@[0] == 'd' && "simnet"@[0] == 's');
    }
}

/// A token is safe as a file's name: it is neither empty nor long, and no character of it
/// separates or leaves directories. Letters, digits, hyphens and underscores are all taken.
pub proof fn tokens_are_file_names(t: Seq<char>, i: int)
    requires
        0 <= i < t.len(),
    ensures
        is_token(t) ==> t.len() <= 128 && t[i] != '/' && t[i] != '\\' && t[i] != '.' && t[i] != ' ',
        is_token(t) <==> t.len() <= 128 && forall|j: int|
            0 <= j < t.len() ==> {
                let c = #[trigger] t[j];
                ||| 'a' <= c <= 'z'
                ||| 'A' <= c <= 'Z'
                ||| '0' <= c <= '9'
                ||| c == '-'
                ||| c == '_'
            },
        !is_token(Seq::empty()),
{
    if is_token(t) {
        assert(token_char(t[i]));
    }
    if t.len() <= 128 && forall|j: int|
        0 <= j < t.len() ==> {
            let c = #[trigger] t[j];
            ||| 'a' <= c <= 'z'
            ||| 'A' <= c <= 'Z'
            ||| '0' <= c <= '9'
            ||| c == '-'
            ||| c == '_'
        } {
        assert forall|j: int| 0 <= j < t.len() implies token_char(#[trigger] t[j]) by {
            let c = t[j];
            assert('a' <= c <= 'z' || 'A' <= c <= 'Z' || '0' <= c <= '9' || c == '-' || c == '_');
        }
    }
}

} // verus!
