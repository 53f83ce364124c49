//! The server's identifiers, cookies and version check, and the text it puts in responses.
use vstd::prelude::*;
use rand::RngCore;
use crate::net::version::{get_version, has_too_many_hyphens, parse_version, semver_parse, semver_result_ge, too_many_hyphens, versions_at_least, VERSION};
use crate::time::{gap_nanos, instant_now};

verus! {

/// The url-safe base64 digit of the six-bit value `v`.
pub open spec fn base64_url_digit(v: int) -> char {
    if v < 26 {
        (('A' as int) + v) as char
    } else if v < 52 {
        (('a' as int) + v - 26) as char
    } else if v < 62 {
        (('0' as int) + v - 52) as char
    } else if v == 62 {
        '-'
    } else {
        '_'
    }
}

/// Url-safe base64 without padding of `bytes`, whose length is a multiple of three: every
/// three bytes become four digits, most significant bits first.
pub open spec fn base64_url(bytes: Seq<u8>) -> Seq<char>
    decreases bytes.len(),
{
    if bytes.len() < 3 {
        Seq::empty()
    } else {
        let n = bytes[0] as int * 65536 + bytes[1] as int * 256 + bytes[2] as int;
        seq![
            base64_url_digit(n / 262144),
            base64_url_digit((n / 4096) % 64),
            base64_url_digit((n / 64) % 64),
            base64_url_digit(n % 64),
        ] + base64_url(bytes.skip(3))
    }
}

/// Calls `rand::RngCore::fill_bytes` of `rand::thread_rng()` on twelve bytes. Claimed: twelve
/// bytes come back; their values are random.
#[verifier::external_body]
fn random_twelve_bytes() -> (b: Vec<u8>)
    ensures
        b@.len() == 12,
{
    let mut buf = [0u8; 12];
    rand::thread_rng().fill_bytes(&mut buf);
    buf.to_vec()
}

/// Calls `base64::encode_config` with `base64::URL_SAFE_NO_PAD` (url-safe alphabet, no
/// padding). Claimed for inputs whose length is a multiple of three: the text is `base64_url`
/// of the bytes.
#[verifier::external_body]
fn encode_base64_url(bytes: &Vec<u8>) -> (s: String)
    requires
        bytes@.len() % 3 == 0,
    ensures
        s@ == base64_url(bytes@),
{
    base64::encode_config(bytes, base64::URL_SAFE_NO_PAD)
}

/// A fresh login cookie: twelve random bytes in url-safe base64 (sixteen digits).
pub fn new_cookie() -> (c: String)
    ensures
        exists|b: Seq<u8>| b.len() == 12 && c@ == base64_url(b),
{
    let b = random_twelve_bytes();
    let c = encode_base64_url(&b);
    proof {
        assert(b@.len() == 12 && c@ == base64_url(b@));
    }
    c
}

/// Calls `rand::RngCore::next_u32` of `rand::thread_rng()`. Nothing is claimed: it is random.
#[verifier::external_body]
fn random_u32() -> (n: u32) {
    rand::thread_rng().next_u32()
}

/// An entity identifier from a timestamp and a salt: the timestamp's low 32 bits, then the
/// salt.
pub open spec fn uuid_of(timestamp: u64, salt: u32) -> u64 {
    ((timestamp as int % 0x1_0000_0000) * 0x1_0000_0000 + salt as int) as u64
}

/// The identifier made of the low 32 bits of `timestamp` followed by `salt`.
pub fn uuid_from(timestamp: u64, salt: u32) -> (id: u64)
    ensures
        id == uuid_of(timestamp, salt),
{
    let t: u64 = timestamp & 0xFFFF_FFFF;
    let s: u64 = salt as u64;
    assert(t == timestamp % 0x1_0000_0000 && t <= 0xFFFF_FFFF) by (bit_vector)
        requires t == timestamp & 0xFFFF_FFFF;
    let id = t * 0x1_0000_0000 + s;
    id
}

/// A fresh entity identifier: the seconds of a moment just taken (in the high 32 bits) and a
/// random salt (in the low 32 bits).
pub fn new_uuid() -> (id: u64)
    ensures
        exists|t: u64, s: u32| id == uuid_of(t, s),
{
    // The whole seconds elapsed since a moment just taken.
    let taken = instant_now();
    let later = instant_now();
    let ns = gap_nanos(&later, &taken);
    let t = (ns / 1_000_000_000) as u64;
    let s = random_u32();
    let id = uuid_from(t, s);
    proof {
        assert(id == uuid_of(t, s));
    }
    id
}

/// Whether a client of version text `v` may connect: the text is one that can be parsed
/// without running into semver's limit on hyphen-joined identifiers, and the client is not newer
/// than the server (both compared as `Result`s of `semver::Version::parse`).
pub open spec fn client_version_accepted(v: Seq<char>) -> bool {
    &&& !too_many_hyphens(v)
    &&& semver_result_ge(semver_parse(VERSION@), semver_parse(v))
}

/// Whether a client of version `client_version` may connect (see `client_version_accepted`).
/// A version text on which semver's parser could run past its limit of hyphen-joined
/// identifiers (and panic) is refused.
pub fn validate_client_version(client_version: String) -> (r: bool)
    ensures
        r == client_version_accepted(client_version@),
{
    if has_too_many_hyphens(client_version.as_str()) {
        return false;
    }
    let server = get_version();
    let client = parse_version(client_version.as_str());
    versions_at_least(&server, &client)
}

/// The decimal digits of `n`.
pub open spec fn decimal(n: nat) -> Seq<char>
    decreases n,
{
    if n < 10 {
        seq![(('0' as int) + n) as char]
    } else {
        decimal(n / 10).push((('0' as int) + n % 10) as char)
    }
}

/// The text of the digit `d`.
fn digit_text(d: u64) -> (r: &'static str)
    requires
        d < 10,
    ensures
        r@ == seq![(('0' as int) + d) as char],
{
    match d {
        0 => {
            proof {
                reveal_strlit("0");
            }
            "0"
        },
        1 => {
            proof {
                reveal_strlit("1");
            }
            "1"
        },
        2 => {
            proof {
                reveal_strlit("2");
            }
            "2"
        },
        3 => {
            proof {
                reveal_strlit("3");
            }
            "3"
        },
        4 => {
            proof {
                reveal_strlit("4");
            }
            "4"
        },
        5 => {
            proof {
                reveal_strlit("5");
            }
            "5"
        },
        6 => {
            proof {
                reveal_strlit("6");
            }
            "6"
        },
        7 => {
            proof {
                reveal_strlit("7");
            }
            "7"
        },
        8 => {
            proof {
                reveal_strlit("8");
            }
            "8"
        },
        _ => {
            proof {
                reveal_strlit("9");
            }
            "9"
        },
    }
}

/// The decimal digits of `n`, as text (as `n.to_string()` writes them).
pub(crate) fn decimal_string(n: u64) -> (s: String)
    ensures
        s@ == decimal(n as nat),
    decreases n,
{
    let digit = digit_text(n % 10);
    if n < 10 {
        String::from_str(digit)
    } else {
        let s = decimal_string(n / 10).concat(digit);
        proof {
            assert(s@ =~= decimal((n / 10) as nat).push((('0' as int) + n % 10) as char));
        }
        s
    }
}

/// A name for how `std::fmt::Debug` writes a `str`: in double quotes, with quotes, backslashes
/// and control characters escaped.
pub uninterp spec fn debug_text(s: Seq<char>) -> Seq<char>;

/// Calls `std::fmt::Debug` of `str` through `format!("{:?}", s)`; the result is named by
/// `debug_text`.
#[verifier::external_body]
pub(crate) fn debug_quoted(s: &str) -> (r: String)
    ensures
        r@ == debug_text(s@),
{
    format!("{:?}", s)
}

} // verus!
