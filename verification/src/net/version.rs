//! The protocol version, and how two versions compare.
use vstd::prelude::*;
use semver::{SemVerError, Version};
use vstd::string::StringSliceAdditionalSpecFns;

verus! {

/// This library's version.
pub const VERSION: &'static str = "0.1.0";

#[verifier::external_type_specification]
#[verifier::external_body]
pub struct ExVersion(semver::Version);

#[verifier::external_type_specification]
#[verifier::external_body]
pub struct ExSemVerError(semver::SemVerError);

/// A name for `semver::Version::parse`: the parsed version of a text, or why it is none.
pub uninterp spec fn semver_parse(s: Seq<char>) -> Result<semver::Version, semver::SemVerError>;

/// Most hyphen-joined identifiers after the first that semver can parse in one chain:
/// `semver::Version::parse` (through semver-parser's `bounded_identifier`) panics on a longer
/// chain.
pub const MAX_VERSION_HYPHENS: usize = 255;

/// Whether the byte `b` can stand in a chain of hyphen-joined identifiers: an ASCII letter or
/// digit, or a hyphen.
pub open spec fn chain_byte(b: u8) -> bool {
    b == 45u8 || (48u8 <= b <= 57u8) || (65u8 <= b <= 90u8) || (97u8 <= b <= 122u8)
}

/// The number of hyphens (`b'-'`) in the run of chain bytes that ends `bytes`.
pub open spec fn run_hyphens(bytes: Seq<u8>) -> nat
    decreases bytes.len(),
{
    if bytes.len() == 0 || !chain_byte(bytes.last()) {
        0
    } else {
        run_hyphens(bytes.drop_last()) + if bytes.last() == 45u8 { 1nat } else { 0nat }
    }
}

/// Whether some run of letters, digits and hyphens in the UTF-8 encoding of the text `s` holds
/// more than `MAX_VERSION_HYPHENS` hyphens. Every chain of hyphen-joined identifiers that semver
/// reads lies inside one such run, so only such a text can make parsing panic.
pub open spec fn too_many_hyphens(s: Seq<char>) -> bool {
    let bytes = vstd::utf8::encode_utf8(s);
    exists|i: int| 0 <= i <= bytes.len() && #[trigger] run_hyphens(bytes.take(i)) > MAX_VERSION_HYPHENS
}

proof fn lemma_no_hyphen_bytes(bytes: Seq<u8>)
    requires
        forall|i: int| 0 <= i < bytes.len() ==> #[trigger] bytes[i] != 45u8,
    ensures
        run_hyphens(bytes) == 0,
    decreases bytes.len(),
{
    if bytes.len() > 0 {
        assert(bytes.last() == bytes[bytes.len() - 1]);
        lemma_no_hyphen_bytes(bytes.drop_last());
    }
}

/// Whether parsing `s` as a version is unsafe (see `too_many_hyphens`).
pub fn has_too_many_hyphens(s: &str) -> (r: bool)
    ensures
        r == too_many_hyphens(s@),
{
    let bytes = s.as_bytes();
    let ghost b = bytes@;
    let mut run: usize = 0;
    let mut found = false;
    let mut i: usize = 0;
    proof {
        assert(b.take(0).len() == 0);
    }
    while i < bytes.len()
        invariant
            i <= b.len(),
            b == bytes@,
            b == vstd::utf8::encode_utf8(s@),
            run as nat == run_hyphens(b.take(i as int)),
            run <= i,
            found == exists|j: int| 0 <= j <= i && #[trigger] run_hyphens(b.take(j)) > MAX_VERSION_HYPHENS,
        decreases b.len() - i,
    {
        let c = bytes[i];
        proof {
            assert(b.take(i + 1).drop_last() =~= b.take(i as int));
            assert(b.take(i + 1).last() == c);
        }
        let chain = c == 45u8 || (48u8 <= c && c <= 57u8) || (65u8 <= c && c <= 90u8) || (97u8 <= c && c <= 122u8);
        if !chain {
            run = 0;
        } else if c == 45u8 {
            run = run + 1;
        }
        if run > MAX_VERSION_HYPHENS {
            found = true;
        }
        proof {
            let k = (i + 1) as int;
            assert(run as nat == run_hyphens(b.take(k)));
            if found && run > MAX_VERSION_HYPHENS {
                assert(run_hyphens(b.take(k)) > MAX_VERSION_HYPHENS);
            }
        }
        i = i + 1;
    }
    found
}

/// Calls `semver::Version::parse`; the result is named by `semver_parse`. The call is made only
/// on texts of which no run of letters, digits and hyphens holds more than
/// `MAX_VERSION_HYPHENS` hyphens: semver-parser's `bounded_identifier` panics once it has read
/// more than 255 hyphens in one chain, and a chain is a run of identifier tokens (letters and
/// digits) each joined to the next by a hyphen token.
#[verifier::external_body]
pub(crate) fn parse_version(s: &str) -> (r: Result<Version, SemVerError>)
    requires
        !too_many_hyphens(s@),
    ensures
        r == semver_parse(s@),
{
    Version::parse(s)
}

/// A name for `>=` on two `Result<semver::Version, semver::SemVerError>` (semver's version
/// precedence between two versions; a version is below any error).
pub uninterp spec fn semver_result_ge(a: Result<semver::Version, semver::SemVerError>, b: Result<semver::Version, semver::SemVerError>) -> bool;

/// Calls `>=` on the two results; the result is named by `semver_result_ge`.
#[verifier::external_body]
pub(crate) fn versions_at_least(a: &Result<Version, SemVerError>, b: &Result<Version, SemVerError>) -> (r: bool)
    ensures
        r == semver_result_ge(*a, *b),
{
    *a >= *b
}

/// This library's version holds no hyphen.
proof fn lemma_version_is_plain()
    ensures
        !too_many_hyphens(VERSION@),
{
    reveal_strlit("0.1.0");
    assert(vstd::string::is_ascii(VERSION));
    vstd::string::is_ascii_spec_bytes(VERSION);
    let bytes = vstd::utf8::encode_utf8(VERSION@);
    assert(bytes == VERSION.spec_bytes());
    assert forall|i: int| 0 <= i < bytes.len() implies #[trigger] bytes[i] != 45u8 by {
        assert(bytes[i] == VERSION@[i] as u8);
    }
    assert forall|i: int| 0 <= i <= bytes.len() implies #[trigger] run_hyphens(bytes.take(i)) == 0 by {
        assert forall|j: int| 0 <= j < bytes.take(i).len() implies #[trigger] bytes.take(i)[j] != 45u8 by {
            assert(bytes.take(i)[j] == bytes[j]);
        }
        lemma_no_hyphen_bytes(bytes.take(i));
    }
}

/// This library's version, parsed.
pub fn get_version() -> (r: Result<Version, SemVerError>)
    ensures
        r == semver_parse(VERSION@),
{
    proof {
        lemma_version_is_plain();
    }
    parse_version(VERSION)
}

} // verus!
