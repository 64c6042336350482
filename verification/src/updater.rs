use vstd::prelude::*;
use sha2::Digest;
use crate::text::{chars_eq, chars_eq_str, chars_of};

verus! {

/// What an update check found.
#[derive(Debug)]
pub enum UpdateStatus {
    UpToDate,
    UpdateAvailable { version: String, notes: String },
    PlatformNotSupported,
}

/// Why an update could not be checked or installed.
#[derive(Debug, Clone, Copy, PartialEq, Eq, Structural)]
pub enum UpdateError {
    /// The server's version string is not a semantic version.
    InvalidLatestVersion,
    /// The running program's version string is not a semantic version.
    InvalidCurrentVersion,
    /// The download does not have the announced checksum.
    ChecksumMismatch,
}

/// Whether `semver::Version::parse` accepts a text.
pub uninterp spec fn semver_parses(s: Seq<char>) -> bool;

/// Whether version `a` is ordered at or before version `b` by `semver::Version`'s ordering.
pub uninterp spec fn semver_le(a: Seq<char>, b: Seq<char>) -> bool;

/// `semver::Version::parse`: whether a text is a semantic version. The contract names the
/// answer ([`semver_parses`]); the grammar itself is not stated.
#[verifier::external_body]
fn version_parses(s: &str) -> (r: bool)
    ensures
        r == semver_parses(s@),
{
    semver::Version::parse(s).is_ok()
}

/// `semver::Version`'s `<=` on two parsed versions. The contract names the answer
/// ([`semver_le`]) and states that a version is at or before itself (the same text parses to
/// the same version, and the derived order is reflexive); the precedence rules themselves are
/// not stated.
#[verifier::external_body]
fn version_le(a: &str, b: &str) -> (r: bool)
    requires
        semver_parses(a@),
        semver_parses(b@),
    ensures
        r == semver_le(a@, b@),
        a@ == b@ ==> r,
{
    match (semver::Version::parse(a), semver::Version::parse(b)) {
        (Ok(x), Ok(y)) => x <= y,
        _ => false,
    }
}

/// The update status for a release manifest: up to date when the released version is not
/// newer than the running one; otherwise not supported when the manifest has no build for this
/// platform, and available (with the release's version and notes) when it has one.
pub open spec fn spec_update_status(
    version: Seq<char>,
    notes: Seq<char>,
    platforms: Seq<Seq<char>>,
    current: Seq<char>,
    platform: Seq<char>,
) -> Result<(u8, Seq<char>, Seq<char>), UpdateError> {
    if !semver_parses(version) {
        Err(UpdateError::InvalidLatestVersion)
    } else if !semver_parses(current) {
        Err(UpdateError::InvalidCurrentVersion)
    } else if semver_le(version, current) {
        Ok((0, seq![], seq![]))
    } else if !platforms.contains(platform) {
        Ok((2, seq![], seq![]))
    } else {
        Ok((1, version, notes))
    }
}

/// An update status as a tag (0 up to date, 1 available, 2 not supported) with the release's
/// version and notes when available.
pub open spec fn status_view(s: UpdateStatus) -> (u8, Seq<char>, Seq<char>) {
    match s {
        UpdateStatus::UpToDate => (0, seq![], seq![]),
        UpdateStatus::UpdateAvailable { version, notes } => (1, version@, notes@),
        UpdateStatus::PlatformNotSupported => (2, seq![], seq![]),
    }
}

/// Decides what a fetched release manifest means for the running program
/// (see [`spec_update_status`]); the running version itself is never offered as an update.
pub fn update_status(
    version: String,
    notes: String,
    platforms: &Vec<String>,
    current: &str,
    platform: &str,
) -> (r: Result<UpdateStatus, UpdateError>)
    ensures
        match spec_update_status(version@, notes@, platforms@.map_values(|p: String| p@), current@, platform@) {
            Ok(s) => r matches Ok(x) && status_view(x) == s,
            Err(e) => r matches Err(x) && x == e,
        },
        version@ == current@ && semver_parses(current@) ==> r matches Ok(UpdateStatus::UpToDate),
{
    if !version_parses(version.as_str()) {
        return Err(UpdateError::InvalidLatestVersion);
    }
    if !version_parses(current) {
        return Err(UpdateError::InvalidCurrentVersion);
    }
    if version_le(version.as_str(), current) {
        return Ok(UpdateStatus::UpToDate);
    }
    let ghost pv = platforms@.map_values(|p: String| p@);
    let mut i: usize = 0;
    while i < platforms.len()
        invariant
            pv == platforms@.map_values(|p: String| p@),
            semver_parses(version@),
            semver_parses(current@),
            !semver_le(version@, current@),
            version@ != current@,
            i <= platforms@.len(),
            forall|j: int| 0 <= j < i ==> pv[j] != platform@,
        decreases platforms@.len() - i,
    {
        let c = chars_of(platforms[i].as_str());
        if chars_eq_str(c.as_slice(), platform) {
            assert(pv[i as int] == platform@);
            return Ok(UpdateStatus::UpdateAvailable { version, notes });
        }
        i += 1;
    }
    Ok(UpdateStatus::PlatformNotSupported)
}

/// The key of this platform's build in a release manifest.
pub open spec fn spec_platform_key(os: Seq<char>, arch: Seq<char>) -> Seq<char> {
    if os == "windows"@ && arch == "x86_64"@ {
        "windows-x86_64"@
    } else if os == "macos"@ {
        "macos"@
    } else if os == "linux"@ && arch == "x86_64"@ {
        "linux-x86_64"@
    } else {
        "unknown"@
    }
}

/// The key of a platform's build in a release manifest (see [`spec_platform_key`]).
pub fn platform_key(os: &str, arch: &str) -> (r: &'static str)
    ensures
        r@ == spec_platform_key(os@, arch@),
{
    let o = chars_of(os);
    let a = chars_of(arch);
    if chars_eq_str(o.as_slice(), "windows") && chars_eq_str(a.as_slice(), "x86_64") {
        "windows-x86_64"
    } else if chars_eq_str(o.as_slice(), "macos") {
        "macos"
    } else if chars_eq_str(o.as_slice(), "linux") && chars_eq_str(a.as_slice(), "x86_64") {
        "linux-x86_64"
    } else {
        "unknown"
    }
}

/// The SHA-256 digest of a byte string.
pub uninterp spec fn sha256(data: Seq<u8>) -> Seq<u8>;

/// `sha2::Sha256::digest`: the 32-byte SHA-256 digest. The contract names the digest
/// ([`sha256`]) and states its length; the digest itself is not stated.
#[verifier::external_body]
fn sha256_digest(data: &[u8]) -> (r: Vec<u8>)
    ensures
        r@ == sha256(data@),
        r@.len() == 32,
{
    sha2::Sha256::digest(data).to_vec()
}

/// Lowercase hexadecimal digit of `n < 16`.
pub open spec fn hex_digit(n: nat) -> char {
    if n < 10 {
        ((n + 48) as u8) as char
    } else {
        ((n + 87) as u8) as char
    }
}

/// Lowercase hexadecimal text of a byte string, two digits per byte.
pub open spec fn hex(bytes: Seq<u8>) -> Seq<char>
    decreases bytes.len(),
{
    if bytes.len() == 0 {
        seq![]
    } else {
        hex(bytes.drop_last()) + seq![hex_digit((bytes.last() / 16) as nat), hex_digit((bytes.last() % 16) as nat)]
    }
}

fn hex_digit_char(n: u8) -> (c: char)
    requires
        n < 16,
    ensures
        c == hex_digit(n as nat),
{
    if n < 10 {
        (n + 48) as char
    } else {
        (n + 87) as char
    }
}

/// Checks a download against the checksum a release manifest announces, written
/// `sha256:<lowercase hex digest>`.
pub fn verify_sha256(data: &[u8], expected: &str) -> (r: Result<(), UpdateError>)
    ensures
        r is Ok <==> expected@ == "sha256:"@ + hex(sha256(data@)),
        r is Err ==> (r matches Err(e) && e == UpdateError::ChecksumMismatch),
{
    let digest = sha256_digest(data);
    let mut hash = chars_of("sha256:");
    let ghost prefix = hash@;
    let mut i: usize = 0;
    while i < digest.len()
        invariant
            i <= digest@.len(),
            hash@ == prefix + hex(digest@.take(i as int)),
        decreases digest@.len() - i,
    {
        assert(digest@.take(i as int + 1).drop_last() =~= digest@.take(i as int));
        let b = digest[i];
        hash.push(hex_digit_char(b / 16));
        hash.push(hex_digit_char(b % 16));
        i += 1;
        assert(hash@ =~= prefix + hex(digest@.take(i as int)));
    }
    assert(digest@.take(digest@.len() as int) =~= digest@);
    let e = chars_of(expected);
    if chars_eq(hash.as_slice(), e.as_slice()) {
        Ok(())
    } else {
        Err(UpdateError::ChecksumMismatch)
    }
}

} // verus!
