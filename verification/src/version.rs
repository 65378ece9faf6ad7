//! Version strings and version ranges, as the `semver` crate reads them.

use semver::Version;
use semver::VersionReq;
use vstd::prelude::*;

verus! {

/// A parsed version range of the `semver` crate, carried through unopened.
#[verifier::external_type_specification]
#[verifier::external_body]
pub struct ExVersionReq(semver::VersionReq);

/// A parsed version of the `semver` crate, carried through unopened.
#[verifier::external_type_specification]
#[verifier::external_body]
pub struct ExVersion(semver::Version);

/// What `semver::VersionReq::parse` makes of a text: the range, or nothing
/// where the text is no range.
pub uninterp spec fn range_of(text: Seq<char>) -> Option<VersionReq>;

/// What `semver::Version::parse` makes of a text: the version, or nothing
/// where the text is no version.
pub uninterp spec fn version_of(text: Seq<char>) -> Option<Version>;

/// Whether `semver::VersionReq::matches` finds the version inside the range.
pub uninterp spec fn admits(range: VersionReq, version: Version) -> bool;

/// Calls `semver::VersionReq::parse`. The parse depends on the text alone, so
/// its outcome is `range_of` of the text; a text that does not parse gives
/// `None`.
#[verifier::external_body]
pub(crate) fn parse_range(text: &String) -> (range: Option<VersionReq>)
    ensures
        range == range_of(text@),
{
    VersionReq::parse(text).ok()
}

/// Calls `semver::Version::parse`. The parse depends on the text alone, so its
/// outcome is `version_of` of the text; a text that does not parse gives
/// `None`.
#[verifier::external_body]
pub(crate) fn parse_version(text: &String) -> (version: Option<Version>)
    ensures
        version == version_of(text@),
{
    Version::parse(text).ok()
}

/// Calls `semver::VersionReq::matches`, which decides from the range and the
/// version alone.
#[verifier::external_body]
pub(crate) fn range_admits(range: &VersionReq, version: &Version) -> (yes: bool)
    ensures
        yes == admits(*range, *version),
{
    range.matches(version)
}

/// Whether the range text admits the version text: `None` where either text
/// does not parse.
pub open spec fn satisfies(range: Seq<char>, version: Seq<char>) -> Option<bool> {
    match (range_of(range), version_of(version)) {
        (Some(r), Some(v)) => Some(admits(r, v)),
        _ => None,
    }
}

/// Parses both texts and asks whether the range admits the version.
pub fn check_range(range: &String, version: &String) -> (verdict: Option<bool>)
    ensures
        verdict == satisfies(range@, version@),
{
    match parse_range(range) {
        Some(r) => match parse_version(version) {
            Some(v) => Some(range_admits(&r, &v)),
            None => None,
        },
        None => None,
    }
}

/// A version text without the marks `^` and `~`.
pub open spec fn cleaned(version: Seq<char>) -> Seq<char> {
    version.filter(|c: char| c != '^').filter(|c: char| c != '~')
}

/// Calls `str::replace` with a character as the pattern and the empty
/// string in its place: what is left are the characters of the text other
/// than `mark`, in their order.
#[verifier::external_body]
pub(crate) fn without_char(text: &String, mark: char) -> (rest: String)
    ensures
        rest@ == text@.filter(|c: char| c != mark),
{
    text.replace(mark, "")
}

/// The version that a range is anchored to: the text without `^` and `~`.
pub fn clean_version(version: &String) -> (clean: String)
    ensures
        clean@ == cleaned(version@),
{
    let without_caret = without_char(version, '^');
    let clean = without_char(&without_caret, '~');
    assert(version@.filter(|c: char| c != '^').filter(|c: char| c != '~') == cleaned(version@));
    clean
}

} // verus!
