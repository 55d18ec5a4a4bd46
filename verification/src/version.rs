//! Checking the mdbook version that runs the preprocessor against the one it
//! was built for.
use vstd::prelude::*;
use vstd::string::StringExecFns;

verus! {

/// Whether a book processed by mdbook `invoked` suits a build whose version
/// requirement is `compiled`: nothing when `invoked` is not a semantic
/// version or `compiled` is not a version requirement, otherwise whether
/// the requirement matches the version.
pub uninterp spec fn semver_compatible(invoked: Seq<char>, compiled: Seq<char>) -> Option<bool>;

/// `semver::Version::parse(invoked)`, `semver::VersionReq::parse(compiled)`
/// and, when both parse, `VersionReq::matches`; what it returns depends on
/// the two strings alone.
#[verifier::external_body]
fn semver_check(invoked: &str, compiled: &str) -> (r: Option<bool>)
    ensures
        r == semver_compatible(invoked@, compiled@),
{
    match (semver::Version::parse(invoked), semver::VersionReq::parse(compiled)) {
        (Ok(version), Ok(requirement)) => Some(requirement.matches(&version)),
        _ => None,
    }
}

/// The versions could not be compared: `invoked` is not a semantic version
/// or `compiled` is not a version requirement.
#[derive(Debug)]
pub struct VersionError {
    pub invoked: String,
    pub compiled: String,
}

/// The warning for a build used with an mdbook it was not built for.
pub open spec fn version_warning_text(invoked: Seq<char>, compiled: Seq<char>) -> Seq<char> {
    "mdbook-tracey: warning: compiled against mdbook "@ + compiled + ", invoked by mdbook "@ + invoked
}

/// Compare the mdbook version that runs the preprocessor (`invoked`) with
/// the version requirement it was compiled against (`compiled`): no warning
/// when they match, a warning when they do not, an error when either does
/// not parse.
pub fn mdbook_version_warning(invoked: &str, compiled: &str) -> (r: Result<Option<String>, VersionError>)
    ensures
        r is Err <==> semver_compatible(invoked@, compiled@) is None,
        r matches Err(e) ==> e.invoked@ == invoked@ && e.compiled@ == compiled@,
        semver_compatible(invoked@, compiled@) == Some(true) ==> r matches Ok(None),
        semver_compatible(invoked@, compiled@) == Some(false) ==> (r matches Ok(Some(w)) && w@
            == version_warning_text(invoked@, compiled@)),
{
    match semver_check(invoked, compiled) {
        None => Err(VersionError { invoked: invoked.to_owned(), compiled: compiled.to_owned() }),
        Some(true) => Ok(None),
        Some(false) => {
            let mut w = String::new();
            w.append("mdbook-tracey: warning: compiled against mdbook ");
            w.append(compiled);
            w.append(", invoked by mdbook ");
            w.append(invoked);
            Ok(Some(w))
        },
    }
}

} // verus!
