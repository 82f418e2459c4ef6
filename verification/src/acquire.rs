//! Environment acquisition: deciding, from the installed payload's own
//! manifest, whether the required version is already present (in which case
//! nothing is deleted and nothing is fetched) or the payload must be
//! deleted and re-downloaded; plus the credential check that precedes any
//! network call and the construction of the authenticated download URL.

use crate::text::bytes_eq;
use vstd::prelude::*;
use vstd::string::StringExecFns;

verus! {

/// The "version" string field of a JSON manifest text, if the text parses
/// and has one: a function of the text alone, named rather than restated.
pub uninterp spec fn json_version_of(text: Seq<u8>) -> Option<Seq<u8>>;

/// Relies on serde_json::from_slice::<serde_json::Value>,
/// serde_json::Value::get and serde_json::Value::as_str: parses `text` as
/// JSON and returns its top-level "version" string field. The result
/// depends on `text` alone.
#[verifier::external_body]
fn json_version_field(text: &Vec<u8>) -> (r: Option<Vec<u8>>)
    ensures
        match r {
            Some(v) => json_version_of(text@) == Some(v@),
            None => json_version_of(text@) is None,
        },
{
    let value: serde_json::Value = match serde_json::from_slice(text.as_slice()) {
        Ok(v) => v,
        Err(_) => return None,
    };
    let field = match value.get("version") {
        Some(f) => f,
        None => return None,
    };
    let s = match field.as_str() {
        Some(s) => s,
        None => return None,
    };
    Some(s.as_bytes().to_vec())
}

/// What Environment Acquisition decides to do.
#[derive(PartialEq, Eq, Structural, Clone, Copy, Debug)]
pub enum AcquirePlan {
    /// The installed payload already reports the required version: no
    /// filesystem deletion and no network call.
    UseExisting,
    /// The manifest is unreadable, unparsable or reports another version:
    /// the target directory is deleted, recreated and re-fetched.
    Redownload,
}

/// Decides acquisition from the payload manifest's raw text (`None` when
/// the manifest file could not be read) and the required version. The
/// existing payload is used exactly when the manifest parses and its
/// version field equals the required version.
pub fn plan_acquisition(manifest: Option<&Vec<u8>>, required_version: &[u8]) -> (p: AcquirePlan)
    ensures
        p == AcquirePlan::UseExisting <==> (manifest matches Some(m) && json_version_of(m@)
            == Some(required_version@)),
{
    match manifest {
        None => AcquirePlan::Redownload,
        Some(text) => {
            match json_version_field(text) {
                None => AcquirePlan::Redownload,
                Some(v) => {
                    if bytes_eq(v.as_slice(), required_version) {
                        AcquirePlan::UseExisting
                    } else {
                        AcquirePlan::Redownload
                    }
                },
            }
        },
    }
}

/// The credentials an authenticated download needs.
#[derive(Debug)]
pub struct Credentials {
    pub username: String,
    pub token: String,
}

/// Which credential was absent; either aborts the run before any network
/// call.
#[derive(PartialEq, Eq, Structural, Clone, Copy, Debug)]
pub enum CredentialError {
    MissingUsername,
    MissingToken,
}

impl CredentialError {
    /// The message the run aborts with, naming the absent environment
    /// variable.
    pub fn message(&self) -> (m: String)
        ensures
            *self == CredentialError::MissingUsername ==> m@
                == "FACTORIO_USERNAME env variable is missing"@,
            *self == CredentialError::MissingToken ==> m@
                == "FACTORIO_TOKEN env variable is missing"@,
    {
        match self {
            CredentialError::MissingUsername => "FACTORIO_USERNAME env variable is missing"
                .to_owned(),
            CredentialError::MissingToken => "FACTORIO_TOKEN env variable is missing".to_owned(),
        }
    }
}

/// Both credentials must be present before any network call; the username
/// is checked first.
pub fn check_credentials(username: Option<String>, token: Option<String>) -> (r: Result<
    Credentials,
    CredentialError,
>)
    ensures
        r is Ok <==> (username is Some && token is Some),
        r matches Ok(c) ==> c.username == username.unwrap() && c.token == token.unwrap(),
        r matches Err(e) ==> (e == CredentialError::MissingUsername <==> username is None),
        r matches Err(e) ==> (e == CredentialError::MissingToken <==> (username is Some
            && token is None)),
{
    match username {
        None => Err(CredentialError::MissingUsername),
        Some(u) => match token {
            None => Err(CredentialError::MissingToken),
            Some(t) => Ok(Credentials { username: u, token: t }),
        },
    }
}

/// The authenticated download URL for a build type, with the platform
/// fixed to linux64.
pub fn get_download_url(buid_type: &str, version: &str, username: &str, token: &str) -> (r: String)
    ensures
        r@ == "https://www.factorio.com/get-download/"@ + version@ + "/"@ + buid_type@
            + "/linux64?username="@ + username@ + "&token="@ + token@,
{
    let mut url: String = "https://www.factorio.com/get-download/".to_owned();
    url.append(version);
    url.append("/");
    url.append(buid_type);
    url.append("/linux64?username=");
    url.append(username);
    url.append("&token=");
    url.append(token);
    proof {
        assert(url@ =~= "https://www.factorio.com/get-download/"@ + version@ + "/"@ + buid_type@
            + "/linux64?username="@ + username@ + "&token="@ + token@);
    }
    url
}

/// The authenticated download URL of the alpha build for a platform target.
pub fn get_os_download_url(version: &str, os_target: &str, username: &str, token: &str) -> (r:
    String)
    ensures
        r@ == "https://www.factorio.com/get-download/"@ + version@ + "/alpha/"@ + os_target@
            + "?username="@ + username@ + "&token="@ + token@,
{
    let mut url: String = "https://www.factorio.com/get-download/".to_owned();
    url.append(version);
    url.append("/alpha/");
    url.append(os_target);
    url.append("?username=");
    url.append(username);
    url.append("&token=");
    url.append(token);
    proof {
        assert(url@ =~= "https://www.factorio.com/get-download/"@ + version@ + "/alpha/"@
            + os_target@ + "?username="@ + username@ + "&token="@ + token@);
    }
    url
}

/// "linux", as platform name bytes.
pub open spec fn linux_name() -> Seq<u8> {
    seq![108u8, 105u8, 110u8, 117u8, 120u8]
}

/// "windows", as platform name bytes.
pub open spec fn windows_name() -> Seq<u8> {
    seq![119u8, 105u8, 110u8, 100u8, 111u8, 119u8, 115u8]
}

/// "linux64", the download target for linux.
pub open spec fn linux_target() -> Seq<u8> {
    seq![108u8, 105u8, 110u8, 117u8, 120u8, 54u8, 52u8]
}

/// "win64-manual", the download target for windows.
pub open spec fn windows_target() -> Seq<u8> {
    seq![119u8, 105u8, 110u8, 54u8, 52u8, 45u8, 109u8, 97u8, 110u8, 117u8, 97u8, 108u8]
}

/// "linux" as bytes.
fn linux_name_bytes() -> (r: Vec<u8>)
    ensures
        r@ == linux_name(),
{
    let mut v: Vec<u8> = Vec::new();
    v.push(108u8);
    v.push(105u8);
    v.push(110u8);
    v.push(117u8);
    v.push(120u8);
    proof {
        assert(v@ =~= linux_name());
    }
    v
}

/// "windows" as bytes.
fn windows_name_bytes() -> (r: Vec<u8>)
    ensures
        r@ == windows_name(),
{
    let mut v: Vec<u8> = Vec::new();
    v.push(119u8);
    v.push(105u8);
    v.push(110u8);
    v.push(100u8);
    v.push(111u8);
    v.push(119u8);
    v.push(115u8);
    proof {
        assert(v@ =~= windows_name());
    }
    v
}

/// The download target for a platform name; `None` for an unsupported
/// platform, on which the run aborts.
pub fn os_download_target(os: &[u8]) -> (r: Option<Vec<u8>>)
    ensures
        os@ == linux_name() ==> (r matches Some(t) && t@ == linux_target()),
        os@ == windows_name() ==> (r matches Some(t) && t@ == windows_target()),
        os@ != linux_name() && os@ != windows_name() ==> r is None,
{
    let linux = linux_name_bytes();
    if bytes_eq(os, linux.as_slice()) {
        let mut t: Vec<u8> = Vec::new();
        t.push(108u8);
        t.push(105u8);
        t.push(110u8);
        t.push(117u8);
        t.push(120u8);
        t.push(54u8);
        t.push(52u8);
        proof {
            assert(t@ =~= linux_target());
        }
        return Some(t);
    }
    let windows = windows_name_bytes();
    if bytes_eq(os, windows.as_slice()) {
        let mut t: Vec<u8> = Vec::new();
        t.push(119u8);
        t.push(105u8);
        t.push(110u8);
        t.push(54u8);
        t.push(52u8);
        t.push(45u8);
        t.push(109u8);
        t.push(97u8);
        t.push(110u8);
        t.push(117u8);
        t.push(97u8);
        t.push(108u8);
        proof {
            assert(t@ =~= windows_target());
        }
        return Some(t);
    }
    None
}

} // verus!
