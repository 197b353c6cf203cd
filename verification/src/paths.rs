use vstd::prelude::*;
use vstd::string::StringExecFns;
use crate::errors::Error;

verus! {

/// Relies on `dirs::data_dir`: the platform's application-data root,
/// rendered as a path string, or nothing when the platform defines none.
/// The result depends on the environment, so nothing is promised of it.
#[verifier::external_body]
fn data_dir_path() -> (r: Option<String>) {
    match dirs::data_dir() {
        Some(p) => Some(p.to_string_lossy().into_owned()),
        None => None,
    }
}

/// The profiles directory that lives under a given application-data root.
pub fn profiles_dir_under(data_dir: &str) -> (r: String)
    ensures
        r@ == data_dir@ + "/HostsPilot/profiles"@,
{
    let mut r = data_dir.to_owned();
    r.append("/HostsPilot/profiles");
    r
}

/// The backups directory: a sibling of the profiles directory under the
/// same application-data root.
pub fn backups_dir_under(data_dir: &str) -> (r: String)
    ensures
        r@ == data_dir@ + "/HostsPilot/backups"@,
{
    let mut r = data_dir.to_owned();
    r.append("/HostsPilot/backups");
    r
}

/// Resolves the profiles directory from the platform's application-data
/// conventions; fails exactly when no such root is discoverable.
pub fn get_profiles_dir() -> (r: Result<String, Error>)
    ensures
        r matches Ok(p) ==> exists|d: Seq<char>| p@ == d + "/HostsPilot/profiles"@,
        r matches Err(e) ==> e == Error::EnvironmentError,
{
    match data_dir_path() {
        Some(d) => {
            let p = profiles_dir_under(d.as_str());
            proof {
                assert(p@ == d@ + "/HostsPilot/profiles"@);
            }
            Ok(p)
        },
        None => Err(Error::EnvironmentError),
    }
}

/// Resolves the backups directory from the platform's application-data
/// conventions; fails exactly when no such root is discoverable.
pub fn get_backups_dir() -> (r: Result<String, Error>)
    ensures
        r matches Ok(p) ==> exists|d: Seq<char>| p@ == d + "/HostsPilot/backups"@,
        r matches Err(e) ==> e == Error::EnvironmentError,
{
    match data_dir_path() {
        Some(d) => {
            let p = backups_dir_under(d.as_str());
            proof {
                assert(p@ == d@ + "/HostsPilot/backups"@);
            }
            Ok(p)
        },
        None => Err(Error::EnvironmentError),
    }
}

/// The metadata record's location inside the profiles directory.
pub fn get_metadata_path() -> (r: Result<String, Error>)
    ensures
        r matches Ok(p) ==> exists|d: Seq<char>| p@ == d + "/HostsPilot/profiles/metadata.json"@,
        r matches Err(e) ==> e == Error::EnvironmentError,
{
    match get_profiles_dir() {
        Ok(dir) => {
            let ghost dirv = dir@;
            let mut p = dir;
            p.append("/metadata.json");
            proof {
                let d = choose|d: Seq<char>| dirv == d + "/HostsPilot/profiles"@;
                reveal_strlit("/HostsPilot/profiles");
                reveal_strlit("/metadata.json");
                reveal_strlit("/HostsPilot/profiles/metadata.json");
                assert(p@ =~= d + "/HostsPilot/profiles/metadata.json"@);
            }
            Ok(p)
        },
        Err(e) => Err(e),
    }
}

} // verus!
