//! Publishing a local package directory to the registry: the checks and messages.
use vstd::prelude::*;

use crate::manifest::Manifest;
use crate::registry::{path_join, Registry};

verus! {

/// The error for a package directory without a manifest.
pub open spec fn no_manifest_message(project_dir: Seq<char>) -> Seq<char> {
    "No kelpy.toml found in '"@ + project_dir + "'"@
}

/// The error for a version already in the registry.
pub open spec fn already_published_message(name: Seq<char>, version: Seq<char>) -> Seq<char> {
    "Package '"@ + name + "@"@ + version
        + "' is already published. Bump the version in kelpy.toml to publish a new release."@
}

/// The report of a package published to `dest`.
pub open spec fn published_message(name: Seq<char>, version: Seq<char>, dest: Seq<char>) -> Seq<
    char,
> {
    "Published "@ + name + "@"@ + version + " to local registry at '"@ + dest + "'"@
}

/// The error for a package directory without a manifest.
pub fn no_manifest_error(project_dir: &str) -> (e: String)
    ensures
        e@ == no_manifest_message(project_dir@),
{
    let mut e = "No kelpy.toml found in '".to_owned();
    e.append(project_dir);
    e.append("'");
    e
}

/// Decides the publication of a package with manifest `manifest` into `registry`,
/// given whether its destination `registry.package_path(name, version)` exists:
/// a version is published once. Gives the destination to copy the package to and the
/// message to report afterwards, or the error.
pub fn publish(registry: &Registry, manifest: &Manifest, dest_exists: bool) -> (r: Result<
    (String, String),
    String,
>)
    ensures
        match r {
            Ok((dest, msg)) => {
                &&& !dest_exists
                &&& dest@ == path_join(
                    path_join(registry.root@, manifest.package.name@),
                    manifest.package.version@,
                )
                &&& msg@ == published_message(
                    manifest.package.name@,
                    manifest.package.version@,
                    dest@,
                )
            },
            Err(e) => dest_exists && e@ == already_published_message(
                manifest.package.name@,
                manifest.package.version@,
            ),
        },
{
    let name = manifest.package.name.as_str();
    let version = manifest.package.version.as_str();
    if dest_exists {
        let mut e = "Package '".to_owned();
        e.append(name);
        e.append("@");
        e.append(version);
        e.append(
            "' is already published. Bump the version in kelpy.toml to publish a new release.",
        );
        return Err(e);
    }
    let dest = registry.package_path(name, version);
    let mut msg = "Published ".to_owned();
    msg.append(name);
    msg.append("@");
    msg.append(version);
    msg.append(" to local registry at '");
    msg.append(dest.as_str());
    msg.append("'");
    Ok((dest, msg))
}

/// Whether copying a package directory leaves out an entry of this name (build
/// output, installed libraries and version control).
pub fn skip_entry(name: &str) -> (b: bool)
    ensures
        b == (name@ == "target"@ || name@ == "libs"@ || name@ == ".git"@),
{
    let n = name.to_owned();
    n == "target".to_owned() || n == "libs".to_owned() || n == ".git".to_owned()
}

} // verus!
