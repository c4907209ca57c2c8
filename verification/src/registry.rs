//! The local package registry: where packages live and when one may be published.
//!
//! Packages are stored under `<root>/<name>/<version>/`, each with its `kelpy.toml`.
use vstd::prelude::*;
use vstd::string::StrSliceExecFns;

use crate::manifest::Manifest;

verus! {

/// `part` appended to `base` as a path component, as `PathBuf::push` does on Unix: an
/// absolute `part` replaces `base`, and a separator is put between them unless `base`
/// is empty or already ends with one.
pub open spec fn path_join(base: Seq<char>, part: Seq<char>) -> Seq<char> {
    if part.len() > 0 && part[0] == '/' {
        part
    } else if base.len() > 0 && base.last() != '/' {
        base + seq!['/'] + part
    } else {
        base + part
    }
}

/// Joining a relative component keeps the base and the whole component, with at most
/// a separator between them; joining an absolute one gives that component.
pub proof fn law_join_appends_whole_component(base: Seq<char>, part: Seq<char>)
    ensures
        part.len() == 0 || part[0] != '/' ==> {
            ||| path_join(base, part) == base + part
            ||| path_join(base, part) == base + seq!['/'] + part
        },
        path_join(base, part).len() >= part.len(),
        path_join(base, part).skip(path_join(base, part).len() - part.len()) == part,
        part.len() > 0 && part[0] == '/' ==> path_join(base, part) == part,
        part.len() == 0 || part[0] != '/' ==> path_join(base, part).take(base.len() as int)
            == base,
{
    let r = path_join(base, part);
    assert(r.skip(r.len() - part.len()) =~= part);
    if part.len() == 0 || part[0] != '/' {
        assert(r.take(base.len() as int) =~= base);
    }
}

/// A package directory is the registry root, then the package name, then the
/// version, each whole, the last two separated by `/`.
pub proof fn law_package_path_layout(root: Seq<char>, name: Seq<char>, version: Seq<char>)
    requires
        name.len() > 0,
        name[0] != '/',
        name.last() != '/',
        version.len() == 0 || version[0] != '/',
    ensures
        ({
            let p = path_join(path_join(root, name), version);
            ||| p == root + name + seq!['/'] + version
            ||| p == root + seq!['/'] + name + seq!['/'] + version
        }),
{
    let d = path_join(root, name);
    law_join_appends_whole_component(root, name);
    law_join_appends_whole_component(d, version);
    assert(d.len() > 0);
    assert(d.last() == name.last()) by {
        assert(d.skip(d.len() - name.len()) == name);
        assert(d.skip(d.len() - name.len())[name.len() - 1] == d.last());
    }
    if d == root + name {
        assert(d + seq!['/'] + version =~= root + name + seq!['/'] + version);
    } else {
        assert(d + seq!['/'] + version =~= root + seq!['/'] + name + seq!['/'] + version);
    }
}

/// Joins a path component onto a path.
pub fn join_path(base: &str, part: &str) -> (p: String)
    ensures
        p@ == path_join(base@, part@),
{
    let part_len = part.unicode_len();
    if part_len > 0 && part.get_char(0) == '/' {
        return part.to_owned();
    }
    let base_len = base.unicode_len();
    let mut p = base.to_owned();
    if base_len > 0 && base.get_char(base_len - 1) != '/' {
        p.append("/");
        proof {
            reveal_strlit("/");
        }
    }
    p.append(part);
    p
}

/// The path of the manifest file in a package directory.
pub fn manifest_path(dir: &str) -> (p: String)
    ensures
        p@ == path_join(dir@, "kelpy.toml"@),
{
    join_path(dir, "kelpy.toml")
}

/// The message for a package version the registry already holds.
pub open spec fn already_in_registry_message(name: Seq<char>, version: Seq<char>) -> Seq<char> {
    "Package '"@ + name + "@"@ + version + "' already exists in registry"@
}

/// The message for a package published to the registry.
pub open spec fn published_to_registry_message(name: Seq<char>, version: Seq<char>) -> Seq<char> {
    "Published "@ + name + "@"@ + version + " to registry"@
}

/// The local package registry.
pub struct Registry {
    /// Root directory of the registry.
    pub root: String,
}

impl Registry {
    /// A registry rooted at `root`.
    pub fn new(root: String) -> (r: Registry)
        ensures
            r.root == root,
    {
        Registry { root }
    }

    /// The registry at the default location under the home directory `home`:
    /// `<home>/.kelpyshark/registry`.
    pub fn default(home: &str) -> (r: Registry)
        ensures
            r.root@ == path_join(path_join(home@, ".kelpyshark"@), "registry"@),
    {
        let dot = join_path(home, ".kelpyshark");
        Registry { root: join_path(dot.as_str(), "registry") }
    }

    /// The directory of a package version: `<root>/<name>/<version>`.
    pub fn package_path(&self, name: &str, version: &str) -> (p: String)
        ensures
            p@ == path_join(path_join(self.root@, name@), version@),
    {
        let dir = join_path(self.root.as_str(), name);
        join_path(dir.as_str(), version)
    }

    /// Decides the publication of a package whose manifest is `manifest`, given
    /// whether its directory in the registry exists already: a version is published
    /// once. Gives the message to report once the files are copied, or the error.
    pub fn publish(&self, manifest: &Manifest, already_published: bool) -> (r: Result<
        String,
        String,
    >)
        ensures
            match r {
                Ok(msg) => !already_published && msg@ == published_to_registry_message(
                    manifest.package.name@,
                    manifest.package.version@,
                ),
                Err(e) => already_published && e@ == already_in_registry_message(
                    manifest.package.name@,
                    manifest.package.version@,
                ),
            },
    {
        if already_published {
            let mut e = "Package '".to_owned();
            e.append(manifest.package.name.as_str());
            e.append("@");
            e.append(manifest.package.version.as_str());
            e.append("' already exists in registry");
            Err(e)
        } else {
            let mut msg = "Published ".to_owned();
            msg.append(manifest.package.name.as_str());
            msg.append("@");
            msg.append(manifest.package.version.as_str());
            msg.append(" to registry");
            Ok(msg)
        }
    }
}

/// Whether copying a package into the registry leaves out a directory of this name
/// (build output and version control).
pub fn skip_dir_in_copy(name: &str) -> (b: bool)
    ensures
        b == (name@ == "target"@ || name@ == ".git"@),
{
    let n = name.to_owned();
    n == "target".to_owned() || n == ".git".to_owned()
}

} // verus!
