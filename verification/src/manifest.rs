//! The package manifest (`kelpy.toml`): its model, its parser and its renderer.
//!
//! The format is a small TOML subset: `[section]` headers and `key = "value"` pairs.
//! The `[package]` section holds `name`, `version` and `description`; the
//! `[dependencies]` section maps package names to versions.
use vstd::prelude::*;

use crate::deps::{entries_view, entry_view, insert_entry, Dependencies, EntriesView};
use crate::text::{
    decimal, find_char, lines, push_decimal, range_equals, split_lines, string_of, to_chars, trim,
    trim_range,
};

verus! {

/// Package metadata from the `[package]` section.
#[derive(Debug, PartialEq, Eq)]
pub struct PackageInfo {
    pub name: String,
    pub version: String,
    pub description: String,
}

/// A parsed manifest.
#[derive(Debug)]
pub struct Manifest {
    pub package: PackageInfo,
    pub dependencies: Dependencies,
}

impl Clone for PackageInfo {
    /// A copy of the metadata.
    fn clone(&self) -> (r: Self)
        ensures
            r == *self,
    {
        PackageInfo {
            name: self.name.clone(),
            version: self.version.clone(),
            description: self.description.clone(),
        }
    }
}

impl Clone for Manifest {
    /// A copy of the manifest.
    fn clone(&self) -> (r: Self)
        ensures
            r@ == self@,
    {
        Manifest { package: self.package.clone(), dependencies: self.dependencies.clone() }
    }
}

/// A manifest as plain text values.
pub struct ManifestView {
    pub name: Seq<char>,
    pub version: Seq<char>,
    pub description: Seq<char>,
    pub deps: EntriesView,
}

impl View for Manifest {
    type V = ManifestView;

    open spec fn view(&self) -> ManifestView {
        ManifestView {
            name: self.package.name@,
            version: self.package.version@,
            description: self.package.description@,
            deps: self.dependencies@,
        }
    }
}

/// What one trimmed line of a manifest says.
pub enum Line {
    /// An empty line or a comment.
    Skip,
    /// A `[section]` header, with the trimmed section name.
    Section(Seq<char>),
    /// A `key = value` pair, with the trimmed key and the trimmed, unquoted value.
    Entry(Seq<char>, Seq<char>),
    /// Anything else.
    Malformed,
}

/// `r` without one pair of surrounding double quotes, where it has them.
pub open spec fn unquote(r: Seq<char>) -> Seq<char> {
    if r.len() >= 2 && r[0] == '"' && r.last() == '"' {
        r.subrange(1, r.len() - 1)
    } else {
        r
    }
}

/// The meaning of a trimmed line: the key is what stands before its first `=`.
pub open spec fn classify(t: Seq<char>) -> Line {
    if t.len() == 0 || t[0] == '#' {
        Line::Skip
    } else if t[0] == '[' && t.last() == ']' {
        Line::Section(trim(t.subrange(1, t.len() - 1)))
    } else {
        match t.index_of_first('=') {
            Some(e) => Line::Entry(trim(t.take(e)), unquote(trim(t.skip(e + 1)))),
            None => Line::Malformed,
        }
    }
}

/// The parser's state between lines.
pub struct Scan {
    pub section: Seq<char>,
    pub name: Seq<char>,
    pub version: Seq<char>,
    pub description: Seq<char>,
    pub deps: EntriesView,
}

/// The state before the first line.
pub open spec fn scan_start() -> Scan {
    Scan {
        section: Seq::empty(),
        name: Seq::empty(),
        version: Seq::empty(),
        description: Seq::empty(),
        deps: Seq::empty(),
    }
}

/// The state after one more line, or `None` for a malformed line.
pub open spec fn apply(st: Scan, line: Line) -> Option<Scan> {
    match line {
        Line::Skip => Some(st),
        Line::Section(s) => Some(Scan { section: s, ..st }),
        Line::Entry(k, v) => if st.section == "package"@ {
            if k == "name"@ {
                Some(Scan { name: v, ..st })
            } else if k == "version"@ {
                Some(Scan { version: v, ..st })
            } else if k == "description"@ {
                Some(Scan { description: v, ..st })
            } else {
                Some(st)
            }
        } else if st.section == "dependencies"@ {
            Some(Scan { deps: insert_entry(st.deps, k, v), ..st })
        } else {
            Some(st)
        },
        Line::Malformed => None,
    }
}

/// The state after the first `n` lines, or the index of the first malformed line.
pub open spec fn scan(ls: Seq<Seq<char>>, n: nat) -> Result<Scan, nat>
    decreases n,
{
    if n == 0 {
        Ok(scan_start())
    } else {
        match scan(ls, (n - 1) as nat) {
            Err(k) => Err(k),
            Ok(st) => match apply(st, classify(trim(ls[n - 1]))) {
                Some(next) => Ok(next),
                None => Err((n - 1) as nat),
            },
        }
    }
}

/// The error for the malformed line numbered `n` (counted from 1).
pub open spec fn malformed_line_message(n: nat, line: Seq<char>) -> Seq<char> {
    "kelpy.toml line "@ + decimal(n) + ": expected key = value, got: "@ + line
}

/// The error for a manifest without a package name.
pub open spec fn missing_name_message() -> Seq<char> {
    "kelpy.toml: missing [package] name"@
}

/// The version of a package whose manifest gives none.
pub open spec fn default_version() -> Seq<char> {
    "0.1.0"@
}

/// What parsing `content` gives: the manifest, or the error message.
pub open spec fn parse_manifest(content: Seq<char>) -> Result<ManifestView, Seq<char>> {
    let ls = lines(content);
    match scan(ls, ls.len()) {
        Err(k) => Err(malformed_line_message(k + 1, trim(ls[k as int]))),
        Ok(st) => if st.name.len() == 0 {
            Err(missing_name_message())
        } else {
            Ok(
                ManifestView {
                    name: st.name,
                    version: if st.version.len() == 0 {
                        default_version()
                    } else {
                        st.version
                    },
                    description: st.description,
                    deps: st.deps,
                },
            )
        },
    }
}

/// Once a line is malformed, every longer prefix reports that line.
proof fn lemma_scan_err_stays(ls: Seq<Seq<char>>, k: nat, n: nat)
    requires
        k < n,
        scan(ls, k + 1) == Err::<Scan, nat>(k),
    ensures
        scan(ls, n) == Err::<Scan, nat>(k),
    decreases n,
{
    if n > k + 1 {
        lemma_scan_err_stays(ls, k, (n - 1) as nat);
    }
}

/// Parses manifest text.
///
/// Lines are trimmed; empty lines and lines starting with `#` are skipped; a line
/// that starts with `[` and ends with `]` opens a section; any other line must hold
/// a `=`, else parsing fails naming that line. Keys other than `name`, `version` and
/// `description` in `[package]`, and every key of other sections than `[package]`
/// and `[dependencies]`, are ignored. A missing version is `0.1.0`; a missing name
/// is an error.
pub fn parse(content: &str) -> (r: Result<Manifest, String>)
    ensures
        match parse_manifest(content@) {
            Ok(m) => r matches Ok(x) && x@ == m,
            Err(e) => r matches Err(x) && x@ == e,
        },
{
    let chars = to_chars(content);
    let ls = split_lines(&chars);
    let ghost lv = lines(chars@);
    let package_word = to_chars("package");
    let dependencies_word = to_chars("dependencies");
    let name_word = to_chars("name");
    let version_word = to_chars("version");
    let description_word = to_chars("description");
    let mut section: (usize, usize) = (0, 0);
    let mut name = String::new();
    let mut version = String::new();
    let mut description = String::new();
    let mut deps = Dependencies::new();
    let mut i: usize = 0;
    assert(chars@.subrange(0, 0) =~= Seq::<char>::empty());
    while i < ls.len()
        invariant
            0 <= i <= ls.len(),
            ls.len() == lv.len(),
            lv == lines(chars@),
            chars@ == content@,
            package_word@ == "package"@,
            dependencies_word@ == "dependencies"@,
            name_word@ == "name"@,
            version_word@ == "version"@,
            description_word@ == "description"@,
            forall|k: int| 0 <= k < ls.len() ==> (#[trigger] ls[k]).0 <= ls[k].1 <= chars.len(),
            forall|k: int|
                0 <= k < ls.len() ==> #[trigger] chars@.subrange(ls[k].0 as int, ls[k].1 as int)
                    == lv[k],
            section.0 <= section.1 <= chars.len(),
            scan(lv, i as nat) == Ok::<Scan, nat>(
                Scan {
                    section: chars@.subrange(section.0 as int, section.1 as int),
                    name: name@,
                    version: version@,
                    description: description@,
                    deps: deps@,
                },
            ),
        decreases ls.len() - i,
    {
        let (lo, hi) = ls[i];
        let (a, b) = trim_range(&chars, lo, hi);
        let ghost t = chars@.subrange(a as int, b as int);
        let ghost st = scan(lv, i as nat)->Ok_0;
        assert(chars@.subrange(lo as int, hi as int) == lv[i as int]);
        assert(t == trim(lv[i as int]));
        if a == b || chars[a] == '#' {
            proof {
                if a < b {
                    assert(t[0] == chars@[a as int]);
                }
                assert(classify(t) == Line::Skip);
            }
        } else if chars[a] == '[' && chars[b - 1] == ']' {
            let (sa, sb) = trim_range(&chars, a + 1, b - 1);
            proof {
                assert(t[0] == chars@[a as int]);
                assert(t.last() == chars@[b - 1]);
                assert(t.subrange(1, t.len() - 1) =~= chars@.subrange(a + 1, b - 1));
            }
            section = (sa, sb);
        } else {
            proof {
                assert(t[0] == chars@[a as int]);
                assert(t.last() == chars@[b - 1]);
            }
            match find_char(&chars, a, b, '=') {
                Some(e) => {
                    let (ka, kb) = trim_range(&chars, a, e);
                    let (ra, rb) = trim_range(&chars, e + 1, b);
                    proof {
                        assert(t.take(e - a) =~= chars@.subrange(a as int, e as int));
                        assert(t.skip(e - a + 1) =~= chars@.subrange(e + 1, b as int));
                    }
                    let ghost raw = chars@.subrange(ra as int, rb as int);
                    let (va, vb) = if rb - ra >= 2 && chars[ra] == '"' && chars[rb - 1] == '"' {
                        proof {
                            assert(raw[0] == chars@[ra as int]);
                            assert(raw.last() == chars@[rb - 1]);
                            assert(raw.subrange(1, raw.len() - 1) =~= chars@.subrange(
                                ra + 1,
                                rb - 1,
                            ));
                        }
                        (ra + 1, rb - 1)
                    } else {
                        proof {
                            if raw.len() >= 2 {
                                assert(raw[0] == chars@[ra as int]);
                                assert(raw.last() == chars@[rb - 1]);
                            }
                        }
                        (ra, rb)
                    };
                    let ghost key = chars@.subrange(ka as int, kb as int);
                    let ghost value = chars@.subrange(va as int, vb as int);
                    assert(classify(t) == Line::Entry(key, value));
                    if range_equals(&chars, section.0, section.1, &package_word) {
                        if range_equals(&chars, ka, kb, &name_word) {
                            name = string_of(&chars, va, vb);
                        } else if range_equals(&chars, ka, kb, &version_word) {
                            version = string_of(&chars, va, vb);
                        } else if range_equals(&chars, ka, kb, &description_word) {
                            description = string_of(&chars, va, vb);
                        }
                    } else if range_equals(&chars, section.0, section.1, &dependencies_word) {
                        deps.insert(string_of(&chars, ka, kb), string_of(&chars, va, vb));
                    }
                },
                None => {
                    assert(classify(t) == Line::Malformed);
                    assert(scan(lv, (i + 1) as nat) == Err::<Scan, nat>(i as nat));
                    proof {
                        lemma_scan_err_stays(lv, i as nat, lv.len());
                    }
                    let mut msg = "kelpy.toml line ".to_owned();
                    push_decimal(&mut msg, i + 1);
                    msg.append(": expected key = value, got: ");
                    let line = string_of(&chars, a, b);
                    msg.append(line.as_str());
                    return Err(msg);
                },
            }
        }
        i = i + 1;
    }
    if name.as_str().is_empty() {
        return Err("kelpy.toml: missing [package] name".to_owned());
    }
    if version.as_str().is_empty() {
        version = "0.1.0".to_owned();
    }
    Ok(
        Manifest {
            package: PackageInfo { name, version, description },
            dependencies: deps,
        },
    )
}

/// The text of the dependency entries: one `name = "version"` line each, in order.
pub open spec fn render_deps(es: EntriesView) -> Seq<char>
    decreases es.len(),
{
    if es.len() == 0 {
        Seq::empty()
    } else {
        render_deps(es.drop_last()) + es.last().0 + " = \""@ + es.last().1 + "\"\n"@
    }
}

/// The text `serialize` writes for a manifest.
pub open spec fn render_manifest(m: ManifestView) -> Seq<char> {
    "[package]\nname = \""@ + m.name + "\"\nversion = \""@ + m.version + "\"\ndescription = \""@
        + m.description + "\"\n\n[dependencies]\n"@ + render_deps(m.deps)
}

/// Renders a manifest as manifest text: the `[package]` section with name, version
/// and description, a blank line, then the `[dependencies]` section.
pub fn serialize(manifest: &Manifest) -> (out: String)
    ensures
        out@ == render_manifest(manifest@),
{
    let mut out = "[package]\nname = \"".to_owned();
    out.append(manifest.package.name.as_str());
    out.append("\"\nversion = \"");
    out.append(manifest.package.version.as_str());
    out.append("\"\ndescription = \"");
    out.append(manifest.package.description.as_str());
    out.append("\"\n\n[dependencies]\n");
    let ghost head = out@;
    let entries = manifest.dependencies.entries();
    let ghost es = manifest.dependencies@;
    let mut i: usize = 0;
    assert(es.take(0) =~= Seq::<(Seq<char>, Seq<char>)>::empty());
    while i < entries.len()
        invariant
            0 <= i <= entries.len(),
            entries_view(entries@) == es,
            out@ == head + render_deps(es.take(i as int)),
        decreases entries.len() - i,
    {
        assert(es[i as int] == entry_view(entries@[i as int]));
        out.append(entries[i].0.as_str());
        out.append(" = \"");
        out.append(entries[i].1.as_str());
        out.append("\"\n");
        assert(es.take(i + 1).drop_last() =~= es.take(i as int));
        i = i + 1;
    }
    assert(es.take(entries.len() as int) =~= es);
    out
}

} // verus!
