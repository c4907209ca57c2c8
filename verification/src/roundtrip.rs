//! Rendering a manifest and parsing the text back gives the same manifest.
use vstd::prelude::*;

use crate::deps::{has_key, insert_entry, key_pos, keys_distinct, EntriesView};
use crate::manifest::{
    apply, classify, parse_manifest, render_deps, render_manifest, scan, scan_start, unquote,
    Line, ManifestView, Scan,
};
use crate::text::{
    is_white, join_lines, lemma_join_add, lemma_lines_of_join, lemma_trim_end_take,
    lemma_trim_start_skip, lemma_trim_unchanged, lemma_trimmed_edges, lines, no_newline, trim,
    trim_end, trim_start,
};

verus! {

/// The line `key = "value"` as the renderer writes it.
pub open spec fn entry_line(k: Seq<char>, v: Seq<char>) -> Seq<char> {
    k + " = \""@ + v + "\""@
}

/// A dependency name the parser reads back as written: no newline, no `=`, no
/// surrounding whitespace, and not starting like a comment.
pub open spec fn plain_key(k: Seq<char>) -> bool {
    &&& no_newline(k)
    &&& !k.contains('=')
    &&& trim(k) == k
    &&& (k.len() == 0 || k[0] != '#')
}

/// A manifest that survives rendering and parsing: a name and a version are given,
/// no field holds a newline, and every dependency name is plain.
pub open spec fn round_trippable(m: ManifestView) -> bool {
    &&& m.name.len() > 0
    &&& m.version.len() > 0
    &&& no_newline(m.name)
    &&& no_newline(m.version)
    &&& no_newline(m.description)
    &&& keys_distinct(m.deps)
    &&& forall|i: int|
        0 <= i < m.deps.len() ==> plain_key((#[trigger] m.deps[i]).0) && no_newline(m.deps[i].1)
}

/// The lines of the dependency section.
pub open spec fn dep_lines(es: EntriesView) -> Seq<Seq<char>> {
    Seq::new(es.len(), |i: int| entry_line(es[i].0, es[i].1))
}

/// The lines of the `[package]` section and the `[dependencies]` header.
pub open spec fn head_lines(m: ManifestView) -> Seq<Seq<char>> {
    seq![
        "[package]"@,
        entry_line("name"@, m.name),
        entry_line("version"@, m.version),
        entry_line("description"@, m.description),
        Seq::<char>::empty(),
        "[dependencies]"@,
    ]
}

/// The first `=` of `a + "=" + b`, where `a` has none, splits it back into `a` and `b`.
proof fn lemma_split_at_eq(a: Seq<char>, b: Seq<char>)
    requires
        !a.contains('='),
    ensures
        (a + seq!['='] + b).index_of_first('=') == Some(a.len() as int),
        (a + seq!['='] + b).take(a.len() as int) == a,
        (a + seq!['='] + b).skip(a.len() as int + 1) == b,
{
    let t = a + seq!['='] + b;
    t.index_of_first_ensures('=');
    assert(t[a.len() as int] == '=');
    assert(t.contains('='));
    let k = t.index_of_first('=').unwrap();
    if k < a.len() {
        assert(a[k] == t[k]);
    }
    assert(t.take(a.len() as int) =~= a);
    assert(t.skip(a.len() as int + 1) =~= b);
}

/// Trimming ` "v"` leaves `"v"`, and unquoting that leaves `v`.
proof fn lemma_quoted_value(v: Seq<char>)
    ensures
        unquote(trim(seq![' ', '"'] + v + seq!['"'])) == v,
{
    let b = seq![' ', '"'] + v + seq!['"'];
    let c = seq!['"'] + v + seq!['"'];
    assert(b.drop_first() =~= c);
    assert(is_white(b[0]));
    assert(!is_white(c[0]));
    assert(trim_start(c) == c);
    assert(trim_start(b) == trim_start(b.drop_first()));
    assert(trim_start(b) == c);
    assert(c.last() == '"');
    assert(trim_end(c) == c);
    assert(c.subrange(1, c.len() - 1) =~= v);
}

/// Every character of `w` is whitespace (`w` may be empty).
pub open spec fn all_white(w: Seq<char>) -> bool {
    forall|i: int| 0 <= i < w.len() ==> is_white(#[trigger] w[i])
}

/// The value of a `key = "value"` line is the text between the quotes, however the
/// line is spaced around its `=`: for any whitespace `w0` before and `w1` after the
/// `=`, including none, the line reads as the key and the unquoted value.
pub proof fn law_entry_value_ignores_spacing(
    k: Seq<char>,
    w0: Seq<char>,
    w1: Seq<char>,
    v: Seq<char>,
)
    requires
        k.len() > 0,
        !is_white(k[0]),
        !is_white(k.last()),
        k[0] != '#',
        !k.contains('='),
        all_white(w0),
        all_white(w1),
    ensures
        classify(trim(k + w0 + seq!['='] + w1 + seq!['"'] + v + seq!['"'])) == Line::Entry(k, v),
{
    let a = k + w0;
    let c = seq!['"'] + v + seq!['"'];
    let b = w1 + c;
    let l = k + w0 + seq!['='] + w1 + seq!['"'] + v + seq!['"'];
    assert(l =~= a + seq!['='] + b);
    assert(l[0] == k[0]);
    assert(l.last() == '"');
    assert(!is_white('"'));
    lemma_trim_unchanged(l);
    assert(!a.contains('=')) by {
        if a.contains('=') {
            let i = choose|i: int| 0 <= i < a.len() && a[i] == '=';
            if i < k.len() {
                assert(k[i] == '=');
            } else {
                assert(w0[i - k.len()] == a[i]);
                assert(is_white(w0[i - k.len()]));
            }
        }
    }
    lemma_split_at_eq(a, b);
    // the key: trailing whitespace goes, the key itself stays
    assert(trim_start(a) == a);
    assert forall|j: int| k.len() <= j < a.len() implies is_white(#[trigger] a[j]) by {
        assert(a[j] == w0[j - k.len()]);
    }
    lemma_trim_end_take(a, k.len() as int);
    assert(a.take(k.len() as int) =~= k);
    assert(trim_end(k) == k);
    assert(trim(a) == k);
    // the value: leading whitespace goes, the quotes come off
    assert forall|j: int| 0 <= j < w1.len() implies is_white(#[trigger] b[j]) by {
        assert(b[j] == w1[j]);
    }
    lemma_trim_start_skip(b, w1.len() as int);
    assert(b.skip(w1.len() as int) =~= c);
    assert(trim_start(c) == c);
    assert(trim_end(c) == c);
    assert(trim(b) == c);
    assert(c.subrange(1, c.len() - 1) =~= v);
}

/// A rendered entry line reads back as that entry.
proof fn lemma_entry_line(k: Seq<char>, v: Seq<char>)
    requires
        plain_key(k),
    ensures
        classify(trim(entry_line(k, v))) == Line::Entry(k, v),
{
    reveal_strlit(" = \"");
    reveal_strlit("\"");
    let l = entry_line(k, v);
    let b = seq![' ', '"'] + v + seq!['"'];
    lemma_quoted_value(v);
    if k.len() > 0 {
        lemma_trimmed_edges(k);
        let a = k + seq![' '];
        assert(l =~= a + seq!['='] + b);
        assert(l[0] == k[0]);
        assert(l.last() == '"');
        lemma_trim_unchanged(l);
        assert(!a.contains('=')) by {
            if a.contains('=') {
                let i = choose|i: int| 0 <= i < a.len() && a[i] == '=';
                assert(k[i] == '=');
            }
        }
        lemma_split_at_eq(a, b);
        assert(a.drop_last() =~= k);
        assert(trim_start(a) == a);
        assert(is_white(a.last()));
        assert(trim_end(a) == trim_end(k));
        assert(trim_start(k) == k);
        assert(trim(a) == k);
    } else {
        let t = seq!['='] + b;
        assert(l =~= seq![' '] + t);
        assert(l.drop_first() =~= t);
        assert(trim_start(l) == trim_start(t));
        assert(trim_start(t) == t);
        assert(trim_end(t) == t);
        let a = Seq::<char>::empty();
        assert(t =~= a + seq!['='] + b);
        lemma_split_at_eq(a, b);
        assert(trim(a) =~= k);
    }
}

/// The lines of a rendered manifest.
proof fn lemma_render_lines(m: ManifestView)
    requires
        round_trippable(m),
    ensures
        lines(render_manifest(m)) == head_lines(m) + dep_lines(m.deps),
{
    reveal_strlit("[package]\nname = \"");
    reveal_strlit("\"\nversion = \"");
    reveal_strlit("\"\ndescription = \"");
    reveal_strlit("\"\n\n[dependencies]\n");
    reveal_strlit("[package]");
    reveal_strlit("name");
    reveal_strlit("version");
    reveal_strlit("description");
    reveal_strlit("[dependencies]");
    reveal_strlit(" = \"");
    reveal_strlit("\"");
    reveal_strlit("\"\n");
    let h = head_lines(m);
    let d = dep_lines(m.deps);
    lemma_render_deps_join(m.deps);
    assert(join_lines(h) =~= "[package]\nname = \""@ + m.name + "\"\nversion = \""@ + m.version
        + "\"\ndescription = \""@ + m.description + "\"\n\n[dependencies]\n"@) by {
        reveal_with_fuel(join_lines, 7);
    }
    lemma_join_add(h, d);
    assert(render_manifest(m) == join_lines(h + d));
    let all = h + d;
    assert forall|i: int| 0 <= i < all.len() implies no_newline(#[trigger] all[i]) by {
        if i < 6 {
            assert(all[i] == h[i]);
            assert forall|j: int| 0 <= j < all[i].len() implies all[i][j] != '\n' by {
                if i == 1 {
                    assert(all[i] =~= "name"@ + " = \""@ + m.name + "\""@);
                } else if i == 2 {
                    assert(all[i] =~= "version"@ + " = \""@ + m.version + "\""@);
                } else if i == 3 {
                    assert(all[i] =~= "description"@ + " = \""@ + m.description + "\""@);
                }
            }
        } else {
            let e = m.deps[i - 6];
            assert(all[i] == d[i - 6]);
            assert(plain_key(e.0) && no_newline(e.1));
            assert forall|j: int| 0 <= j < all[i].len() implies all[i][j] != '\n' by {
                assert(all[i] =~= e.0 + " = \""@ + e.1 + "\""@);
            }
        }
    }
    lemma_lines_of_join(all);
}

/// The dependency section is the join of its lines.
proof fn lemma_render_deps_join(es: EntriesView)
    ensures
        render_deps(es) == join_lines(dep_lines(es)),
    decreases es.len(),
{
    reveal_strlit(" = \"");
    reveal_strlit("\"");
    reveal_strlit("\"\n");
    if es.len() > 0 {
        lemma_render_deps_join(es.drop_last());
        assert(dep_lines(es).drop_last() =~= dep_lines(es.drop_last()));
        assert(dep_lines(es).last() == entry_line(es.last().0, es.last().1));
        assert(render_deps(es) =~= join_lines(dep_lines(es)));
    } else {
        assert(dep_lines(es) =~= Seq::<Seq<char>>::empty());
    }
}

/// The state after the header lines.
pub open spec fn head_state(m: ManifestView) -> Scan {
    Scan {
        section: "dependencies"@,
        name: m.name,
        version: m.version,
        description: m.description,
        deps: Seq::empty(),
    }
}

/// Scanning the header lines records name, version and description.
proof fn lemma_scan_head(m: ManifestView, ls: Seq<Seq<char>>)
    requires
        round_trippable(m),
        ls.len() >= 6,
        ls.take(6) == head_lines(m),
    ensures
        scan(ls, 6) == Ok::<Scan, nat>(head_state(m)),
{
    reveal_strlit("[package]");
    reveal_strlit("package");
    reveal_strlit("name");
    reveal_strlit("version");
    reveal_strlit("description");
    reveal_strlit("[dependencies]");
    reveal_strlit("dependencies");
    let h = head_lines(m);
    assert forall|i: int| 0 <= i < 6 implies ls[i] == h[i] by {
        assert(ls.take(6)[i] == ls[i]);
    }
    // [package]
    let p = "[package]"@;
    lemma_trim_unchanged(p);
    assert(p.subrange(1, p.len() - 1) =~= "package"@);
    lemma_trim_unchanged("package"@);
    assert(classify(trim(ls[0])) == Line::Section("package"@));
    // name, version, description
    assert(plain_key("name"@)) by {
        lemma_trim_unchanged("name"@);
    }
    assert(plain_key("version"@)) by {
        lemma_trim_unchanged("version"@);
    }
    assert(plain_key("description"@)) by {
        lemma_trim_unchanged("description"@);
    }
    lemma_entry_line("name"@, m.name);
    lemma_entry_line("version"@, m.version);
    lemma_entry_line("description"@, m.description);
    // blank line
    assert(trim(Seq::<char>::empty()) == Seq::<char>::empty());
    // [dependencies]
    let q = "[dependencies]"@;
    lemma_trim_unchanged(q);
    assert(q.subrange(1, q.len() - 1) =~= "dependencies"@);
    lemma_trim_unchanged("dependencies"@);
    let s0 = scan_start();
    let s1 = Scan { section: "package"@, ..s0 };
    let s2 = Scan { name: m.name, ..s1 };
    let s3 = Scan { version: m.version, ..s2 };
    let s4 = Scan { description: m.description, ..s3 };
    let s6 = Scan { section: "dependencies"@, ..s4 };
    assert("name"@ != "version"@);
    assert("name"@ != "description"@);
    assert("version"@ != "description"@);
    assert(scan(ls, 0) == Ok::<Scan, nat>(s0));
    assert(scan(ls, 1) == Ok::<Scan, nat>(s1));
    assert(scan(ls, 2) == Ok::<Scan, nat>(s2));
    assert(scan(ls, 3) == Ok::<Scan, nat>(s3));
    assert(scan(ls, 4) == Ok::<Scan, nat>(s4));
    assert(scan(ls, 5) == Ok::<Scan, nat>(s4));
    assert(scan(ls, 6) == Ok::<Scan, nat>(s6));
    assert(s6 =~= head_state(m));
}

/// Scanning the dependency lines records the entries in order.
proof fn lemma_scan_deps(m: ManifestView, ls: Seq<Seq<char>>, j: nat)
    requires
        round_trippable(m),
        ls == head_lines(m) + dep_lines(m.deps),
        j <= m.deps.len(),
    ensures
        scan(ls, 6 + j) == Ok::<Scan, nat>(Scan { deps: m.deps.take(j as int), ..head_state(m) }),
    decreases j,
{
    reveal_strlit("package");
    reveal_strlit("dependencies");
    if j == 0 {
        assert(ls.take(6) =~= head_lines(m));
        lemma_scan_head(m, ls);
        assert(m.deps.take(0) =~= Seq::<(Seq<char>, Seq<char>)>::empty());
        assert(Scan { deps: m.deps.take(0), ..head_state(m) } =~= head_state(m));
    } else {
        let i = (j - 1) as int;
        lemma_scan_deps(m, ls, (j - 1) as nat);
        let e = m.deps[i];
        assert(plain_key(e.0));
        assert(ls[6 + i] == entry_line(e.0, e.1));
        lemma_entry_line(e.0, e.1);
        let before = m.deps.take(i);
        assert(!has_key(before, e.0)) by {
            if has_key(before, e.0) {
                let p = key_pos(before, e.0);
                assert(m.deps[p].0 != m.deps[i].0);
            }
        }
        assert(insert_entry(before, e.0, e.1) =~= m.deps.take(j as int));
        assert("dependencies"@.len() != "package"@.len());
        assert("dependencies"@ != "package"@);
        assert((6 + j - 1) as nat == (6 + i) as nat);
    }
}

/// Rendering a manifest and parsing the text gives the manifest back, for every
/// manifest whose text fields hold no newline, whose name and version are given
/// and whose dependency names are plain.
pub proof fn law_parse_serialize_roundtrip(m: ManifestView)
    requires
        round_trippable(m),
    ensures
        parse_manifest(render_manifest(m)) == Ok::<ManifestView, Seq<char>>(m),
{
    lemma_render_lines(m);
    let ls = head_lines(m) + dep_lines(m.deps);
    lemma_scan_deps(m, ls, m.deps.len());
    assert(m.deps.take(m.deps.len() as int) =~= m.deps);
    assert(ls.len() == 6 + m.deps.len());
}

/// The lines of the `[package]` section.
pub open spec fn package_lines(m: ManifestView) -> Seq<Seq<char>> {
    seq![
        "[package]"@,
        entry_line("name"@, m.name),
        entry_line("version"@, m.version),
        entry_line("description"@, m.description),
    ]
}

/// A manifest text with the `[dependencies]` section before the `[package]` section.
pub open spec fn deps_first_lines(m: ManifestView) -> Seq<Seq<char>> {
    seq!["[dependencies]"@] + dep_lines(m.deps) + package_lines(m)
}

/// Scanning a block of dependency lines under `[dependencies]` records them in order.
proof fn lemma_scan_dep_block(ls: Seq<Seq<char>>, off: nat, st: Scan, es: EntriesView, j: nat)
    requires
        scan(ls, off) == Ok::<Scan, nat>(st),
        st.section == "dependencies"@,
        st.deps == Seq::<(Seq<char>, Seq<char>)>::empty(),
        keys_distinct(es),
        forall|i: int| 0 <= i < es.len() ==> plain_key((#[trigger] es[i]).0),
        off + es.len() <= ls.len(),
        forall|i: int| 0 <= i < es.len() ==> ls[off + i] == entry_line((#[trigger] es[i]).0, es[i].1),
        j <= es.len(),
    ensures
        scan(ls, off + j) == Ok::<Scan, nat>(Scan { deps: es.take(j as int), ..st }),
    decreases j,
{
    reveal_strlit("package");
    reveal_strlit("dependencies");
    if j == 0 {
        assert(es.take(0) =~= Seq::<(Seq<char>, Seq<char>)>::empty());
        assert(Scan { deps: es.take(0), ..st } =~= st);
    } else {
        let i = (j - 1) as int;
        lemma_scan_dep_block(ls, off, st, es, (j - 1) as nat);
        let e = es[i];
        assert(plain_key(e.0));
        assert(ls[off + i] == entry_line(e.0, e.1));
        lemma_entry_line(e.0, e.1);
        let before = es.take(i);
        assert(!has_key(before, e.0)) by {
            if has_key(before, e.0) {
                let p = key_pos(before, e.0);
                assert(es[p].0 != es[i].0);
            }
        }
        assert(insert_entry(before, e.0, e.1) =~= es.take(j as int));
        assert("dependencies"@.len() != "package"@.len());
        assert("dependencies"@ != "package"@);
        assert((off + j - 1) as nat == (off + i) as nat);
    }
}

/// Scanning the `[package]` section records name, version and description and keeps
/// the dependencies recorded before.
proof fn lemma_scan_package_block(ls: Seq<Seq<char>>, off: nat, st: Scan, m: ManifestView)
    requires
        scan(ls, off) == Ok::<Scan, nat>(st),
        off + 4 <= ls.len(),
        forall|i: int| 0 <= i < 4 ==> ls[off + i] == #[trigger] package_lines(m)[i],
    ensures
        scan(ls, off + 4) == Ok::<Scan, nat>(
            Scan {
                section: "package"@,
                name: m.name,
                version: m.version,
                description: m.description,
                deps: st.deps,
            },
        ),
{
    reveal_strlit("[package]");
    reveal_strlit("package");
    reveal_strlit("name");
    reveal_strlit("version");
    reveal_strlit("description");
    let pl = package_lines(m);
    assert(ls[off + 0int] == pl[0]);
    assert(ls[off + 1int] == pl[1]);
    assert(ls[off + 2int] == pl[2]);
    assert(ls[off + 3int] == pl[3]);
    let p = "[package]"@;
    lemma_trim_unchanged(p);
    assert(p.subrange(1, p.len() - 1) =~= "package"@);
    lemma_trim_unchanged("package"@);
    assert(plain_key("name"@)) by {
        lemma_trim_unchanged("name"@);
    }
    assert(plain_key("version"@)) by {
        lemma_trim_unchanged("version"@);
    }
    assert(plain_key("description"@)) by {
        lemma_trim_unchanged("description"@);
    }
    lemma_entry_line("name"@, m.name);
    lemma_entry_line("version"@, m.version);
    lemma_entry_line("description"@, m.description);
    assert("name"@ != "version"@);
    assert("name"@ != "description"@);
    assert("version"@ != "description"@);
    let s1 = Scan { section: "package"@, ..st };
    let s2 = Scan { name: m.name, ..s1 };
    let s3 = Scan { version: m.version, ..s2 };
    let s4 = Scan { description: m.description, ..s3 };
    assert(scan(ls, off + 1) == Ok::<Scan, nat>(s1));
    assert(scan(ls, off + 2) == Ok::<Scan, nat>(s2));
    assert(scan(ls, off + 3) == Ok::<Scan, nat>(s3));
    assert(scan(ls, off + 4) == Ok::<Scan, nat>(s4));
}

/// The order of the sections does not matter: a manifest written with its
/// `[dependencies]` section first parses to the same manifest, every dependency
/// recorded though no package name was seen yet.
pub proof fn law_section_order_irrelevant(m: ManifestView)
    requires
        round_trippable(m),
    ensures
        parse_manifest(join_lines(deps_first_lines(m))) == Ok::<ManifestView, Seq<char>>(m),
{
    reveal_strlit("[dependencies]");
    reveal_strlit("dependencies");
    reveal_strlit("[package]");
    reveal_strlit("name");
    reveal_strlit("version");
    reveal_strlit("description");
    reveal_strlit(" = \"");
    reveal_strlit("\"");
    let ls = deps_first_lines(m);
    let d = dep_lines(m.deps);
    let n = m.deps.len();
    assert(ls.len() == 1 + n + 4);
    assert forall|i: int| 0 <= i < ls.len() implies no_newline(#[trigger] ls[i]) by {
        if i == 0 {
        } else if i < 1 + n {
            let e = m.deps[i - 1];
            assert(ls[i] == d[i - 1]);
            assert(plain_key(e.0) && no_newline(e.1));
            assert forall|j: int| 0 <= j < ls[i].len() implies ls[i][j] != '\n' by {
                assert(ls[i] =~= e.0 + " = \""@ + e.1 + "\""@);
            }
        } else {
            let pl = package_lines(m);
            assert(ls[i] == pl[i - 1 - n]);
            assert forall|j: int| 0 <= j < ls[i].len() implies ls[i][j] != '\n' by {
                if i - 1 - n == 1 {
                    assert(ls[i] =~= "name"@ + " = \""@ + m.name + "\""@);
                } else if i - 1 - n == 2 {
                    assert(ls[i] =~= "version"@ + " = \""@ + m.version + "\""@);
                } else if i - 1 - n == 3 {
                    assert(ls[i] =~= "description"@ + " = \""@ + m.description + "\""@);
                }
            }
        }
    }
    lemma_lines_of_join(ls);
    // [dependencies]
    let q = "[dependencies]"@;
    lemma_trim_unchanged(q);
    assert(q.subrange(1, q.len() - 1) =~= "dependencies"@);
    lemma_trim_unchanged("dependencies"@);
    assert(ls[0] == q);
    let s1 = Scan { section: "dependencies"@, ..scan_start() };
    assert(trim(ls[0]) == q);
    assert(q[0] == '[' && q.last() == ']');
    assert(classify(q) == Line::Section("dependencies"@));
    assert(scan(ls, 0) == Ok::<Scan, nat>(scan_start()));
    assert(apply(scan_start(), Line::Section("dependencies"@)) == Some(s1));
    assert(scan(ls, 1) == Ok::<Scan, nat>(s1));
    assert forall|i: int| 0 <= i < n implies ls[1 + i] == entry_line((#[trigger] m.deps[i]).0, m.deps[i].1) by {
        assert(ls[1 + i] == d[i]);
    }
    lemma_scan_dep_block(ls, 1, s1, m.deps, n);
    assert(m.deps.take(n as int) =~= m.deps);
    let s2 = Scan { deps: m.deps, ..s1 };
    assert(scan(ls, (1 + n) as nat) == Ok::<Scan, nat>(s2));
    assert forall|i: int| 0 <= i < 4 implies ls[(1 + n) + i] == #[trigger] package_lines(m)[i] by {}
    lemma_scan_package_block(ls, (1 + n) as nat, s2, m);
    assert(((1 + n) + 4) as nat == ls.len());
}

} // verus!
