//! The registry index: lookup by name, search, and the text that `info`
//! shows for a package.

use vstd::prelude::*;
use crate::paths::{file_name, file_name_of};
use crate::text::{contains, chars_of, contains_seq, occurs_at, decimal, decimal_string, eq_ignore_case, str_eq, str_eq_ignore_ascii_case};
use crate::types::{McpSpec, PackageMeta, RegistryIndex};
use crate::placeholder::strings_view;

verus! {

/// The first package at or after `i` whose name matches `name`, ASCII
/// letter case ignored.
pub open spec fn package_index_from(s: Seq<PackageMeta>, name: Seq<char>, i: int) -> Option<int>
    decreases s.len() - i,
{
    if i < 0 || i >= s.len() {
        None
    } else if eq_ignore_case(s[i].name@, name) {
        Some(i)
    } else {
        package_index_from(s, name, i + 1)
    }
}

/// The first package whose name matches `name`, ASCII letter case ignored.
pub open spec fn package_index(s: Seq<PackageMeta>, name: Seq<char>) -> Option<int> {
    package_index_from(s, name, 0)
}

/// `package_index_from` finds the first matching package.
pub proof fn lemma_package_index_from(s: Seq<PackageMeta>, name: Seq<char>, i: int)
    requires
        0 <= i,
    ensures
        package_index_from(s, name, i) matches Some(j) ==> i <= j < s.len() && eq_ignore_case(
            s[j].name@,
            name,
        ),
        package_index_from(s, name, i) is None <==> forall|m: int|
            i <= m < s.len() ==> !eq_ignore_case(#[trigger] s[m].name@, name),
    decreases s.len() - i,
{
    if i < s.len() && !eq_ignore_case(s[i].name@, name) {
        lemma_package_index_from(s, name, i + 1);
    }
}

/// The package whose name matches `name`, ASCII letter case ignored; the
/// first one if several do.
pub fn find_package<'a>(index: &'a RegistryIndex, name: &str) -> (res: Option<&'a PackageMeta>)
    ensures
        res matches Some(p) ==> package_index(index.packages@, name@) matches Some(i) && *p
            == index.packages@[i],
        res is None ==> package_index(index.packages@, name@) is None,
{
    let mut i: usize = 0;
    while i < index.packages.len()
        invariant
            i <= index.packages.len(),
            package_index(index.packages@, name@) == package_index_from(
                index.packages@,
                name@,
                i as int,
            ),
        decreases index.packages.len() - i,
    {
        if str_eq_ignore_ascii_case(index.packages[i].name.as_str(), name) {
            return Some(&index.packages[i]);
        }
        i = i + 1;
    }
    None
}

/// What `str::to_lowercase` returns for `s`: its lower-case form as the
/// Unicode `Lowercase` property defines it.
pub uninterp spec fn unicode_lowercase(s: Seq<char>) -> Seq<char>;

/// `str::to_lowercase`. The contract claims that the result is
/// `unicode_lowercase` of the argument, a function of the text alone, and
/// that the empty text stays empty.
#[verifier::external_body]
fn to_lowercase(s: &str) -> (res: String)
    ensures
        res@ == unicode_lowercase(s@),
        s@.len() == 0 ==> res@.len() == 0,
{
    s.to_lowercase()
}

/// The display name of a package, or the empty text when it has none.
pub open spec fn display_or_empty(p: PackageMeta) -> Seq<char> {
    match p.display_name {
        Some(d) => d@,
        None => seq![],
    }
}

/// A package matches a search when the lower-case query occurs in the
/// lower-case name, display name or description.
pub open spec fn lowered_match(name_l: Seq<char>, display_l: Seq<char>, desc_l: Seq<char>, query_l: Seq<char>) -> bool {
    contains_seq(name_l, query_l) || contains_seq(display_l, query_l) || contains_seq(desc_l, query_l)
}

/// Whether the lower-cased query occurs in one of the lower-cased fields.
pub fn lowered_fields_match(name_l: &str, display_l: &str, desc_l: &str, query_l: &str) -> (res: bool)
    ensures
        res == lowered_match(name_l@, display_l@, desc_l@, query_l@),
{
    let q = chars_of(query_l);
    contains(chars_of(name_l).as_slice(), q.as_slice()) || contains(
        chars_of(display_l).as_slice(),
        q.as_slice(),
    ) || contains(chars_of(desc_l).as_slice(), q.as_slice())
}

/// A package matches the search `query`, letter case ignored.
pub open spec fn search_hit(p: PackageMeta, query: Seq<char>) -> bool {
    lowered_match(
        unicode_lowercase(p.name@),
        unicode_lowercase(display_or_empty(p)),
        unicode_lowercase(p.description@),
        unicode_lowercase(query),
    )
}

/// The test that keeps a package that `query` finds.
pub open spec fn hit_by(query: Seq<char>) -> spec_fn(PackageMeta) -> bool {
    |p: PackageMeta| search_hit(p, query)
}

/// The packages whose name, display name or description contain `query`,
/// letter case ignored, in index order. The empty query finds every package.
pub fn search_packages<'a>(index: &'a RegistryIndex, query: &str) -> (res: Vec<&'a PackageMeta>)
    ensures
        res@.map_values(|r: &PackageMeta| *r) == index.packages@.filter(hit_by(query@)),
        query@.len() == 0 ==> res@.len() == index.packages@.len(),
{
    let ql = to_lowercase(query);
    let mut out: Vec<&'a PackageMeta> = Vec::new();
    let ghost all = index.packages@;
    let ghost pred = hit_by(query@);
    let mut i: usize = 0;
    proof {
        reveal(Seq::filter);
    }
    assert(out@.map_values(|r: &PackageMeta| *r) =~= all.take(0).filter(pred));
    while i < index.packages.len()
        invariant
            i <= index.packages.len(),
            all == index.packages@,
            pred == hit_by(query@),
            ql@ == unicode_lowercase(query@),
            query@.len() == 0 ==> ql@.len() == 0,
            query@.len() == 0 ==> out@.len() == i,
            out@.map_values(|r: &PackageMeta| *r) == all.take(i as int).filter(pred),
        decreases index.packages.len() - i,
    {
        let p = &index.packages[i];
        let nl = to_lowercase(p.name.as_str());
        let dl = match &p.display_name {
            Some(d) => to_lowercase(d.as_str()),
            None => to_lowercase(""),
        };
        proof {
            if p.display_name is None {
                assert(""@ =~= Seq::<char>::empty()) by {
                    reveal_strlit("");
                }
            }
        }
        let el = to_lowercase(p.description.as_str());
        let hit = lowered_fields_match(nl.as_str(), dl.as_str(), el.as_str(), ql.as_str());
        proof {
            if query@.len() == 0 {
                assert(nl@.subrange(0, 0) =~= ql@);
                assert(occurs_at(nl@, ql@, 0));
            }
        }
        assert(hit == pred(all[i as int]));
        proof {
            reveal(Seq::filter);
            assert(all.take(i + 1).drop_last() =~= all.take(i as int));
            assert(all.take(i + 1).last() == all[i as int]);
        }
        if hit {
            let ghost before = out@;
            out.push(p);
            assert(out@.map_values(|r: &PackageMeta| *r) =~= before.map_values(
                |r: &PackageMeta| *r,
            ).push(*p));
        }
        i = i + 1;
    }
    assert(all.take(i as int) =~= all);
    out
}

/// A package is a search hit exactly when the lower-cased query occurs
/// anywhere (not only at the start) in its lower-cased name, display name or
/// description; every package of the index for which it does is among the
/// results.
pub proof fn law_search_finds_contained_text(pkgs: Seq<PackageMeta>, p: PackageMeta, q: Seq<char>)
    ensures
        search_hit(p, q) <==> (contains_seq(unicode_lowercase(p.name@), unicode_lowercase(q))
            || contains_seq(unicode_lowercase(display_or_empty(p)), unicode_lowercase(q))
            || contains_seq(unicode_lowercase(p.description@), unicode_lowercase(q))),
        pkgs.contains(p) && contains_seq(unicode_lowercase(p.name@), unicode_lowercase(q))
            ==> pkgs.filter(hit_by(q)).contains(p),
{
    if pkgs.contains(p) && contains_seq(unicode_lowercase(p.name@), unicode_lowercase(q)) {
        let i = choose|i: int| 0 <= i < pkgs.len() && pkgs[i] == p;
        pkgs.lemma_filter_contains(hit_by(q), i);
    }
}

/// Whether `path` names the cache of the official online index: its file
/// name is `official-index.json`.
pub fn is_official_index_path(path: &str) -> (res: bool)
    ensures
        res == (file_name(path@) == Some("official-index.json"@)),
{
    match file_name_of(path) {
        Some(n) => str_eq(n.as_str(), "official-index.json"),
        None => false,
    }
}

/// The texts of `list` with `sep` between each two.
pub open spec fn join_with(list: Seq<Seq<char>>, sep: Seq<char>) -> Seq<char>
    decreases list.len(),
{
    if list.len() == 0 {
        seq![]
    } else if list.len() == 1 {
        list[0]
    } else {
        join_with(list.drop_last(), sep) + sep + list.last()
    }
}

/// The strings of `list` with `sep` between each two (`[String]::join`).
pub fn join_strings(list: &Vec<String>, sep: &str) -> (res: String)
    ensures
        res@ == join_with(strings_view(list@), sep@),
{
    let mut out = String::new();
    let ghost l = strings_view(list@);
    let mut i: usize = 0;
    assert(out@ =~= join_with(l.take(0), sep@));
    while i < list.len()
        invariant
            i <= list.len(),
            l == strings_view(list@),
            out@ == join_with(l.take(i as int), sep@),
        decreases list.len() - i,
    {
        assert(l.take(i + 1).drop_last() =~= l.take(i as int));
        assert(l.take(i + 1).last() == list@[i as int]@);
        if i > 0 {
            out.append(sep);
        } else {
            assert(out@ =~= Seq::<char>::empty());
        }
        out.append(list[i].as_str());
        i = i + 1;
    }
    assert(l.take(i as int) =~= l);
    out
}

/// `label`, the value and a line break, when there is a value.
pub open spec fn opt_line(label: Seq<char>, v: Option<String>) -> Seq<char> {
    match v {
        Some(x) => label + x@ + "\n"@,
        None => seq![],
    }
}

/// One `    - ` line per setup command.
pub open spec fn bullet_lines(cmds: Seq<Seq<char>>) -> Seq<char>
    decreases cmds.len(),
{
    if cmds.len() == 0 {
        seq![]
    } else {
        bullet_lines(cmds.drop_last()) + "    - "@ + cmds.last() + "\n"@
    }
}

/// The setup section of `info`: nothing when there are no commands.
pub open spec fn setup_lines(cmds: Seq<Seq<char>>) -> Seq<char> {
    if cmds.len() == 0 {
        seq![]
    } else {
        "  setup:\n"@ + bullet_lines(cmds)
    }
}

/// The MCP section of `info` for package `name`.
pub open spec fn mcp_lines(m: McpSpec, name: Seq<char>) -> Seq<char> {
    let id = match m.id {
        Some(x) => x@,
        None => name,
    };
    let args = if m.args@.len() > 0 {
        "  args: "@ + join_with(strings_view(m.args@), " "@) + "\n"@
    } else {
        seq![]
    };
    let timeout = match m.timeout_seconds {
        Some(t) => "  timeout_seconds: "@ + decimal(t as nat) + "\n"@,
        None => seq![],
    };
    "  mcp.id: "@ + id + "\n"@ + "  command: "@ + m.command@ + "\n"@ + args + timeout
}

/// The text that `info` prints for a package.
pub open spec fn rendered(p: PackageMeta) -> Seq<char> {
    let display = match p.display_name {
        Some(d) => d@,
        None => p.name@,
    };
    let head = p.name@ + " ("@ + p.kind@ + ")  "@ + display + "  v"@ + p.version@ + "\n"@;
    let desc = "  "@ + p.description@ + "\n"@;
    let mcp = match p.mcp {
        Some(m) => mcp_lines(m, p.name@),
        None => seq![],
    };
    let setup = match p.install {
        Some(i) => setup_lines(strings_view(i.setup@)),
        None => seq![],
    };
    head + desc + opt_line("  license: "@, p.license) + opt_line("  repo: "@, p.repo) + mcp + setup
        + opt_line("  homepage: "@, p.homepage)
}

/// Append `label`, the value and a line break, when there is a value.
pub fn append_opt_line(out: &mut String, label: &str, v: &Option<String>)
    ensures
        final(out)@ == old(out)@ + opt_line(label@, *v),
{
    match v {
        Some(x) => {
            out.append(label);
            out.append(x.as_str());
            out.append("\n");
            assert(final(out)@ =~= old(out)@ + (label@ + x@ + "\n"@));
        },
        None => {
            assert(out@ =~= old(out)@ + Seq::<char>::empty());
        },
    }
}

fn append_mcp_lines(out: &mut String, m: &McpSpec, name: &str)
    ensures
        final(out)@ == old(out)@ + mcp_lines(*m, name@),
{
    let ghost o = out@;
    out.append("  mcp.id: ");
    match &m.id {
        Some(x) => out.append(x.as_str()),
        None => out.append(name),
    }
    out.append("\n");
    out.append("  command: ");
    out.append(m.command.as_str());
    out.append("\n");
    let ghost before_args = out@;
    if m.args.len() > 0 {
        out.append("  args: ");
        let joined = join_strings(&m.args, " ");
        out.append(joined.as_str());
        out.append("\n");
    }
    let ghost before_timeout = out@;
    match m.timeout_seconds {
        Some(t) => {
            out.append("  timeout_seconds: ");
            let d = decimal_string(t as u128);
            out.append(d.as_str());
            out.append("\n");
        },
        None => {},
    }
    let ghost id = match &m.id {
        Some(x) => x@,
        None => name@,
    };
    let ghost args = if m.args@.len() > 0 {
        "  args: "@ + join_with(strings_view(m.args@), " "@) + "\n"@
    } else {
        seq![]
    };
    let ghost timeout = match m.timeout_seconds {
        Some(t) => "  timeout_seconds: "@ + decimal(t as nat) + "\n"@,
        None => seq![],
    };
    assert(before_args =~= o + ("  mcp.id: "@ + id + "\n"@ + "  command: "@ + m.command@ + "\n"@));
    assert(before_timeout =~= before_args + args);
    assert(out@ =~= before_timeout + timeout);
    assert(mcp_lines(*m, name@) =~= "  mcp.id: "@ + id + "\n"@ + "  command: "@ + m.command@ + "\n"@ + args + timeout);
}

fn append_setup_lines(out: &mut String, cmds: &Vec<String>)
    ensures
        final(out)@ == old(out)@ + setup_lines(strings_view(cmds@)),
{
    let ghost l = strings_view(cmds@);
    if cmds.len() == 0 {
        assert(out@ =~= old(out)@ + Seq::<char>::empty());
        return;
    }
    out.append("  setup:\n");
    let ghost base = out@;
    let mut i: usize = 0;
    assert(out@ =~= base + bullet_lines(l.take(0)));
    while i < cmds.len()
        invariant
            i <= cmds.len(),
            l == strings_view(cmds@),
            out@ == base + bullet_lines(l.take(i as int)),
        decreases cmds.len() - i,
    {
        assert(l.take(i + 1).drop_last() =~= l.take(i as int));
        assert(l.take(i + 1).last() == cmds@[i as int]@);
        out.append("    - ");
        out.append(cmds[i].as_str());
        out.append("\n");
        i = i + 1;
        assert(out@ =~= base + bullet_lines(l.take(i as int)));
    }
    assert(l.take(i as int) =~= l);
    assert(final(out)@ =~= old(out)@ + setup_lines(l));
}

/// The text that `info` prints for a package: name, type, display name and
/// version; description; then license, repository, MCP registration, setup
/// commands and homepage where the package has them.
pub fn render_package(p: &PackageMeta) -> (res: String)
    ensures
        res@ == rendered(*p),
{
    let mut out = String::new();
    out.append(p.name.as_str());
    out.append(" (");
    out.append(p.kind.as_str());
    out.append(")  ");
    match &p.display_name {
        Some(d) => out.append(d.as_str()),
        None => out.append(p.name.as_str()),
    }
    out.append("  v");
    out.append(p.version.as_str());
    out.append("\n");
    out.append("  ");
    out.append(p.description.as_str());
    out.append("\n");
    let ghost s1 = out@;
    append_opt_line(&mut out, "  license: ", &p.license);
    append_opt_line(&mut out, "  repo: ", &p.repo);
    let ghost s2 = out@;
    match &p.mcp {
        Some(m) => append_mcp_lines(&mut out, m, p.name.as_str()),
        None => {},
    }
    let ghost s3 = out@;
    match &p.install {
        Some(i) => append_setup_lines(&mut out, &i.setup),
        None => {},
    }
    let ghost s4 = out@;
    append_opt_line(&mut out, "  homepage: ", &p.homepage);
    let ghost display = match &p.display_name {
        Some(d) => d@,
        None => p.name@,
    };
    let ghost mcp = match &p.mcp {
        Some(m) => mcp_lines(*m, p.name@),
        None => seq![],
    };
    let ghost setup = match &p.install {
        Some(i) => setup_lines(strings_view(i.setup@)),
        None => seq![],
    };
    assert(s1 =~= p.name@ + " ("@ + p.kind@ + ")  "@ + display + "  v"@ + p.version@ + "\n"@ + ("  "@ + p.description@ + "\n"@));
    assert(s3 =~= s2 + mcp);
    assert(s4 =~= s3 + setup);
    assert(out@ =~= rendered(*p));
    out
}

} // verus!
