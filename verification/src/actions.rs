//! The decisions behind the commands: what to install and where, what to
//! remove, what to upgrade, what an audit flags, and which release asset a
//! self-update downloads.

use vstd::prelude::*;
use crate::error::PmError;
use crate::paths::{file_name, file_name_of, join, join_path, safe_join, is_unsafe_rel, Paths};
use crate::registry::{append_opt_line, find_package, join_strings, join_with, opt_line, package_index};
use crate::state::{installed_index, installed_position};
use crate::text::{owned, str_eq};
use crate::types::{
    copy_opt, copy_strings, mcp_env_ordered, InstalledPkg, InstalledState, PackageMeta,
    RegistryIndex,
};
use crate::placeholder::{
    pairs_view, resolution, resolution_done_within, resolution_terminates, resolve_text,
    resolve_text_within, strings_view, EnvOverrides, EnvSnapshot,
};
use crate::json::{lemma_items_view, lemma_members_view, items_view, members_view, set_field, set_member, JsonValue, JsonView};
use crate::text::{chars_of, contains, contains_seq, decimal, decimal_string, eq_ignore_case, replace, replace_all, string_of, str_eq_ignore_ascii_case};
use crate::source::white_space;
use crate::version::{version_is_newer, version_newer};

verus! {

/// Command-wide options: show what would happen without writing, and
/// answer yes to every confirmation.
#[derive(Clone, Copy)]
pub struct Options {
    pub dry_run: bool,
    pub yes: bool,
}

/// The types of package that can be installed.
pub enum InstallKind {
    Mcp,
    Skill,
    Script,
}

/// `p` has the section that its type needs, and its type can be installed.
pub open spec fn kind_supported(p: PackageMeta) -> bool {
    ||| p.kind@ == "mcp"@ && p.mcp is Some
    ||| p.kind@ == "skill"@ && p.skill is Some
    ||| p.kind@ == "script"@ && p.script is Some
}

/// The package type names differ from one another.
pub proof fn lemma_kinds_distinct()
    ensures
        "mcp"@ != "skill"@,
        "mcp"@ != "script"@,
        "skill"@ != "script"@,
{
    reveal_strlit("mcp");
    reveal_strlit("skill");
    reveal_strlit("script");
    assert("mcp"@.len() != "skill"@.len());
    assert("mcp"@.len() != "script"@.len());
    assert("skill"@.len() != "script"@.len());
}

/// The error for a package that cannot be installed: a known type whose
/// section is missing, or an unknown type.
pub open spec fn kind_error(p: PackageMeta, e: PmError) -> bool {
    let known = (p.kind@ == "mcp"@ || p.kind@ == "skill"@ || p.kind@ == "script"@);
    &&& known ==> (e matches PmError::MissingSection { package, section } && package@ == p.name@
        && section@ == p.kind@)
    &&& !known ==> (e matches PmError::UnsupportedKind { package, kind } && package@ == p.name@
        && kind@ == p.kind@)
}

/// Check that a package's type can be installed and that it has the section
/// its type needs.
pub fn ensure_supported_kind(p: &PackageMeta) -> (res: Result<InstallKind, PmError>)
    ensures
        res is Ok <==> kind_supported(*p),
        res matches Ok(k) ==> (k is Mcp <==> p.kind@ == "mcp"@) && (k is Skill <==> p.kind@
            == "skill"@) && (k is Script <==> p.kind@ == "script"@),
        res matches Err(e) ==> kind_error(*p, e),
{
    proof {
        lemma_kinds_distinct();
    }
    let k = p.kind.as_str();
    if str_eq(k, "mcp") {
        if p.mcp.is_none() {
            return Err(PmError::MissingSection { package: p.name.clone(), section: owned(k) });
        }
        Ok(InstallKind::Mcp)
    } else if str_eq(k, "skill") {
        if p.skill.is_none() {
            return Err(PmError::MissingSection { package: p.name.clone(), section: owned(k) });
        }
        Ok(InstallKind::Skill)
    } else if str_eq(k, "script") {
        if p.script.is_none() {
            return Err(PmError::MissingSection { package: p.name.clone(), section: owned(k) });
        }
        Ok(InstallKind::Script)
    } else {
        Err(PmError::UnsupportedKind { package: p.name.clone(), kind: p.kind.clone() })
    }
}

/// Check that a package is an MCP package with an `mcp` section.
pub fn ensure_m1_kind(p: &PackageMeta) -> (res: Result<(), PmError>)
    ensures
        res is Ok <==> p.kind@ == "mcp"@ && p.mcp is Some,
        p.kind@ != "mcp"@ ==> (res matches Err(PmError::NotMcpPackage { package, kind })
            && package@ == p.name@ && kind@ == p.kind@),
        p.kind@ == "mcp"@ && p.mcp is None ==> (res matches Err(
            PmError::MissingSection { package, section },
        ) && package@ == p.name@ && section@ == "mcp"@),
{
    if !str_eq(p.kind.as_str(), "mcp") {
        return Err(PmError::NotMcpPackage { package: p.name.clone(), kind: p.kind.clone() });
    }
    if p.mcp.is_none() {
        return Err(PmError::MissingSection { package: p.name.clone(), section: owned("mcp") });
    }
    Ok(())
}

/// The repository to clone: the one given on the command line, else the
/// package's.
pub open spec fn chosen_repo(p: PackageMeta, repo_override: Option<&str>) -> Option<Seq<char>> {
    match repo_override {
        Some(r) => Some(r@),
        None => match p.repo {
            Some(r) => Some(r@),
            None => None,
        },
    }
}

/// The repository to clone; fails when neither the command line nor the
/// package names one.
pub fn resolve_repo(p: &PackageMeta, repo_override: Option<&str>) -> (res: Result<String, PmError>)
    ensures
        chosen_repo(*p, repo_override) matches Some(r) ==> (res matches Ok(s) && s@ == r),
        chosen_repo(*p, repo_override) is None ==> (res matches Err(PmError::NoRepo { package })
            && package@ == p.name@),
{
    match repo_override {
        Some(r) => Ok(owned(r)),
        None => match &p.repo {
            Some(r) => Ok(r.clone()),
            None => Err(PmError::NoRepo { package: p.name.clone() }),
        },
    }
}

/// The id that an MCP package registers under: its `mcp.id`, else its name.
pub open spec fn mcp_id_of(p: PackageMeta) -> Seq<char> {
    match p.mcp {
        Some(m) => match m.id {
            Some(id) => id@,
            None => p.name@,
        },
        None => p.name@,
    }
}

/// The id that an MCP package registers under.
pub fn mcp_id(p: &PackageMeta) -> (res: String)
    ensures
        res@ == mcp_id_of(*p),
{
    match &p.mcp {
        Some(m) => match &m.id {
            Some(id) => id.clone(),
            None => p.name.clone(),
        },
        None => p.name.clone(),
    }
}

/// The entry file of a skill package: its `skill.entry`, else `SKILL.md`.
pub open spec fn skill_entry_of(p: PackageMeta) -> Seq<char> {
    match p.skill {
        Some(s) => match s.entry {
            Some(e) => e@,
            None => "SKILL.md"@,
        },
        None => "SKILL.md"@,
    }
}

/// A skill package that declares its entry file has exactly that file as
/// its entry; `SKILL.md` is used only when it declares none.
pub proof fn law_declared_skill_entry_is_used(p: PackageMeta, e: String)
    requires
        p.skill matches Some(sk) && sk.entry == Some(e),
    ensures
        skill_entry_of(p) == e@,
{
}

/// A skill package that declares no entry file has `SKILL.md` as its entry.
pub proof fn law_default_skill_entry(p: PackageMeta)
    requires
        p.skill matches Some(sk) && sk.entry is None,
    ensures
        skill_entry_of(p) == "SKILL.md"@,
{
}

/// The setup commands of a package (none when it has no `install` section).
pub open spec fn setup_of(p: PackageMeta) -> Seq<String> {
    match p.install {
        Some(i) => i.setup@,
        None => seq![],
    }
}

/// What `install` is to do for a package of the registry.
pub struct InstallPlan {
    /// The package's position in the registry index.
    pub package: usize,
    pub kind: InstallKind,
    pub repo: String,
    /// The directory to install into (for scripts, the scripts directory).
    pub target: String,
    /// The id an MCP package registers under.
    pub mcp_id: Option<String>,
    /// The entry file of a skill package.
    pub entry: Option<String>,
    /// The setup commands of an MCP package.
    pub setup: Vec<String>,
}

/// The install target of a package: `mcp-servers/<id>` for MCP packages,
/// `data/skills/<name>` for skills, `data/scripts` for scripts.
pub open spec fn install_target(paths: Paths, p: PackageMeta) -> Seq<char> {
    if p.kind@ == "mcp"@ {
        join(paths.spec_mcp_servers_dir(), mcp_id_of(p))
    } else if p.kind@ == "skill"@ {
        join(paths.spec_data_skills_dir(), p.name@)
    } else {
        paths.spec_data_scripts_dir()
    }
}

/// An MCP package whose id is absolute or climbs out with `..`, so that its
/// target would lie outside `mcp-servers`.
pub open spec fn unsafe_mcp_id(p: PackageMeta) -> bool {
    p.kind@ == "mcp"@ && is_unsafe_rel(mcp_id_of(p))
}

/// Plan the install of the registry package `name`: find it (ASCII letter
/// case ignored), check its type, choose the repository and the target. An
/// MCP id that is absolute or climbs out with `..` is refused.
pub fn install(paths: &Paths, index: &RegistryIndex, name: &str, repo_override: Option<&str>) -> (res:
    Result<InstallPlan, PmError>)
    ensures
        package_index(index.packages@, name@) is None ==> (res matches Err(
            PmError::PackageNotFound { name: n },
        ) && n@ == name@),
        package_index(index.packages@, name@) matches Some(i) ==> ({
            let p = index.packages@[i];
            &&& !kind_supported(p) ==> (res matches Err(e) && kind_error(p, e))
            &&& kind_supported(p) && chosen_repo(p, repo_override) is None ==> (res matches Err(
                PmError::NoRepo { package },
            ) && package@ == p.name@)
            &&& kind_supported(p) && chosen_repo(p, repo_override) is Some && unsafe_mcp_id(p)
                ==> (res matches Err(PmError::UnsafePath { path }) && path@ == mcp_id_of(p))
            &&& kind_supported(p) && chosen_repo(p, repo_override) is Some && !unsafe_mcp_id(p)
                ==> (res matches Ok(
                plan,
            ) && plan.package == i && plan.repo@ == chosen_repo(p, repo_override)->0
                && plan.target@ == install_target(*paths, p) && (plan.kind is Mcp <==> p.kind@
                == "mcp"@) && (plan.kind is Skill <==> p.kind@ == "skill"@) && (plan.kind is Script
                <==> p.kind@ == "script"@) && (plan.mcp_id matches Some(m) ==> m@ == mcp_id_of(p))
                && (plan.mcp_id is Some <==> p.kind@ == "mcp"@) && (plan.entry matches Some(e)
                ==> e@ == skill_entry_of(p)) && (plan.entry is Some <==> p.kind@ == "skill"@) && (
            p.kind@ == "mcp"@ ==> plan.setup@ == setup_of(p)) && (p.kind@ != "mcp"@
                ==> plan.setup@.len() == 0))
        }),
{
    proof {
        lemma_kinds_distinct();
    }
    let p = match find_index(index, name) {
        Some(i) => i,
        None => {
            return Err(PmError::PackageNotFound { name: owned(name) });
        },
    };
    let pkg = &index.packages[p];
    let kind = match ensure_supported_kind(pkg) {
        Ok(k) => k,
        Err(e) => {
            return Err(e);
        },
    };
    let repo = match resolve_repo(pkg, repo_override) {
        Ok(r) => r,
        Err(e) => {
            return Err(e);
        },
    };
    match kind {
        InstallKind::Mcp => {
            let id = mcp_id(pkg);
            let target = match safe_join(paths.mcp_servers_dir().as_str(), id.as_str()) {
                Ok(t) => t,
                Err(e) => {
                    return Err(e);
                },
            };
            let setup = match &pkg.install {
                Some(ins) => copy_strings(&ins.setup),
                None => Vec::new(),
            };
            Ok(InstallPlan {
                package: p,
                kind: InstallKind::Mcp,
                repo,
                target,
                mcp_id: Some(id),
                entry: None,
                setup,
            })
        },
        InstallKind::Skill => {
            let target = join_path(paths.data_skills_dir().as_str(), pkg.name.as_str());
            let entry = match &pkg.skill {
                Some(s) => match &s.entry {
                    Some(e) => e.clone(),
                    None => owned("SKILL.md"),
                },
                None => owned("SKILL.md"),
            };
            Ok(InstallPlan {
                package: p,
                kind: InstallKind::Skill,
                repo,
                target,
                mcp_id: None,
                entry: Some(entry),
                setup: Vec::new(),
            })
        },
        InstallKind::Script => {
            let target = paths.data_scripts_dir();
            Ok(InstallPlan {
                package: p,
                kind: InstallKind::Script,
                repo,
                target,
                mcp_id: None,
                entry: None,
                setup: Vec::new(),
            })
        },
    }
}

/// The position of the registry package whose name matches `name`.
pub fn find_index(index: &RegistryIndex, name: &str) -> (res: Option<usize>)
    ensures
        res matches Some(i) ==> package_index(index.packages@, name@) == Some(i as int) && i
            < index.packages@.len(),
        res is None ==> package_index(index.packages@, name@) is None,
{
    let mut i: usize = 0;
    while i < index.packages.len()
        invariant
            i <= index.packages.len(),
            package_index(index.packages@, name@) == crate::registry::package_index_from(
                index.packages@,
                name@,
                i as int,
            ),
        decreases index.packages.len() - i,
    {
        if crate::text::str_eq_ignore_ascii_case(index.packages[i].name.as_str(), name) {
            return Some(i);
        }
        i = i + 1;
    }
    None
}

/// Refuse a package that is already installed (its name matches an
/// installed record, ASCII letter case ignored).
pub fn ensure_not_installed(state: &InstalledState, name: &str) -> (res: Result<(), PmError>)
    ensures
        res is Ok <==> installed_index(state.installed@, name@) is None,
        res matches Err(e) ==> e matches PmError::AlreadyInstalled { package } && package@ == name@,
{
    match installed_position(state, name) {
        Some(_) => Err(PmError::AlreadyInstalled { package: owned(name) }),
        None => Ok(()),
    }
}

/// The files of a script package; refused when it lists none.
pub fn script_files(p: &PackageMeta) -> (res: Result<Vec<String>, PmError>)
    ensures
        ({
            let files = match p.script {
                Some(s) => s.files@,
                None => seq![],
            };
            &&& files.len() == 0 <==> res is Err
            &&& res matches Ok(v) ==> v@ == files
            &&& res matches Err(e) ==> (e matches PmError::NoScriptFiles { package } && package@
                == p.name@)
        }),
{
    let files = match &p.script {
        Some(s) => copy_strings(&s.files),
        None => Vec::new(),
    };
    if files.len() == 0 {
        return Err(PmError::NoScriptFiles { package: p.name.clone() });
    }
    Ok(files)
}

/// The package root inside a clone: the package's `install.path` joined
/// under `cache` (refused when it escapes), or `cache` itself when the path
/// is missing, empty or `.`.
pub open spec fn source_root_path(p: PackageMeta) -> Seq<char> {
    match p.install {
        Some(i) => match i.path {
            Some(x) => x@,
            None => "."@,
        },
        None => "."@,
    }
}

/// The package root inside the clone at `cache`.
pub fn package_source_root(cache: &str, p: &PackageMeta) -> (res: Result<String, PmError>)
    ensures
        ({
            let path = source_root_path(*p);
            &&& (path == "."@ || path.len() == 0) ==> (res matches Ok(r) && r@ == cache@)
            &&& !(path == "."@ || path.len() == 0) && is_unsafe_rel(path) ==> (res matches Err(
                PmError::UnsafePath { path: x },
            ) && x@ == path)
            &&& !(path == "."@ || path.len() == 0) && !is_unsafe_rel(path) ==> (res matches Ok(r)
                && r@ == join(cache@, path))
        }),
{
    let path = match &p.install {
        Some(i) => match &i.path {
            Some(x) => x.clone(),
            None => owned("."),
        },
        None => owned("."),
    };
    if str_eq(path.as_str(), ".") || path.as_str().is_empty() {
        return Ok(owned(cache));
    }
    safe_join(cache, path.as_str())
}

/// The MCP arguments after placeholder resolution.
pub open spec fn resolved_args(
    args: Seq<Seq<char>>,
    root: Seq<char>,
    ov: Seq<(Seq<char>, Seq<char>)>,
    env: Seq<(Seq<char>, Seq<char>)>,
) -> Seq<JsonView> {
    args.map_values(|a: Seq<char>| JsonView::Str(resolution(a, root, ov, env).0))
}

/// The warnings that resolving the arguments raises, in order.
pub open spec fn args_warnings(
    args: Seq<Seq<char>>,
    root: Seq<char>,
    ov: Seq<(Seq<char>, Seq<char>)>,
    env: Seq<(Seq<char>, Seq<char>)>,
) -> Seq<Seq<char>>
    decreases args.len(),
{
    if args.len() == 0 {
        seq![]
    } else {
        args_warnings(args.drop_last(), root, ov, env) + resolution(args.last(), root, ov, env).1
    }
}

/// The `env` object of an MCP entry: each value resolved, set in order.
pub open spec fn env_members(
    pairs: Seq<(Seq<char>, Seq<char>)>,
    root: Seq<char>,
    ov: Seq<(Seq<char>, Seq<char>)>,
    env: Seq<(Seq<char>, Seq<char>)>,
) -> Seq<(Seq<char>, JsonView)>
    decreases pairs.len(),
{
    if pairs.len() == 0 {
        seq![]
    } else {
        set_member(
            env_members(pairs.drop_last(), root, ov, env),
            pairs.last().0,
            JsonView::Str(resolution(pairs.last().1, root, ov, env).0),
        )
    }
}

/// The warnings that resolving the `env` values raises, in order.
pub open spec fn env_warnings(
    pairs: Seq<(Seq<char>, Seq<char>)>,
    root: Seq<char>,
    ov: Seq<(Seq<char>, Seq<char>)>,
    env: Seq<(Seq<char>, Seq<char>)>,
) -> Seq<Seq<char>>
    decreases pairs.len(),
{
    if pairs.len() == 0 {
        seq![]
    } else {
        env_warnings(pairs.drop_last(), root, ov, env) + resolution(pairs.last().1, root, ov, env).1
    }
}

/// Every placeholder resolution of an MCP package's command, arguments and
/// `env` values comes to an end.
pub open spec fn mcp_resolution_terminates(
    p: PackageMeta,
    root: Seq<char>,
    ov: Seq<(Seq<char>, Seq<char>)>,
    env: Seq<(Seq<char>, Seq<char>)>,
) -> bool {
    &&& p.mcp is Some
    &&& resolution_terminates(p.mcp->0.command@, root, ov, env)
    &&& forall|i: int|
        0 <= i < p.mcp->0.args@.len() ==> resolution_terminates(
            #[trigger] p.mcp->0.args@[i]@,
            root,
            ov,
            env,
        )
    &&& forall|i: int|
        0 <= i < p.mcp->0.env@.len() ==> resolution_terminates(
            (#[trigger] p.mcp->0.env@[i]).1@,
            root,
            ov,
            env,
        )
}

/// The `mcp.servers` entry of an MCP package installed at `root`.
pub open spec fn mcp_entry_view(
    p: PackageMeta,
    id: Seq<char>,
    root: Seq<char>,
    ov: Seq<(Seq<char>, Seq<char>)>,
    env: Seq<(Seq<char>, Seq<char>)>,
) -> JsonView {
    let m = p.mcp->0;
    let display = match p.display_name {
        Some(d) => d@,
        None => p.name@,
    };
    let timeout: u64 = match m.timeout_seconds {
        Some(t) => t,
        None => 60,
    };
    let enabled = match m.enabled {
        Some(e) => e,
        None => true,
    };
    JsonView::Object(
        seq![
            ("id"@, JsonView::Str(id)),
            ("display_name"@, JsonView::Str(display)),
            ("command"@, JsonView::Str(resolution(m.command@, root, ov, env).0)),
            ("args"@, JsonView::Array(resolved_args(strings_view(m.args@), root, ov, env))),
            ("env"@, JsonView::Object(env_members(pairs_view(m.env@), root, ov, env))),
            ("timeout_seconds"@, JsonView::Number(decimal(timeout as nat))),
            ("enabled"@, JsonView::Bool(enabled)),
        ],
    )
}

/// The warnings raised while building the entry: command, then arguments,
/// then `env` values.
pub open spec fn mcp_entry_warnings(
    p: PackageMeta,
    root: Seq<char>,
    ov: Seq<(Seq<char>, Seq<char>)>,
    env: Seq<(Seq<char>, Seq<char>)>,
) -> Seq<Seq<char>> {
    let m = p.mcp->0;
    resolution(m.command@, root, ov, env).1 + args_warnings(strings_view(m.args@), root, ov, env)
        + env_warnings(pairs_view(m.env@), root, ov, env)
}

/// Build the `mcp.servers` entry of an MCP package installed at `root`:
/// placeholders in the command, arguments and `env` values are resolved;
/// the timeout defaults to 60 seconds and `enabled` to true; the `env`
/// names keep the order of the package's entries, which must ascend as the
/// keys of a map do. Returns the entry and the warnings raised.
pub fn build_mcp_entry(
    p: &PackageMeta,
    id: &str,
    root: &str,
    ov: &EnvOverrides,
    env: &EnvSnapshot,
) -> (res: (JsonValue, Vec<String>))
    requires
        mcp_resolution_terminates(*p, root@, ov@, env@),
        mcp_env_ordered(*p),
    ensures
        res.0@ == mcp_entry_view(*p, id@, root@, ov@, env@),
        strings_view(res.1@) == mcp_entry_warnings(*p, root@, ov@, env@),
{
    let m = match &p.mcp {
        Some(m) => m,
        None => {
            return (JsonValue::Null, Vec::new());
        },
    };
    let (command, mut warnings) = resolve_text(m.command.as_str(), root, ov, env);
    let ghost w0 = strings_view(warnings@);
    let ghost argv = strings_view(m.args@);
    let mut args: Vec<JsonValue> = Vec::new();
    let mut i: usize = 0;
    proof {
        lemma_items_view(args@);
    }
    assert(items_view(args@) =~= resolved_args(argv.take(0), root@, ov@, env@));
    assert(strings_view(warnings@) =~= w0 + args_warnings(argv.take(0), root@, ov@, env@));
    while i < m.args.len()
        invariant
            i <= m.args.len(),
            argv == strings_view(m.args@),
            mcp_resolution_terminates(*p, root@, ov@, env@),
            p.mcp == Some(*m),
            items_view(args@) == resolved_args(argv.take(i as int), root@, ov@, env@),
            strings_view(warnings@) == w0 + args_warnings(argv.take(i as int), root@, ov@, env@),
        decreases m.args.len() - i,
    {
        assert(resolution_terminates(m.args@[i as int]@, root@, ov@, env@));
        let (v, mut w) = resolve_text(m.args[i].as_str(), root, ov, env);
        let ghost old_args = args@;
        let ghost old_w = strings_view(warnings@);
        let ghost vv = v@;
        assert(vv == resolution(argv[i as int], root@, ov@, env@).0);
        args.push(JsonValue::Str(v));
        proof {
            lemma_items_view(args@);
            lemma_items_view(old_args);
            assert(argv.take(i + 1).drop_last() =~= argv.take(i as int));
            assert(argv.take(i + 1).last() == m.args@[i as int]@);
        }
        assert(items_view(args@) =~= resolved_args(argv.take(i + 1), root@, ov@, env@)) by {
            assert forall|k: int| 0 <= k < i + 1 implies items_view(args@)[k] == resolved_args(
                argv.take(i + 1),
                root@,
                ov@,
                env@,
            )[k] by {
                if k < i {
                    assert(items_view(args@)[k] == items_view(old_args)[k]);
                    assert(argv.take(i + 1)[k] == argv.take(i as int)[k]);
                } else {
                    assert(items_view(args@)[k] == JsonView::Str(vv));
                    assert(argv.take(i + 1)[k] == argv[i as int]);
                }
            }
        }
        let ghost wv = strings_view(w@);
        warnings.append(&mut w);
        assert(strings_view(warnings@) =~= old_w + wv);
        i = i + 1;
    }
    assert(argv.take(i as int) =~= argv);
    let ghost w1 = strings_view(warnings@);
    let ghost pv = pairs_view(m.env@);
    let mut env_fields: Vec<(String, JsonValue)> = Vec::new();
    proof {
        lemma_members_view(env_fields@);
    }
    assert(members_view(env_fields@) =~= env_members(pv.take(0), root@, ov@, env@));
    assert(strings_view(warnings@) =~= w1 + env_warnings(pv.take(0), root@, ov@, env@));
    let mut j: usize = 0;
    while j < m.env.len()
        invariant
            j <= m.env.len(),
            pv == pairs_view(m.env@),
            mcp_resolution_terminates(*p, root@, ov@, env@),
            p.mcp == Some(*m),
            members_view(env_fields@) == env_members(pv.take(j as int), root@, ov@, env@),
            strings_view(warnings@) == w1 + env_warnings(pv.take(j as int), root@, ov@, env@),
        decreases m.env.len() - j,
    {
        assert(resolution_terminates(m.env@[j as int].1@, root@, ov@, env@));
        let (v, mut w) = resolve_text(m.env[j].1.as_str(), root, ov, env);
        proof {
            assert(pv.take(j + 1).drop_last() =~= pv.take(j as int));
            assert(pv.take(j + 1).last() == (m.env@[j as int].0@, m.env@[j as int].1@));
        }
        set_field(&mut env_fields, m.env[j].0.as_str(), JsonValue::Str(v));
        let ghost old_w = strings_view(warnings@);
        let ghost wv = strings_view(w@);
        warnings.append(&mut w);
        assert(strings_view(warnings@) =~= old_w + wv);
        j = j + 1;
    }
    assert(pv.take(j as int) =~= pv);
    let display = match &p.display_name {
        Some(d) => d.clone(),
        None => p.name.clone(),
    };
    let timeout: u64 = match m.timeout_seconds {
        Some(t) => t,
        None => 60,
    };
    let enabled = match m.enabled {
        Some(e) => e,
        None => true,
    };
    let mut fields: Vec<(String, JsonValue)> = Vec::new();
    let ghost av = items_view(args@);
    let ghost ev = members_view(env_fields@);
    fields.push((owned("id"), JsonValue::Str(owned(id))));
    fields.push((owned("display_name"), JsonValue::Str(display)));
    fields.push((owned("command"), JsonValue::Str(command)));
    fields.push((owned("args"), JsonValue::Array(args)));
    fields.push((owned("env"), JsonValue::Object(env_fields)));
    fields.push((owned("timeout_seconds"), JsonValue::Number(decimal_string(timeout as u128))));
    fields.push((owned("enabled"), JsonValue::Bool(enabled)));
    proof {
        lemma_members_view(fields@);
    }
    let entry = JsonValue::Object(fields);
    assert(entry@ =~= mcp_entry_view(*p, id@, root@, ov@, env@)) by {
        assert(members_view(fields@) =~= seq![
            ("id"@, JsonView::Str(id@)),
            ("display_name"@, JsonView::Str(display@)),
            ("command"@, JsonView::Str(command@)),
            ("args"@, JsonView::Array(av)),
            ("env"@, JsonView::Object(ev)),
            ("timeout_seconds"@, JsonView::Number(decimal(timeout as nat))),
            ("enabled"@, JsonView::Bool(enabled)),
        ]);
    }
    (entry, warnings)
}

/// Every placeholder resolution of an MCP package's command, arguments and
/// `env` values stops within `fuel` replacements of each stage.
pub open spec fn mcp_resolution_done_within(
    p: PackageMeta,
    root: Seq<char>,
    ov: Seq<(Seq<char>, Seq<char>)>,
    env: Seq<(Seq<char>, Seq<char>)>,
    fuel: nat,
) -> bool {
    &&& p.mcp is Some
    &&& resolution_done_within(p.mcp->0.command@, root, ov, env, fuel)
    &&& forall|i: int|
        0 <= i < p.mcp->0.args@.len() ==> resolution_done_within(
            #[trigger] p.mcp->0.args@[i]@,
            root,
            ov,
            env,
            fuel,
        )
    &&& forall|i: int|
        0 <= i < p.mcp->0.env@.len() ==> resolution_done_within(
            (#[trigger] p.mcp->0.env@[i]).1@,
            root,
            ov,
            env,
            fuel,
        )
}

/// Whether the placeholders of an MCP package resolve within `fuel`
/// replacements of each stage; when they do, `build_mcp_entry` may be
/// called on them.
pub fn mcp_resolves_within(
    p: &PackageMeta,
    root: &str,
    ov: &EnvOverrides,
    env: &EnvSnapshot,
    fuel: u64,
) -> (res: bool)
    ensures
        res == mcp_resolution_done_within(*p, root@, ov@, env@, fuel as nat),
        res ==> mcp_resolution_terminates(*p, root@, ov@, env@),
{
    let m = match &p.mcp {
        Some(m) => m,
        None => {
            return false;
        },
    };
    if resolve_text_within(m.command.as_str(), root, ov, env, fuel).is_none() {
        return false;
    }
    let mut i: usize = 0;
    while i < m.args.len()
        invariant
            i <= m.args.len(),
            p.mcp == Some(*m),
            forall|k: int| 0 <= k < i ==> resolution_done_within(
                #[trigger] m.args@[k]@,
                root@,
                ov@,
                env@,
                fuel as nat,
            ),
            forall|k: int| 0 <= k < i ==> resolution_terminates(
                #[trigger] m.args@[k]@,
                root@,
                ov@,
                env@,
            ),
        decreases m.args.len() - i,
    {
        if resolve_text_within(m.args[i].as_str(), root, ov, env, fuel).is_none() {
            return false;
        }
        i = i + 1;
    }
    let mut j: usize = 0;
    while j < m.env.len()
        invariant
            j <= m.env.len(),
            p.mcp == Some(*m),
            forall|k: int| 0 <= k < j ==> resolution_done_within(
                (#[trigger] m.env@[k]).1@,
                root@,
                ov@,
                env@,
                fuel as nat,
            ),
            forall|k: int| 0 <= k < j ==> resolution_terminates(
                (#[trigger] m.env@[k]).1@,
                root@,
                ov@,
                env@,
            ),
        decreases m.env.len() - j,
    {
        if resolve_text_within(m.env[j].1.as_str(), root, ov, env, fuel).is_none() {
            return false;
        }
        j = j + 1;
    }
    true
}

/// The record kept for a freshly installed package.
pub fn installed_record(
    p: &PackageMeta,
    source: String,
    repo: String,
    target_dir: Option<String>,
    mcp_id: Option<String>,
    files: Vec<String>,
    now: u64,
) -> (res: InstalledPkg)
    ensures
        res.name == p.name,
        res.kind == p.kind,
        res.version == p.version,
        res.source == Some(source),
        res.repo == Some(repo),
        res.commit == p.commit,
        res.installed_at == now,
        res.target_dir == target_dir,
        res.mcp_id == mcp_id,
        res.files == files,
{
    InstalledPkg {
        name: p.name.clone(),
        kind: p.kind.clone(),
        version: p.version.clone(),
        source: Some(source),
        repo: Some(repo),
        commit: copy_opt(&p.commit),
        installed_at: now,
        target_dir,
        mcp_id,
        files,
    }
}

/// Where one file of a script package comes from and goes to: the file
/// `rel` under the package root, copied into `target_dir` under its own file
/// name.
pub fn script_destination(source_root: &str, target_dir: &str, rel: &str) -> (res: Result<
    (String, String),
    PmError,
>)
    ensures
        is_unsafe_rel(rel@) ==> (res matches Err(PmError::UnsafePath { path }) && path@ == rel@),
        !is_unsafe_rel(rel@) ==> ({
            let src = join(source_root@, rel@);
            &&& file_name(src) is None ==> (res matches Err(PmError::InvalidScriptPath { path })
                && path@ == src)
            &&& file_name(src) matches Some(n) ==> (res matches Ok((a, b)) && a@ == src && b@
                == join(target_dir@, n))
        }),
{
    let src = match safe_join(source_root, rel) {
        Ok(s) => s,
        Err(e) => {
            return Err(e);
        },
    };
    match file_name_of(src.as_str()) {
        Some(n) => {
            let dest = join_path(target_dir, n.as_str());
            Ok((src, dest))
        },
        None => Err(PmError::InvalidScriptPath { path: src }),
    }
}

/// The temporary clone directory of a package: `cache/clones/<name>-<now>`.
pub fn clone_cache_dir(paths: &Paths, pkg_name: &str, now: u64) -> (res: String)
    ensures
        res@ == join(join(paths.spec_cache_dir(), "clones"@), pkg_name@ + "-"@ + decimal(
            now as nat,
        )),
{
    let mut leaf = owned(pkg_name);
    leaf.append("-");
    let d = decimal_string(now as u128);
    leaf.append(d.as_str());
    join_path(paths.cache_clones_dir().as_str(), leaf.as_str())
}

/// The file that the config is backed up to:
/// `config/.miyu-pm-backups/config.jsonc.bak.<now>.<config file name>`.
pub fn backup_file_path(paths: &Paths, now: u64) -> (res: String)
    ensures
        res@ == join(
            paths.spec_backup_dir(),
            "config.jsonc.bak."@ + decimal(now as nat) + "."@ + (match file_name(
                paths.spec_config_file(),
            ) {
                Some(n) => n,
                None => seq![],
            }),
        ),
{
    let mut leaf = owned("config.jsonc.bak.");
    let d = decimal_string(now as u128);
    leaf.append(d.as_str());
    leaf.append(".");
    let cfg = paths.config_file();
    match file_name_of(cfg.as_str()) {
        Some(n) => leaf.append(n.as_str()),
        None => {},
    }
    join_path(paths.backup_dir().as_str(), leaf.as_str())
}

/// The `mcp.servers` entry to drop when a package is removed: the recorded
/// id of an MCP package.
pub fn config_entry_to_remove(pkg: &InstalledPkg) -> (res: Option<String>)
    ensures
        res == (if pkg.kind@ == "mcp"@ {
            pkg.mcp_id
        } else {
            None
        }),
{
    if str_eq(pkg.kind.as_str(), "mcp") {
        copy_opt(&pkg.mcp_id)
    } else {
        None
    }
}

/// What removing an installed package deletes.
pub enum RemovalTarget {
    /// The directory of an MCP server.
    McpDir(String),
    /// The directory of a skill.
    SkillDir(String),
    /// The files of a script package.
    ScriptFiles(Vec<String>),
    /// Nothing.
    Nothing,
}

/// What removing `pkg` deletes: the recorded directory of an MCP or skill
/// package, the recorded files of a script package, nothing otherwise.
pub fn removal_target(pkg: &InstalledPkg) -> (res: RemovalTarget)
    ensures
        pkg.kind@ == "mcp"@ ==> match pkg.target_dir {
            Some(d) => res matches RemovalTarget::McpDir(x) && x == d,
            None => res is Nothing,
        },
        pkg.kind@ == "skill"@ ==> match pkg.target_dir {
            Some(d) => res matches RemovalTarget::SkillDir(x) && x == d,
            None => res is Nothing,
        },
        pkg.kind@ == "script"@ ==> (res matches RemovalTarget::ScriptFiles(f) && f@ == pkg.files@),
        pkg.kind@ != "mcp"@ && pkg.kind@ != "skill"@ && pkg.kind@ != "script"@ ==> res is Nothing,
{
    proof {
        lemma_kinds_distinct();
    }
    let k = pkg.kind.as_str();
    if str_eq(k, "mcp") {
        match &pkg.target_dir {
            Some(d) => RemovalTarget::McpDir(d.clone()),
            None => RemovalTarget::Nothing,
        }
    } else if str_eq(k, "skill") {
        match &pkg.target_dir {
            Some(d) => RemovalTarget::SkillDir(d.clone()),
            None => RemovalTarget::Nothing,
        }
    } else if str_eq(k, "script") {
        RemovalTarget::ScriptFiles(copy_strings(&pkg.files))
    } else {
        RemovalTarget::Nothing
    }
}

/// The positions of the installed records that `upgrade NAME...` names, in
/// the order of the names; a name that matches nothing is skipped.
pub open spec fn named_targets(s: Seq<InstalledPkg>, names: Seq<Seq<char>>) -> Seq<int>
    decreases names.len(),
{
    if names.len() == 0 {
        seq![]
    } else {
        let prev = named_targets(s, names.drop_last());
        match installed_index(s, names.last()) {
            Some(i) => prev.push(i),
            None => prev,
        }
    }
}

/// The positions of all installed records.
pub open spec fn all_positions(n: nat) -> Seq<int> {
    Seq::new(n, |i: int| i)
}

/// The records that `upgrade` works on: all of them when no name is given,
/// else those the names match; fails when that leaves none.
pub fn upgrade_targets(state: &InstalledState, names: &Vec<String>) -> (res: Result<Vec<usize>, PmError>)
    ensures
        ({
            let t = if names@.len() == 0 {
                all_positions(state.installed@.len())
            } else {
                named_targets(state.installed@, strings_view(names@))
            };
            &&& t.len() == 0 <==> res is Err
            &&& res matches Err(e) ==> e is NothingToUpgrade
            &&& res matches Ok(v) ==> v@.map_values(|i: usize| i as int) == t
        }),
{
    let mut out: Vec<usize> = Vec::new();
    if names.len() == 0 {
        let mut i: usize = 0;
        while i < state.installed.len()
            invariant
                i <= state.installed.len(),
                out@.len() == i,
                out@.map_values(|k: usize| k as int) == all_positions(i as nat),
            decreases state.installed.len() - i,
        {
            let ghost prev = out@;
            out.push(i);
            assert forall|k: int| 0 <= k < i + 1 implies out@[k] as int == k by {
                if k < i {
                    assert(out@[k] == prev[k]);
                    assert(prev.map_values(|q: usize| q as int)[k] == all_positions(i as nat)[k]);
                }
            }
            i = i + 1;
            assert(out@.map_values(|k: usize| k as int) =~= all_positions(i as nat));
        }
        assert(all_positions(i as nat) == all_positions(state.installed@.len()));
    } else {
        let ghost nv = strings_view(names@);
        let mut j: usize = 0;
        assert(out@.map_values(|k: usize| k as int) =~= named_targets(state.installed@, nv.take(0)));
        while j < names.len()
            invariant
                j <= names.len(),
                nv == strings_view(names@),
                out@.map_values(|k: usize| k as int) == named_targets(state.installed@, nv.take(j as int)),
            decreases names.len() - j,
        {
            assert(nv.take(j + 1).drop_last() =~= nv.take(j as int));
            assert(nv.take(j + 1).last() == names@[j as int]@);
            match installed_position(state, names[j].as_str()) {
                Some(k) => {
                    out.push(k);
                    assert(out@.map_values(|k: usize| k as int) =~= named_targets(
                        state.installed@,
                        nv.take(j + 1),
                    ));
                },
                None => {},
            }
            j = j + 1;
        }
        assert(nv.take(j as int) =~= nv);
    }
    if out.len() == 0 {
        return Err(PmError::NothingToUpgrade);
    }
    Ok(out)
}

/// The first record at or after `i` named exactly `name`.
pub open spec fn exact_index_from(s: Seq<InstalledPkg>, name: Seq<char>, i: int) -> Option<int>
    decreases s.len() - i,
{
    if i < 0 || i >= s.len() {
        None
    } else if s[i].name@ == name {
        Some(i)
    } else {
        exact_index_from(s, name, i + 1)
    }
}

/// After an upgrade: the first record named exactly `name` takes the
/// registry's version and the time of the upgrade.
pub fn mark_upgraded(state: &mut InstalledState, name: &str, version: &str, now: u64)
    ensures
        final(state).schema_version == old(state).schema_version,
        final(state).installed@.len() == old(state).installed@.len(),
        match exact_index_from(old(state).installed@, name@, 0) {
            Some(i) => {
                &&& final(state).installed@[i].version@ == version@
                &&& final(state).installed@[i].installed_at == now
                &&& final(state).installed@[i].name == old(state).installed@[i].name
                &&& final(state).installed@[i].kind == old(state).installed@[i].kind
                &&& final(state).installed@[i].files == old(state).installed@[i].files
                &&& final(state).installed@[i].target_dir == old(state).installed@[i].target_dir
                &&& final(state).installed@[i].mcp_id == old(state).installed@[i].mcp_id
                &&& final(state).installed@[i].repo == old(state).installed@[i].repo
                &&& final(state).installed@[i].source == old(state).installed@[i].source
                &&& final(state).installed@[i].commit == old(state).installed@[i].commit
                &&& forall|j: int|
                    0 <= j < old(state).installed@.len() && j != i ==> final(state).installed@[j]
                        == old(state).installed@[j]
            },
            None => final(state).installed@ == old(state).installed@,
        },
{
    let ghost s0 = state.installed@;
    let mut i: usize = 0;
    while i < state.installed.len()
        invariant
            i <= state.installed.len(),
            state.installed@ == s0,
            s0 == old(state).installed@,
            state.schema_version == old(state).schema_version,
            exact_index_from(s0, name@, 0) == exact_index_from(s0, name@, i as int),
        decreases state.installed.len() - i,
    {
        if str_eq(state.installed[i].name.as_str(), name) {
            let mut slot = InstalledPkg {
                name: String::new(),
                kind: String::new(),
                version: String::new(),
                source: None,
                repo: None,
                commit: None,
                installed_at: 0,
                target_dir: None,
                mcp_id: None,
                files: Vec::new(),
            };
            state.installed.set_and_swap(i, &mut slot);
            slot.version = owned(version);
            slot.installed_at = now;
            state.installed.set_and_swap(i, &mut slot);
            return;
        }
        i = i + 1;
    }
}

/// How `upgrade` refreshes one installed package.
pub enum UpgradeMethod {
    /// Pull the git checkout in `dir`, then run the setup commands.
    GitPull { dir: String, setup: Vec<String> },
    /// Copy a fresh clone of `repo` into the skill directory `dir`.
    RefreshSkill { repo: String, dir: String },
    /// Copy the recorded files afresh from a clone of `repo`.
    RefreshScripts { repo: String },
    /// A script package that records no files: skipped with a warning.
    NoRecordedFiles,
    /// A package type that `upgrade` does not handle: skipped.
    Unsupported,
}

/// The setup commands of the registry package, if there is one.
pub open spec fn registry_setup(meta: Option<&PackageMeta>) -> Seq<String> {
    match meta {
        Some(m) => setup_of(*m),
        None => seq![],
    }
}

/// How `upgrade` refreshes `pkg`, given its registry package `meta` where
/// the registry has one: an MCP checkout is pulled (it needs its recorded
/// directory), a skill is copied again from its recorded repository into its
/// recorded directory, a script package's recorded files are copied again
/// from its recorded repository; other types are skipped.
pub fn upgrade_method(pkg: &InstalledPkg, meta: Option<&PackageMeta>) -> (res: Result<
    UpgradeMethod,
    PmError,
>)
    ensures
        pkg.kind@ == "mcp"@ ==> match pkg.target_dir {
            None => res matches Err(PmError::NoTargetDir { package }) && package@ == pkg.name@,
            Some(d) => res matches Ok(UpgradeMethod::GitPull { dir, setup }) && dir == d && setup@
                == registry_setup(meta),
        },
        pkg.kind@ == "skill"@ ==> match pkg.repo {
            None => res matches Err(PmError::NoRecordedRepo { package }) && package@ == pkg.name@,
            Some(r) => match pkg.target_dir {
                None => res matches Err(PmError::NoSkillDir { package }) && package@ == pkg.name@,
                Some(d) => res matches Ok(UpgradeMethod::RefreshSkill { repo, dir }) && repo == r
                    && dir == d,
            },
        },
        pkg.kind@ == "script"@ ==> match pkg.repo {
            None => res matches Err(PmError::NoRecordedRepo { package }) && package@ == pkg.name@,
            Some(r) => if pkg.files@.len() == 0 {
                res matches Ok(UpgradeMethod::NoRecordedFiles)
            } else {
                res matches Ok(UpgradeMethod::RefreshScripts { repo }) && repo == r
            },
        },
        pkg.kind@ != "mcp"@ && pkg.kind@ != "skill"@ && pkg.kind@ != "script"@ ==> res matches Ok(
            UpgradeMethod::Unsupported,
        ),
{
    proof {
        lemma_kinds_distinct();
    }
    let k = pkg.kind.as_str();
    if str_eq(k, "mcp") {
        let dir = match &pkg.target_dir {
            Some(d) => d.clone(),
            None => {
                return Err(PmError::NoTargetDir { package: pkg.name.clone() });
            },
        };
        let setup = match meta {
            Some(m) => match &m.install {
                Some(ins) => copy_strings(&ins.setup),
                None => Vec::new(),
            },
            None => Vec::new(),
        };
        Ok(UpgradeMethod::GitPull { dir, setup })
    } else if str_eq(k, "skill") {
        let repo = match &pkg.repo {
            Some(r) => r.clone(),
            None => {
                return Err(PmError::NoRecordedRepo { package: pkg.name.clone() });
            },
        };
        let dir = match &pkg.target_dir {
            Some(d) => d.clone(),
            None => {
                return Err(PmError::NoSkillDir { package: pkg.name.clone() });
            },
        };
        Ok(UpgradeMethod::RefreshSkill { repo, dir })
    } else if str_eq(k, "script") {
        let repo = match &pkg.repo {
            Some(r) => r.clone(),
            None => {
                return Err(PmError::NoRecordedRepo { package: pkg.name.clone() });
            },
        };
        if pkg.files.len() == 0 {
            return Ok(UpgradeMethod::NoRecordedFiles);
        }
        Ok(UpgradeMethod::RefreshScripts { repo })
    } else {
        Ok(UpgradeMethod::Unsupported)
    }
}

/// Where an upgrade copies a recorded script file from: the file of the
/// same name under the package root of the fresh clone.
pub fn upgraded_script_source(source_root: &str, installed_file: &str) -> (res: Result<
    String,
    PmError,
>)
    ensures
        file_name(installed_file@) matches Some(n) ==> (res matches Ok(x) && x@ == join(
            source_root@,
            n,
        )),
        file_name(installed_file@) is None ==> (res matches Err(
            PmError::InvalidInstalledFile { path },
        ) && path@ == installed_file@),
{
    match file_name_of(installed_file) {
        Some(n) => Ok(join_path(source_root, n.as_str())),
        None => Err(PmError::InvalidInstalledFile { path: owned(installed_file) }),
    }
}

/// The words in a setup command that `audit` flags as risky, in the order
/// it checks them.
pub open spec fn risk_words() -> Seq<Seq<char>> {
    seq![
        "curl"@,
        "wget"@,
        "sudo"@,
        "chmod"@,
        "eval"@,
        "base64"@,
        "| sh"@,
        "bash -c"@,
        "rm "@,
    ]
}

/// The test that keeps a risk word found in `cmd`.
pub open spec fn found_in(cmd: Seq<char>) -> spec_fn(Seq<char>) -> bool {
    |w: Seq<char>| contains_seq(cmd, w)
}

/// The risk words that occur in a setup command, in checking order.
pub fn setup_risks(cmd: &str) -> (res: Vec<String>)
    ensures
        strings_view(res@) == risk_words().filter(found_in(cmd@)),
{
    let words: Vec<&str> = vec!["curl", "wget", "sudo", "chmod", "eval", "base64", "| sh", "bash -c", "rm "];
    let ghost wv = words@.map_values(|w: &str| w@);
    assert(wv =~= risk_words());
    let ghost pred = found_in(cmd@);
    let cs = chars_of(cmd);
    let mut out: Vec<String> = Vec::new();
    let mut i: usize = 0;
    proof {
        reveal(Seq::filter);
    }
    assert(strings_view(out@) =~= wv.take(0).filter(pred));
    while i < words.len()
        invariant
            i <= words.len(),
            cs@ == cmd@,
            pred == found_in(cmd@),
            wv == words@.map_values(|w: &str| w@),
            strings_view(out@) == wv.take(i as int).filter(pred),
        decreases words.len() - i,
    {
        let w = chars_of(words[i]);
        proof {
            reveal(Seq::filter);
            assert(wv.take(i + 1).drop_last() =~= wv.take(i as int));
            assert(wv.take(i + 1).last() == w@);
        }
        if contains(cs.as_slice(), w.as_slice()) {
            let ghost prev = strings_view(out@);
            out.push(string_of(w.as_slice()));
            assert(strings_view(out@) =~= prev.push(w@));
        }
        i = i + 1;
    }
    assert(wv.take(i as int) =~= wv);
    out
}

/// One `    ^ risk keyword: ` line per risk word found.
pub open spec fn risk_lines(words: Seq<Seq<char>>) -> Seq<char>
    decreases words.len(),
{
    if words.len() == 0 {
        seq![]
    } else {
        risk_lines(words.drop_last()) + "    ^ risk keyword: "@ + words.last() + "\n"@
    }
}

/// Each setup command on a `  setup   : ` line, followed by the risk words
/// found in it.
pub open spec fn setup_blocks(cmds: Seq<Seq<char>>) -> Seq<char>
    decreases cmds.len(),
{
    if cmds.len() == 0 {
        seq![]
    } else {
        setup_blocks(cmds.drop_last()) + "  setup   : "@ + cmds.last() + "\n"@ + risk_lines(
            risk_words().filter(found_in(cmds.last())),
        )
    }
}

/// Some setup command holds a risk word.
pub open spec fn any_risk(cmds: Seq<Seq<char>>) -> bool
    decreases cmds.len(),
{
    cmds.len() > 0 && (any_risk(cmds.drop_last()) || risk_words().filter(found_in(cmds.last())).len()
        > 0)
}

/// `cmd` holds one of the risk words.
pub open spec fn holds_risk_word(cmd: Seq<char>) -> bool {
    exists|j: int| 0 <= j < risk_words().len() && contains_seq(cmd, #[trigger] risk_words()[j])
}

/// Filtering keeps something exactly when some element passes the test.
proof fn lemma_filter_nonempty(s: Seq<Seq<char>>, pred: spec_fn(Seq<char>) -> bool)
    ensures
        s.filter(pred).len() > 0 <==> exists|i: int| 0 <= i < s.len() && pred(#[trigger] s[i]),
    decreases s.len(),
{
    reveal(Seq::filter);
    if s.len() > 0 {
        let d = s.drop_last();
        lemma_filter_nonempty(d, pred);
        if exists|i: int| 0 <= i < d.len() && pred(#[trigger] d[i]) {
            let i = choose|i: int| 0 <= i < d.len() && pred(#[trigger] d[i]);
            assert(s[i] == d[i]);
        }
        if exists|i: int| 0 <= i < s.len() && pred(#[trigger] s[i]) {
            let i = choose|i: int| 0 <= i < s.len() && pred(#[trigger] s[i]);
            if i < s.len() - 1 {
                assert(d[i] == s[i]);
            }
        }
    }
}

/// `any_risk` holds exactly when some command holds a risk word.
proof fn lemma_any_risk(cmds: Seq<Seq<char>>)
    ensures
        any_risk(cmds) <==> exists|i: int| 0 <= i < cmds.len() && holds_risk_word(
            #[trigger] cmds[i],
        ),
    decreases cmds.len(),
{
    if cmds.len() > 0 {
        let d = cmds.drop_last();
        let c = cmds.last();
        lemma_any_risk(d);
        lemma_filter_nonempty(risk_words(), found_in(c));
        assert(risk_words().filter(found_in(c)).len() > 0 <==> holds_risk_word(c)) by {
            if holds_risk_word(c) {
                let j = choose|j: int|
                    0 <= j < risk_words().len() && contains_seq(c, #[trigger] risk_words()[j]);
                assert(found_in(c)(risk_words()[j]));
            }
            if risk_words().filter(found_in(c)).len() > 0 {
                let j = choose|j: int|
                    0 <= j < risk_words().len() && found_in(c)(#[trigger] risk_words()[j]);
                assert(contains_seq(c, risk_words()[j]));
            }
        }
        if exists|i: int| 0 <= i < d.len() && holds_risk_word(#[trigger] d[i]) {
            let i = choose|i: int| 0 <= i < d.len() && holds_risk_word(#[trigger] d[i]);
            assert(cmds[i] == d[i]);
        }
        if exists|i: int| 0 <= i < cmds.len() && holds_risk_word(#[trigger] cmds[i]) {
            let i = choose|i: int| 0 <= i < cmds.len() && holds_risk_word(#[trigger] cmds[i]);
            if i < cmds.len() - 1 {
                assert(d[i] == cmds[i]);
            } else {
                assert(cmds[i] == c);
            }
        }
    }
}

/// The closing line of `audit`: it warns about the setup commands where any
/// one of them, wherever it stands in the list, holds a risk word; where
/// there are setup commands and none holds one, it says so.
pub proof fn law_audit_verdict(p: PackageMeta)
    ensures
        (exists|i: int|
            0 <= i < strings_view(setup_of(p)).len() && holds_risk_word(
                #[trigger] strings_view(setup_of(p))[i],
            )) ==> exists|pre: Seq<char>|
            audit_text(p) == pre + "  result  : review setup commands carefully\n"@,
        strings_view(setup_of(p)).len() > 0 && !(exists|i: int|
            0 <= i < strings_view(setup_of(p)).len() && holds_risk_word(
                #[trigger] strings_view(setup_of(p))[i],
            )) ==> exists|pre: Seq<char>|
            audit_text(p) == pre + "  result  : no obvious setup risk keywords\n"@,
{
    let cmds = strings_view(setup_of(p));
    lemma_any_risk(cmds);
    let head = "audit "@ + p.name@ + " (static checks only; not a security guarantee)\n"@
        + "  type    : "@ + p.kind@ + "\n"@ + "  trust   : community (unreviewed)\n"@;
    let archived = if p.archived == Some(true) {
        "  warning : archived upstream\n"@
    } else {
        seq![]
    };
    let pre = head + archived + audit_mcp_lines(p) + setup_blocks(cmds);
    if cmds.len() > 0 {
        if any_risk(cmds) {
            assert(audit_text(p) =~= pre + "  result  : review setup commands carefully\n"@);
        } else {
            assert(audit_text(p) =~= pre + "  result  : no obvious setup risk keywords\n"@);
        }
    }
}

/// The names of an MCP package's environment entries, in order.
pub open spec fn env_keys(env: Seq<(String, String)>) -> Seq<Seq<char>> {
    env.map_values(|e: (String, String)| e.0@)
}

/// The text that `audit` prints for a package: its name, type and trust;
/// a warning when it is archived upstream; its MCP command and environment
/// names; then each setup command with the risk words found in it, and a
/// verdict.
pub open spec fn audit_text(p: PackageMeta) -> Seq<char> {
    let head = "audit "@ + p.name@ + " (static checks only; not a security guarantee)\n"@
        + "  type    : "@ + p.kind@ + "\n"@ + "  trust   : community (unreviewed)\n"@;
    let archived = if p.archived == Some(true) {
        "  warning : archived upstream\n"@
    } else {
        seq![]
    };
    head + archived + audit_mcp_lines(p) + audit_setup_lines(strings_view(setup_of(p)))
}

/// The MCP lines of the audit report.
pub open spec fn audit_mcp_lines(p: PackageMeta) -> Seq<char> {
    match p.mcp {
        Some(m) => "  command : "@ + m.command@ + "\n"@ + (if m.env@.len() > 0 {
            "  env keys: "@ + join_with(env_keys(m.env@), ", "@) + "\n"@
        } else {
            seq![]
        }),
        None => seq![],
    }
}

/// The setup lines of the audit report.
pub open spec fn audit_setup_lines(cmds: Seq<Seq<char>>) -> Seq<char> {
    if cmds.len() == 0 {
        "  setup   : none\n"@
    } else {
        setup_blocks(cmds) + (if any_risk(cmds) {
            "  result  : review setup commands carefully\n"@
        } else {
            "  result  : no obvious setup risk keywords\n"@
        })
    }
}

fn append_audit_mcp(out: &mut String, p: &PackageMeta)
    ensures
        final(out)@ == old(out)@ + audit_mcp_lines(*p),
{
    match &p.mcp {
        Some(m) => {
            out.append("  command : ");
            out.append(m.command.as_str());
            out.append("\n");
            if m.env.len() > 0 {
                let mut keys: Vec<String> = Vec::new();
                let ghost ev = m.env@;
                let mut k: usize = 0;
                while k < m.env.len()
                    invariant
                        k <= m.env.len(),
                        ev == m.env@,
                        strings_view(keys@) == env_keys(ev).take(k as int),
                    decreases m.env.len() - k,
                {
                    let ghost old_keys = keys@;
                    keys.push(m.env[k].0.clone());
                    assert(strings_view(keys@) =~= strings_view(old_keys).push(ev[k as int].0@));
                    assert(env_keys(ev).take(k + 1) =~= env_keys(ev).take(k as int).push(
                        ev[k as int].0@,
                    ));
                    k = k + 1;
                }
                assert(env_keys(ev).take(k as int) =~= env_keys(ev));
                out.append("  env keys: ");
                let joined = join_strings(&keys, ", ");
                out.append(joined.as_str());
                out.append("\n");
            }
        },
        None => {},
    }
}

fn append_risk_lines(out: &mut String, found: &Vec<String>)
    ensures
        final(out)@ == old(out)@ + risk_lines(strings_view(found@)),
{
    let ghost fv = strings_view(found@);
    let ghost base = out@;
    let mut j: usize = 0;
    while j < found.len()
        invariant
            j <= found.len(),
            fv == strings_view(found@),
            out@ == base + risk_lines(fv.take(j as int)),
        decreases found.len() - j,
    {
        proof {
            assert(fv.take(j + 1).drop_last() =~= fv.take(j as int));
        }
        out.append("    ^ risk keyword: ");
        out.append(found[j].as_str());
        out.append("\n");
        j = j + 1;
    }
    assert(fv.take(j as int) =~= fv);
}

fn append_audit_setup(out: &mut String, cmds: &Vec<String>)
    ensures
        final(out)@ == old(out)@ + audit_setup_lines(strings_view(cmds@)),
{
    let ghost l = strings_view(cmds@);
    if cmds.len() == 0 {
        out.append("  setup   : none\n");
        return;
    }
    let ghost base = out@;
    let mut risk = false;
    let mut i: usize = 0;
    while i < cmds.len()
        invariant
            i <= cmds.len(),
            l == strings_view(cmds@),
            out@ == base + setup_blocks(l.take(i as int)),
            risk == any_risk(l.take(i as int)),
        decreases cmds.len() - i,
    {
        proof {
            assert(l.take(i + 1).drop_last() =~= l.take(i as int));
            assert(l.take(i + 1).last() == cmds@[i as int]@);
        }
        out.append("  setup   : ");
        out.append(cmds[i].as_str());
        out.append("\n");
        let found = setup_risks(cmds[i].as_str());
        append_risk_lines(out, &found);
        risk = risk || found.len() > 0;
        i = i + 1;
    }
    assert(l.take(i as int) =~= l);
    if risk {
        out.append("  result  : review setup commands carefully\n");
    } else {
        out.append("  result  : no obvious setup risk keywords\n");
    }
}

/// The report of `audit` for a package (static checks only); the
/// environment names are listed in the order of its `env` entries.
pub fn audit_report(p: &PackageMeta) -> (res: String)
    requires
        mcp_env_ordered(*p),
    ensures
        res@ == audit_text(*p),
{
    let mut out = owned("audit ");
    out.append(p.name.as_str());
    out.append(" (static checks only; not a security guarantee)\n");
    out.append("  type    : ");
    out.append(p.kind.as_str());
    out.append("\n");
    out.append("  trust   : community (unreviewed)\n");
    match p.archived {
        Some(true) => out.append("  warning : archived upstream\n"),
        _ => {},
    }
    append_audit_mcp(&mut out, p);
    let empty: Vec<String> = Vec::new();
    let cmds = match &p.install {
        Some(i) => &i.setup,
        None => &empty,
    };
    assert(strings_view(cmds@) == strings_view(setup_of(*p)));
    append_audit_setup(&mut out, cmds);
    out
}

/// Where a self-update looks for releases.
pub struct SelfUpdateSource {
    /// The position of the `miyu-pm` package in the registry.
    pub package: usize,
    /// The GitHub repository, `owner/name`.
    pub repo: String,
    /// The asset name pattern, with `{version}`, `{os}` and `{arch}`.
    pub asset_pattern: String,
}

/// Where a self-update looks for releases: the registry's `miyu-pm` package
/// (name matched with ASCII letter case ignored), which must be an `app`
/// with a release repository and asset pattern. `None` when the registry
/// has no such package.
pub fn self_update_source(index: &RegistryIndex) -> (res: Result<Option<SelfUpdateSource>, PmError>)
    ensures
        package_index(index.packages@, "miyu-pm"@) is None ==> res == Ok::<
            Option<SelfUpdateSource>,
            PmError,
        >(None),
        package_index(index.packages@, "miyu-pm"@) matches Some(i) ==> ({
            let p = index.packages@[i];
            &&& p.kind@ != "app"@ ==> (res matches Err(PmError::NotAnApp { kind }) && kind@
                == p.kind@)
            &&& p.kind@ == "app"@ && p.release is None ==> (res matches Err(
                PmError::NoReleaseSection,
            ))
            &&& (p.kind@ == "app"@ && p.release is Some) ==> ({
                let r = p.release->0;
                &&& r.repo is None ==> (res matches Err(PmError::NoReleaseRepo))
                &&& r.repo is Some && r.asset_pattern is None ==> (res matches Err(
                    PmError::NoAssetPattern,
                ))
                &&& (r.repo is Some && r.asset_pattern is Some) ==> (res matches Ok(Some(src))
                    && src.package == i && src.repo == r.repo->0 && src.asset_pattern
                    == r.asset_pattern->0)
            })
        }),
{
    let i = match find_index(index, "miyu-pm") {
        Some(i) => i,
        None => {
            return Ok(None);
        },
    };
    let p = &index.packages[i];
    if !str_eq(p.kind.as_str(), "app") {
        return Err(PmError::NotAnApp { kind: p.kind.clone() });
    }
    let release = match &p.release {
        Some(r) => r,
        None => {
            return Err(PmError::NoReleaseSection);
        },
    };
    let repo = match &release.repo {
        Some(r) => r.clone(),
        None => {
            return Err(PmError::NoReleaseRepo);
        },
    };
    let pattern = match &release.asset_pattern {
        Some(a) => a.clone(),
        None => {
            return Err(PmError::NoAssetPattern);
        },
    };
    Ok(Some(SelfUpdateSource { package: i, repo, asset_pattern: pattern }))
}

/// The GitHub API address of the latest release of `repo`.
pub fn release_api_url(repo: &str) -> (res: String)
    ensures
        res@ == "https://api.github.com/repos/"@ + repo@ + "/releases/latest"@,
{
    let mut out = owned("https://api.github.com/repos/");
    out.append(repo);
    out.append("/releases/latest");
    out
}

/// The files a self-update works with, all in the cache directory and
/// stamped with the time it started.
pub struct SelfUpdateFiles {
    /// The downloaded archive: `miyu-pm-self-update-<now>.tar.gz`.
    pub archive: String,
    /// Where the archive is unpacked: `miyu-pm-self-update-extract-<now>`.
    pub extract_dir: String,
    /// The new binary inside the unpacked archive.
    pub candidate: String,
    /// The copy of the running binary: `miyu-pm.bak.<now>`.
    pub backup: String,
}

/// The files of a self-update started at `now`.
pub fn self_update_files(paths: &Paths, now: u64) -> (res: SelfUpdateFiles)
    ensures
        res.archive@ == join(
            paths.spec_cache_dir(),
            "miyu-pm-self-update-"@ + decimal(now as nat) + ".tar.gz"@,
        ),
        res.extract_dir@ == join(
            paths.spec_cache_dir(),
            "miyu-pm-self-update-extract-"@ + decimal(now as nat),
        ),
        res.candidate@ == join(res.extract_dir@, "miyu-pm"@),
        res.backup@ == join(paths.spec_cache_dir(), "miyu-pm.bak."@ + decimal(now as nat)),
{
    let cache = paths.cache_dir();
    let d = decimal_string(now as u128);
    let mut a = owned("miyu-pm-self-update-");
    a.append(d.as_str());
    a.append(".tar.gz");
    let mut e = owned("miyu-pm-self-update-extract-");
    e.append(d.as_str());
    let mut b = owned("miyu-pm.bak.");
    b.append(d.as_str());
    let extract_dir = join_path(cache.as_str(), e.as_str());
    let candidate = join_path(extract_dir.as_str(), "miyu-pm");
    SelfUpdateFiles {
        archive: join_path(cache.as_str(), a.as_str()),
        extract_dir,
        candidate,
        backup: join_path(cache.as_str(), b.as_str()),
    }
}

/// `s` without its leading `c` characters (`trim_start_matches(c)`).
pub open spec fn trim_start_char(s: Seq<char>, c: char) -> Seq<char>
    decreases s.len(),
{
    if s.len() > 0 && s[0] == c {
        trim_start_char(s.drop_first(), c)
    } else {
        s
    }
}

/// The version that a release tag names: the tag without leading `v`s.
pub fn tag_version(tag: &str) -> (res: String)
    ensures
        res@ == trim_start_char(tag@, 'v'),
{
    let cs = chars_of(tag);
    let mut start: usize = 0;
    assert(cs@.skip(0) =~= cs@);
    while start < cs.len() && cs[start] == 'v'
        invariant
            start <= cs.len(),
            trim_start_char(cs@.skip(start as int), 'v') == trim_start_char(tag@, 'v'),
            cs@ == tag@,
        decreases cs.len() - start,
    {
        assert(cs@.skip(start as int).drop_first() =~= cs@.skip(start + 1));
        start = start + 1;
    }
    let n = cs.len();
    let rest = crate::text::sub_chars(cs.as_slice(), start, n);
    assert(rest@ =~= cs@.skip(start as int));
    string_of(rest.as_slice())
}

/// The asset file name: `pattern` with `{version}`, then `{os}`, then
/// `{arch}` replaced.
pub open spec fn asset_name_of(
    pattern: Seq<char>,
    version: Seq<char>,
    os: Seq<char>,
    arch: Seq<char>,
) -> Seq<char> {
    replace_all(
        replace_all(replace_all(pattern, "{version}"@, version), "{os}"@, os),
        "{arch}"@,
        arch,
    )
}

/// The asset file name for a version and platform.
pub fn asset_file_name(pattern: &str, version: &str, os: &str, arch: &str) -> (res: String)
    ensures
        res@ == asset_name_of(pattern@, version@, os@, arch@),
{
    let v_tag = chars_of("{version}");
    let o_tag = chars_of("{os}");
    let a_tag = chars_of("{arch}");
    proof {
        reveal_strlit("{version}");
        reveal_strlit("{os}");
        reveal_strlit("{arch}");
    }
    let s1 = replace(chars_of(pattern).as_slice(), v_tag.as_slice(), chars_of(version).as_slice());
    let s2 = replace(s1.as_slice(), o_tag.as_slice(), chars_of(os).as_slice());
    let s3 = replace(s2.as_slice(), a_tag.as_slice(), chars_of(arch).as_slice());
    string_of(s3.as_slice())
}

/// One asset of a release: its name and download address, where given.
pub struct ReleaseAsset {
    pub name: Option<String>,
    pub download_url: Option<String>,
}

/// A GitHub release: its tag (empty when missing) and assets.
pub struct ReleaseInfo {
    pub tag: String,
    pub assets: Vec<ReleaseAsset>,
}

/// The first asset at or after `i` named `name`.
pub open spec fn asset_index_from(a: Seq<ReleaseAsset>, name: Seq<char>, i: int) -> Option<int>
    decreases a.len() - i,
{
    if i < 0 || i >= a.len() {
        None
    } else if a[i].name matches Some(n) && n@ == name {
        Some(i)
    } else {
        asset_index_from(a, name, i + 1)
    }
}

/// The names of the assets that have one, in order.
pub open spec fn asset_names(a: Seq<ReleaseAsset>) -> Seq<Seq<char>>
    decreases a.len(),
{
    if a.len() == 0 {
        seq![]
    } else {
        let prev = asset_names(a.drop_last());
        match a.last().name {
            Some(n) => prev.push(n@),
            None => prev,
        }
    }
}

/// The download address of the release asset named `asset`; fails when the
/// release has no such asset (listing the names it has) or the asset has
/// no address.
pub fn select_asset(release: &ReleaseInfo, asset: &str) -> (res: Result<String, PmError>)
    ensures
        asset_index_from(release.assets@, asset@, 0) is None ==> (res matches Err(
            PmError::AssetNotFound { asset: a, tag, available },
        ) && a@ == asset@ && tag@ == release.tag@ && strings_view(available@) == asset_names(
            release.assets@,
        )),
        asset_index_from(release.assets@, asset@, 0) matches Some(i) ==> match release.assets@[i].download_url {
            Some(u) => res matches Ok(x) && x@ == u@,
            None => res matches Err(PmError::NoDownloadUrl),
        },
{
    let mut i: usize = 0;
    while i < release.assets.len()
        invariant
            i <= release.assets.len(),
            asset_index_from(release.assets@, asset@, 0) == asset_index_from(
                release.assets@,
                asset@,
                i as int,
            ),
        decreases release.assets.len() - i,
    {
        let hit = match &release.assets[i].name {
            Some(n) => str_eq(n.as_str(), asset),
            None => false,
        };
        if hit {
            return match &release.assets[i].download_url {
                Some(u) => Ok(u.clone()),
                None => Err(PmError::NoDownloadUrl),
            };
        }
        i = i + 1;
    }
    let ghost a = release.assets@;
    let mut names: Vec<String> = Vec::new();
    let mut k: usize = 0;
    assert(strings_view(names@) =~= asset_names(a.take(0)));
    while k < release.assets.len()
        invariant
            k <= release.assets.len(),
            a == release.assets@,
            strings_view(names@) == asset_names(a.take(k as int)),
        decreases release.assets.len() - k,
    {
        assert(a.take(k + 1).drop_last() =~= a.take(k as int));
        assert(a.take(k + 1).last() == a[k as int]);
        match &release.assets[k].name {
            Some(n) => {
                let ghost prev = strings_view(names@);
                names.push(n.clone());
                assert(strings_view(names@) =~= prev.push(n@));
            },
            None => {},
        }
        k = k + 1;
    }
    assert(a.take(k as int) =~= a);
    Err(PmError::AssetNotFound { asset: owned(asset), tag: release.tag.clone(), available: names })
}

/// The installed packages that the registry has in a newer version: each
/// installed record (in order) with the registry package of a matching name
/// (ASCII letter case ignored) whose version is newer (`version_newer`).
pub open spec fn outdated_pairs(pkgs: Seq<PackageMeta>, installed: Seq<InstalledPkg>) -> Seq<(int, int)>
    decreases installed.len(),
{
    if installed.len() == 0 {
        seq![]
    } else {
        let prev = outdated_pairs(pkgs, installed.drop_last());
        let i = installed.len() - 1;
        match package_index(pkgs, installed.last().name@) {
            Some(j) => if version_newer(pkgs[j].version@, installed.last().version@) {
                prev.push((i, j))
            } else {
                prev
            },
            None => prev,
        }
    }
}

/// The installed packages whose registry version is newer: pairs of the
/// installed record's position and the registry package's position.
pub fn outdated_packages(index: &RegistryIndex, state: &InstalledState) -> (res: Vec<(usize, usize)>)
    ensures
        res@.map_values(|p: (usize, usize)| (p.0 as int, p.1 as int)) == outdated_pairs(
            index.packages@,
            state.installed@,
        ),
{
    let ghost inst = state.installed@;
    let mut out: Vec<(usize, usize)> = Vec::new();
    let mut i: usize = 0;
    assert(out@.map_values(|p: (usize, usize)| (p.0 as int, p.1 as int)) =~= outdated_pairs(index.packages@, inst.take(0)));
    while i < state.installed.len()
        invariant
            i <= state.installed.len(),
            inst == state.installed@,
            out@.map_values(|p: (usize, usize)| (p.0 as int, p.1 as int)) == outdated_pairs(
                index.packages@,
                inst.take(i as int),
            ),
        decreases state.installed.len() - i,
    {
        let ghost t = inst.take(i + 1);
        assert(t.drop_last() =~= inst.take(i as int));
        assert(t.last() == inst[i as int]);
        let installed = &state.installed[i];
        match find_index(index, installed.name.as_str()) {
            Some(j) => {
                if version_is_newer(index.packages[j].version.as_str(), installed.version.as_str()) {
                    let ghost prev = out@;
                    out.push((i, j));
                    assert(out@.map_values(|p: (usize, usize)| (p.0 as int, p.1 as int)) =~= prev.map_values(
                        |p: (usize, usize)| (p.0 as int, p.1 as int),
                    ).push((i as int, j as int)));
                }
            },
            None => {},
        }
        i = i + 1;
    }
    assert(inst.take(i as int) =~= inst);
    out
}

/// `s` without leading and trailing white space (`str::trim`).
pub open spec fn trimmed(s: Seq<char>) -> Seq<char>
    decreases s.len(),
{
    if s.len() > 0 && white_space(s[0]) {
        trimmed(s.drop_first())
    } else if s.len() > 0 && white_space(s.last()) {
        trimmed(s.drop_last())
    } else {
        s
    }
}

/// Whether a confirmation answer is yes: `y` or `Y`, white space around it
/// ignored.
pub fn answer_is_yes(line: &str) -> (res: bool)
    ensures
        res == eq_ignore_case(trimmed(line@), seq!['y']),
{
    let cs = chars_of(line);
    let mut lo: usize = 0;
    let mut hi: usize = cs.len();
    assert(cs@.subrange(0, cs@.len() as int) =~= cs@);
    while lo < hi && (crate::source::is_whitespace(cs[lo]) || crate::source::is_whitespace(cs[hi - 1]))
        invariant
            lo <= hi <= cs.len(),
            cs@ == line@,
            trimmed(cs@.subrange(lo as int, hi as int)) == trimmed(line@),
        decreases hi - lo,
    {
        let ghost sub = cs@.subrange(lo as int, hi as int);
        if crate::source::is_whitespace(cs[lo]) {
            assert(sub.drop_first() =~= cs@.subrange(lo + 1, hi as int));
            lo = lo + 1;
        } else {
            assert(sub.drop_last() =~= cs@.subrange(lo as int, hi - 1));
            hi = hi - 1;
        }
    }
    let mid = crate::text::sub_chars(cs.as_slice(), lo, hi);
    let y = vec!['y'];
    assert(y@ =~= seq!['y']);
    crate::text::eq_ignore_ascii_case(mid.as_slice(), y.as_slice())
}

/// A problem that `doctor` reports for an installed package.
pub enum DoctorFinding {
    /// The recorded target directory does not exist.
    TargetDirMissing(String),
    /// A script package records no files.
    NoScriptFiles,
    /// A recorded script file does not exist.
    ScriptFileMissing(String),
    /// The config has no `mcp.servers` entry with the recorded id.
    McpEntryMissing(String),
    /// The directory of an MCP package with a config entry does not exist.
    DirMissing(String),
}

/// The findings for the recorded script files that do not exist, in order.
pub open spec fn missing_file_findings(files: Seq<String>, exist: Seq<bool>) -> Seq<DoctorFinding>
    decreases files.len(),
{
    if files.len() == 0 {
        seq![]
    } else {
        let prev = missing_file_findings(files.drop_last(), exist.drop_last());
        if exist.last() {
            prev
        } else {
            prev.push(DoctorFinding::ScriptFileMissing(files.last()))
        }
    }
}

/// The problems `doctor` reports for one installed record, in order: a
/// missing target directory; for a script package, no recorded files and
/// each missing file; for a record with an MCP id and a directory, a
/// missing config entry, else a missing directory.
pub open spec fn expected_findings(
    pkg: InstalledPkg,
    dir_exists: bool,
    files_exist: Seq<bool>,
    has_entry: bool,
) -> Seq<DoctorFinding> {
    let dir_part = match pkg.target_dir {
        Some(d) => if dir_exists {
            seq![]
        } else {
            seq![DoctorFinding::TargetDirMissing(d)]
        },
        None => seq![],
    };
    let script_part = if pkg.kind@ == "script"@ {
        (if pkg.files@.len() == 0 {
            seq![DoctorFinding::NoScriptFiles]
        } else {
            seq![]
        }) + missing_file_findings(pkg.files@, files_exist)
    } else {
        seq![]
    };
    let mcp_part = match (pkg.mcp_id, pkg.target_dir) {
        (Some(id), Some(d)) => if !has_entry {
            seq![DoctorFinding::McpEntryMissing(id)]
        } else if !dir_exists {
            seq![DoctorFinding::DirMissing(d)]
        } else {
            seq![]
        },
        _ => seq![],
    };
    dir_part + script_part + mcp_part
}

/// The problems `doctor` finds for one installed record, in the order it
/// reports them; `dir_exists` tells whether the recorded target directory
/// exists, `files_exist` whether each recorded file does, and `has_entry`
/// whether the config has an entry with the recorded MCP id. The record is
/// reported ok exactly when there is none.
pub fn doctor_findings(
    pkg: &InstalledPkg,
    dir_exists: bool,
    files_exist: &Vec<bool>,
    has_entry: bool,
) -> (res: Vec<DoctorFinding>)
    requires
        files_exist@.len() == pkg.files@.len(),
    ensures
        res@ == expected_findings(*pkg, dir_exists, files_exist@, has_entry),
        res@.len() == 0 <==> ({
            &&& pkg.target_dir is Some ==> dir_exists
            &&& pkg.kind@ == "script"@ ==> pkg.files@.len() > 0 && forall|i: int|
                0 <= i < files_exist@.len() ==> #[trigger] files_exist@[i]
            &&& pkg.mcp_id is Some && pkg.target_dir is Some ==> has_entry
        }),
{
    let mut out: Vec<DoctorFinding> = Vec::new();
    if let Some(dir) = &pkg.target_dir {
        if !dir_exists {
            out.push(DoctorFinding::TargetDirMissing(dir.clone()));
        }
    }
    let ghost a = out@;
    let mut script_part: Vec<DoctorFinding> = Vec::new();
    if str_eq(pkg.kind.as_str(), "script") {
        if pkg.files.len() == 0 {
            script_part.push(DoctorFinding::NoScriptFiles);
        }
        let ghost b0 = script_part@;
        let ghost fe = files_exist@;
        let ghost fs = pkg.files@;
        let mut k: usize = 0;
        assert(fs.take(0) =~= Seq::<String>::empty());
        while k < pkg.files.len()
            invariant
                k <= pkg.files.len(),
                fe == files_exist@,
                fs == pkg.files@,
                fe.len() == fs.len(),
                script_part@ == b0 + missing_file_findings(fs.take(k as int), fe.take(k as int)),
            decreases pkg.files.len() - k,
        {
            proof {
                assert(fs.take(k + 1).drop_last() =~= fs.take(k as int));
                assert(fe.take(k + 1).drop_last() =~= fe.take(k as int));
                assert(fs.take(k + 1).last() == fs[k as int]);
                assert(fe.take(k + 1).last() == fe[k as int]);
            }
            if !files_exist[k] {
                script_part.push(DoctorFinding::ScriptFileMissing(pkg.files[k].clone()));
            }
            assert(script_part@ =~= b0 + missing_file_findings(fs.take(k + 1), fe.take(k + 1)));
            k = k + 1;
        }
        assert(fs.take(k as int) =~= fs);
        assert(fe.take(k as int) =~= fe);
    }
    let ghost b = script_part@;
    out.append(&mut script_part);
    let mut mcp_part: Vec<DoctorFinding> = Vec::new();
    match (&pkg.mcp_id, &pkg.target_dir) {
        (Some(id), Some(dir)) => {
            if !has_entry {
                mcp_part.push(DoctorFinding::McpEntryMissing(id.clone()));
            } else if !dir_exists {
                mcp_part.push(DoctorFinding::DirMissing(dir.clone()));
            }
        },
        _ => {},
    }
    let ghost c = mcp_part@;
    out.append(&mut mcp_part);
    assert(out@ =~= a + b + c);
    proof {
        lemma_no_missing_files(pkg.files@, files_exist@);
    }
    out
}

/// No recorded file is reported missing exactly when each one exists.
proof fn lemma_no_missing_files(files: Seq<String>, exist: Seq<bool>)
    requires
        files.len() == exist.len(),
    ensures
        missing_file_findings(files, exist).len() == 0 <==> forall|i: int|
            0 <= i < exist.len() ==> #[trigger] exist[i],
    decreases files.len(),
{
    if files.len() > 0 {
        lemma_no_missing_files(files.drop_last(), exist.drop_last());
        let n = exist.len() - 1;
        if forall|i: int| 0 <= i < exist.len() ==> #[trigger] exist[i] {
            assert forall|i: int| 0 <= i < exist.drop_last().len() implies #[trigger] exist.drop_last()[i] by {
                assert(exist[i]);
            }
            assert(exist[n]);
        }
        if missing_file_findings(files, exist).len() == 0 {
            assert forall|i: int| 0 <= i < exist.len() implies #[trigger] exist[i] by {
                if i < n {
                    assert(exist.drop_last()[i] == exist[i]);
                }
            }
        }
    }
}

/// The `list --all` line of a registry package: `*` marks one that is
/// installed (name matched with ASCII letter case ignored).
pub open spec fn available_line(p: PackageMeta, inst: Seq<InstalledPkg>) -> Seq<char> {
    let mark = if installed_index(inst, p.name@) is Some {
        "*"@
    } else {
        " "@
    };
    "  "@ + mark + " "@ + p.name@ + " ("@ + p.kind@ + ")\n"@
}

/// The `list --all` lines of the registry packages, in order.
pub open spec fn available_lines(pkgs: Seq<PackageMeta>, inst: Seq<InstalledPkg>) -> Seq<char>
    decreases pkgs.len(),
{
    if pkgs.len() == 0 {
        seq![]
    } else {
        available_lines(pkgs.drop_last(), inst) + available_line(pkgs.last(), inst)
    }
}

/// The text that `list --all` prints.
pub open spec fn available_text(pkgs: Seq<PackageMeta>, inst: Seq<InstalledPkg>) -> Seq<char> {
    "available packages ("@ + decimal(pkgs.len()) + "):\n"@ + available_lines(pkgs, inst)
}

/// The `list` lines of an installed record: name, type, version and time,
/// then its directory and MCP id where it has them.
pub open spec fn installed_block(p: InstalledPkg) -> Seq<char> {
    "  "@ + p.name@ + " ("@ + p.kind@ + ") v"@ + p.version@ + "  installed_at="@ + decimal(
        p.installed_at as nat,
    ) + "\n"@ + opt_line("    dir: "@, p.target_dir) + opt_line("    mcp.id: "@, p.mcp_id)
}

/// The `list` lines of the installed records, in order.
pub open spec fn installed_blocks(inst: Seq<InstalledPkg>) -> Seq<char>
    decreases inst.len(),
{
    if inst.len() == 0 {
        seq![]
    } else {
        installed_blocks(inst.drop_last()) + installed_block(inst.last())
    }
}

/// The text that `list` prints.
pub open spec fn installed_text(inst: Seq<InstalledPkg>) -> Seq<char> {
    if inst.len() == 0 {
        "no installed packages\n"@
    } else {
        "installed packages ("@ + decimal(inst.len()) + "):\n"@ + installed_blocks(inst)
    }
}

/// The text of `list --all`: every registry package, installed ones marked.
pub fn available_list(index: &RegistryIndex, state: &InstalledState) -> (res: String)
    ensures
        res@ == available_text(index.packages@, state.installed@),
{
    let mut out = owned("available packages (");
    let d = decimal_string(index.packages.len() as u128);
    out.append(d.as_str());
    out.append("):\n");
    let ghost base = out@;
    let ghost ps = index.packages@;
    let mut i: usize = 0;
    assert(ps.take(0) =~= Seq::<PackageMeta>::empty());
    while i < index.packages.len()
        invariant
            i <= index.packages.len(),
            ps == index.packages@,
            out@ == base + available_lines(ps.take(i as int), state.installed@),
        decreases index.packages.len() - i,
    {
        proof {
            assert(ps.take(i + 1).drop_last() =~= ps.take(i as int));
            assert(ps.take(i + 1).last() == ps[i as int]);
        }
        let p = &index.packages[i];
        out.append("  ");
        match installed_position(state, p.name.as_str()) {
            Some(_) => out.append("*"),
            None => out.append(" "),
        }
        out.append(" ");
        out.append(p.name.as_str());
        out.append(" (");
        out.append(p.kind.as_str());
        out.append(")\n");
        i = i + 1;
    }
    assert(ps.take(i as int) =~= ps);
    out
}

/// The text of `list`: each installed record, or a note that there is none.
pub fn installed_list(state: &InstalledState) -> (res: String)
    ensures
        res@ == installed_text(state.installed@),
{
    if state.installed.len() == 0 {
        return owned("no installed packages\n");
    }
    let mut out = owned("installed packages (");
    let d = decimal_string(state.installed.len() as u128);
    out.append(d.as_str());
    out.append("):\n");
    let ghost base = out@;
    let ghost ps = state.installed@;
    let mut i: usize = 0;
    assert(ps.take(0) =~= Seq::<InstalledPkg>::empty());
    while i < state.installed.len()
        invariant
            i <= state.installed.len(),
            ps == state.installed@,
            out@ == base + installed_blocks(ps.take(i as int)),
        decreases state.installed.len() - i,
    {
        proof {
            assert(ps.take(i + 1).drop_last() =~= ps.take(i as int));
            assert(ps.take(i + 1).last() == ps[i as int]);
        }
        let p = &state.installed[i];
        out.append("  ");
        out.append(p.name.as_str());
        out.append(" (");
        out.append(p.kind.as_str());
        out.append(") v");
        out.append(p.version.as_str());
        out.append("  installed_at=");
        let t = decimal_string(p.installed_at as u128);
        out.append(t.as_str());
        out.append("\n");
        append_opt_line(&mut out, "    dir: ", &p.target_dir);
        append_opt_line(&mut out, "    mcp.id: ", &p.mcp_id);
        i = i + 1;
    }
    assert(ps.take(i as int) =~= ps);
    out
}

/// The registry package whose name matches `name`; fails when there is none.
pub fn require_package<'a>(index: &'a RegistryIndex, name: &str) -> (res: Result<&'a PackageMeta, PmError>)
    ensures
        package_index(index.packages@, name@) matches Some(i) ==> (res matches Ok(p) && *p
            == index.packages@[i]),
        package_index(index.packages@, name@) is None ==> (res matches Err(
            PmError::PackageNotFound { name: n },
        ) && n@ == name@),
{
    match find_package(index, name) {
        Some(p) => Ok(p),
        None => Err(PmError::PackageNotFound { name: owned(name) }),
    }
}

/// The installed record whose name matches `name`; fails when there is none.
pub fn require_installed<'a>(state: &'a InstalledState, name: &str) -> (res: Result<
    &'a InstalledPkg,
    PmError,
>)
    ensures
        installed_index(state.installed@, name@) matches Some(i) ==> (res matches Ok(p) && *p
            == state.installed@[i]),
        installed_index(state.installed@, name@) is None ==> (res matches Err(
            PmError::NotInstalled { name: n },
        ) && n@ == name@),
{
    match crate::state::find_installed(state, name) {
        Some(p) => Ok(p),
        None => Err(PmError::NotInstalled { name: owned(name) }),
    }
}

} // verus!
