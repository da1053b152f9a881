//! The registry index, package metadata and installed-state records.

use vstd::prelude::*;
use crate::json::JsonValue;
use crate::text::chars_of;

verus! {

/// The schema version that files without one are read as.
pub fn default_schema_version() -> (res: u32)
    ensures
        res == 1,
{
    1
}

/// A registry index: the packages that can be installed.
pub struct RegistryIndex {
    pub schema_version: u32,
    pub generated_at: Option<String>,
    pub packages: Vec<PackageMeta>,
}

/// One package of the registry.
pub struct PackageMeta {
    pub name: String,
    pub display_name: Option<String>,
    pub description: String,
    /// The package type: `mcp`, `skill`, `script`, `plugin` or `app`.
    pub kind: String,
    pub version: String,
    pub license: Option<String>,
    pub homepage: Option<String>,
    pub repo: Option<String>,
    pub manifest_path: Option<String>,
    pub commit: Option<String>,
    pub archived: Option<bool>,
    pub install: Option<InstallSpec>,
    pub mcp: Option<McpSpec>,
    pub skill: Option<SkillSpec>,
    pub script: Option<ScriptSpec>,
    pub plugin: Option<PluginSpec>,
    pub release: Option<ReleaseSpec>,
}

/// How a package is installed.
pub struct InstallSpec {
    pub method: Option<String>,
    pub runtime: Option<String>,
    /// The package root inside the repository.
    pub path: Option<String>,
    /// Shell commands run in the package directory after cloning.
    pub setup: Vec<String>,
}

/// How an MCP server package is registered in miyu's config.
pub struct McpSpec {
    pub id: Option<String>,
    pub command: String,
    pub args: Vec<String>,
    /// Environment entries, names ascending strictly (`env_names_ascending`);
    /// the functions whose output follows their order require it.
    pub env: Vec<(String, String)>,
    pub timeout_seconds: Option<u64>,
    pub enabled: Option<bool>,
}

/// A skill package.
pub struct SkillSpec {
    pub entry: Option<String>,
    pub files: Vec<String>,
}

/// A script package.
pub struct ScriptSpec {
    pub files: Vec<String>,
    pub id: Option<String>,
    pub display_name: Option<String>,
    pub description: Option<String>,
    pub parameters: Option<JsonValue>,
    pub timeout_seconds: Option<u64>,
    pub group: Option<String>,
    pub argv: Option<String>,
}

/// A plugin package (reserved).
pub struct PluginSpec {
    pub api_version: Option<JsonValue>,
    pub entry: Option<String>,
    pub min_miyu_version: Option<String>,
}

/// Where the releases of an `app` package come from.
pub struct ReleaseSpec {
    pub provider: Option<String>,
    pub repo: Option<String>,
    pub asset_pattern: Option<String>,
}

/// The packages installed on this machine.
pub struct InstalledState {
    pub schema_version: u32,
    pub installed: Vec<InstalledPkg>,
}

/// One installed package.
pub struct InstalledPkg {
    pub name: String,
    pub kind: String,
    pub version: String,
    pub source: Option<String>,
    pub repo: Option<String>,
    pub commit: Option<String>,
    /// Seconds since the Unix epoch.
    pub installed_at: u64,
    pub target_dir: Option<String>,
    pub mcp_id: Option<String>,
    pub files: Vec<String>,
}

impl Default for InstalledState {
    fn default() -> (res: Self)
        ensures
            res.schema_version == 1,
            res.installed@.len() == 0,
    {
        InstalledState { schema_version: 1, installed: Vec::new() }
    }
}

/// `a` comes before `b` in the order of `String`: compared character by
/// character, a proper prefix first.
pub open spec fn chars_lt(a: Seq<char>, b: Seq<char>) -> bool
    decreases a.len(),
{
    if a.len() == 0 {
        b.len() > 0
    } else if b.len() == 0 {
        false
    } else if a[0] != b[0] {
        (a[0] as u32) < (b[0] as u32)
    } else {
        chars_lt(a.drop_first(), b.drop_first())
    }
}

/// The names of environment entries ascend strictly, as the keys of a map
/// do: each name comes before the next, so none occurs twice.
pub open spec fn env_names_ascending(env: Seq<(String, String)>) -> bool {
    forall|i: int, j: int|
        #![trigger env[i], env[j]]
        0 <= i && j == i + 1 && j < env.len() ==> chars_lt(env[i].0@, env[j].0@)
}

/// The `env` entries of a package's MCP section, where it has one, ascend
/// strictly by name.
pub open spec fn mcp_env_ordered(p: PackageMeta) -> bool {
    p.mcp matches Some(m) ==> env_names_ascending(m.env@)
}

/// Whether `a` comes before `b` in the order of `String`.
pub fn chars_less(a: &[char], b: &[char]) -> (res: bool)
    ensures
        res == chars_lt(a@, b@),
{
    let mut i: usize = 0;
    assert(a@.skip(0) =~= a@);
    assert(b@.skip(0) =~= b@);
    while i < a.len() && i < b.len() && a[i] == b[i]
        invariant
            i <= a.len(),
            i <= b.len(),
            chars_lt(a@.skip(i as int), b@.skip(i as int)) == chars_lt(a@, b@),
        decreases a.len() - i,
    {
        assert(a@.skip(i as int).drop_first() =~= a@.skip(i + 1));
        assert(b@.skip(i as int).drop_first() =~= b@.skip(i + 1));
        i = i + 1;
    }
    if i == a.len() {
        i < b.len()
    } else if i == b.len() {
        false
    } else {
        assert(a@.skip(i as int)[0] == a@[i as int]);
        assert(b@.skip(i as int)[0] == b@[i as int]);
        (a[i] as u32) < (b[i] as u32)
    }
}

/// Whether the names of `env` ascend strictly.
pub fn env_in_order(env: &Vec<(String, String)>) -> (res: bool)
    ensures
        res == env_names_ascending(env@),
{
    if env.len() == 0 {
        return true;
    }
    let mut i: usize = 0;
    while i + 1 < env.len()
        invariant
            i + 1 <= env.len(),
            forall|k: int, j: int|
                #![trigger env@[k], env@[j]]
                0 <= k && j == k + 1 && j <= i ==> chars_lt(env@[k].0@, env@[j].0@),
        decreases env.len() - i,
    {
        let x = chars_of(env[i].0.as_str());
        let y = chars_of(env[i + 1].0.as_str());
        if !chars_less(x.as_slice(), y.as_slice()) {
            assert(!chars_lt(env@[i as int].0@, env@[i + 1].0@));
            return false;
        }
        i = i + 1;
    }
    true
}

/// Whether the `env` entries of a package's MCP section ascend strictly.
pub fn mcp_env_in_order(p: &PackageMeta) -> (res: bool)
    ensures
        res == mcp_env_ordered(*p),
{
    match &p.mcp {
        Some(m) => env_in_order(&m.env),
        None => true,
    }
}

/// A copy of an optional string.
pub fn copy_opt(s: &Option<String>) -> (res: Option<String>)
    ensures
        res == *s,
{
    match s {
        Some(x) => Some(x.clone()),
        None => None,
    }
}

/// A copy of a vector of strings.
pub fn copy_strings(v: &Vec<String>) -> (res: Vec<String>)
    ensures
        res@ == v@,
{
    let mut out: Vec<String> = Vec::new();
    let mut i: usize = 0;
    while i < v.len()
        invariant
            i <= v.len(),
            out@ == v@.take(i as int),
        decreases v.len() - i,
    {
        out.push(v[i].clone());
        i = i + 1;
        assert(out@ == v@.take(i as int));
    }
    assert(v@.take(v.len() as int) == v@);
    out
}

/// Two records that hold the same values.
pub open spec fn same_record(a: InstalledPkg, b: InstalledPkg) -> bool {
    &&& a.name == b.name
    &&& a.kind == b.kind
    &&& a.version == b.version
    &&& a.source == b.source
    &&& a.repo == b.repo
    &&& a.commit == b.commit
    &&& a.installed_at == b.installed_at
    &&& a.target_dir == b.target_dir
    &&& a.mcp_id == b.mcp_id
    &&& a.files@ == b.files@
}

impl Clone for InstalledPkg {
    fn clone(&self) -> (res: Self)
        ensures
            same_record(res, *self),
    {
        InstalledPkg {
            name: self.name.clone(),
            kind: self.kind.clone(),
            version: self.version.clone(),
            source: copy_opt(&self.source),
            repo: copy_opt(&self.repo),
            commit: copy_opt(&self.commit),
            installed_at: self.installed_at,
            target_dir: copy_opt(&self.target_dir),
            mcp_id: copy_opt(&self.mcp_id),
            files: copy_strings(&self.files),
        }
    }
}

} // verus!
