use miyu_pm::actions::{
    answer_is_yes, asset_file_name, backup_file_path, build_mcp_entry, clone_cache_dir,
    config_entry_to_remove, doctor_findings, ensure_m1_kind, ensure_not_installed,
    ensure_supported_kind, find_index, install, installed_record, mark_upgraded, mcp_id,
    mcp_resolves_within, outdated_packages, package_source_root, release_api_url,
    removal_target, require_installed, require_package, resolve_repo, script_destination,
    script_files, select_asset, self_update_source, setup_risks, tag_version, upgrade_targets,
    DoctorFinding, InstallKind, Options, ReleaseAsset, ReleaseInfo, RemovalTarget,
    available_list, installed_list, audit_report, self_update_files, upgrade_method, upgraded_script_source, UpgradeMethod,
};
use miyu_pm::error::PmError;
use miyu_pm::json::{get, get_str, JsonValue};
use miyu_pm::paths::Paths;
use miyu_pm::placeholder::{parse_env_overrides, EnvSnapshot};
use miyu_pm::types::{
    InstallSpec, InstalledPkg, InstalledState, McpSpec, PackageMeta, RegistryIndex,
    ReleaseSpec, ScriptSpec, SkillSpec,
};

fn s(x: &str) -> String {
    x.to_string()
}

fn strings(xs: &[&str]) -> Vec<String> {
    xs.iter().map(|x| x.to_string()).collect()
}

fn package(name: &str, kind: &str) -> PackageMeta {
    PackageMeta {
        name: s(name),
        display_name: None,
        description: String::new(),
        kind: s(kind),
        version: s("1.0.0"),
        license: None,
        homepage: None,
        repo: Some(s("https://git/x")),
        manifest_path: None,
        commit: None,
        archived: None,
        install: None,
        mcp: None,
        skill: None,
        script: None,
        plugin: None,
        release: None,
    }
}

fn mcp_spec(id: Option<&str>, command: &str, args: &[&str], env: &[(&str, &str)]) -> McpSpec {
    McpSpec {
        id: id.map(s),
        command: s(command),
        args: strings(args),
        env: env.iter().map(|(a, b)| (s(a), s(b))).collect(),
        timeout_seconds: None,
        enabled: None,
    }
}

fn record(name: &str, kind: &str, version: &str) -> InstalledPkg {
    InstalledPkg {
        name: s(name),
        kind: s(kind),
        version: s(version),
        source: None,
        repo: None,
        commit: None,
        installed_at: 0,
        target_dir: None,
        mcp_id: None,
        files: Vec::new(),
    }
}

fn layout() -> Paths {
    Paths { miyu_home: s("/m"), pm_home: s("/p"), registry: s("/r/index.json") }
}

fn index_of(packages: Vec<PackageMeta>) -> RegistryIndex {
    RegistryIndex { schema_version: 1, generated_at: None, packages }
}

fn state_of(installed: Vec<InstalledPkg>) -> InstalledState {
    InstalledState { schema_version: 1, installed }
}

fn registry() -> RegistryIndex {
    let mut m = package("Weather", "mcp");
    m.mcp = Some(mcp_spec(Some("wx"), "node", &[], &[]));
    m.install = Some(InstallSpec { method: None, runtime: None, path: None, setup: strings(&["npm ci"]) });
    let mut k = package("notes", "skill");
    k.skill = Some(SkillSpec { entry: None, files: Vec::new() });
    let mut c = package("clock", "script");
    c.script = Some(ScriptSpec {
        files: strings(&["bin/clock.sh"]),
        id: None,
        display_name: None,
        description: None,
        parameters: None,
        timeout_seconds: None,
        group: None,
        argv: None,
    });
    let plugin = package("pluggy", "plugin");
    let mut bare = package("bare", "mcp");
    bare.repo = None;
    bare.mcp = Some(mcp_spec(None, "x", &[], &[]));
    let nosection = package("empty", "skill");
    index_of(vec![m, k, c, plugin, bare, nosection])
}

// ---- install planning ----

#[test]
fn install_plans_mcp_package() {
    let plan = install(&layout(), &registry(), "weather", None).ok().unwrap();
    assert_eq!(plan.package, 0);
    assert!(matches!(plan.kind, InstallKind::Mcp));
    assert_eq!(plan.repo, "https://git/x");
    assert_eq!(plan.target, "/m/mcp-servers/wx");
    assert_eq!(plan.mcp_id, Some(s("wx")));
    assert_eq!(plan.entry, None);
    assert_eq!(plan.setup, strings(&["npm ci"]));
}

#[test]
fn install_plans_skill_and_script() {
    let skill = install(&layout(), &registry(), "NOTES", Some("https://other/repo")).ok().unwrap();
    assert!(matches!(skill.kind, InstallKind::Skill));
    assert_eq!(skill.repo, "https://other/repo");
    assert_eq!(skill.target, "/m/data/skills/notes");
    assert_eq!(skill.entry, Some(s("SKILL.md")));
    assert!(skill.setup.is_empty());
    let script = install(&layout(), &registry(), "clock", None).ok().unwrap();
    assert!(matches!(script.kind, InstallKind::Script));
    assert_eq!(script.target, "/m/data/scripts");
    assert_eq!(script.mcp_id, None);
}

#[test]
fn install_refusals() {
    let idx = registry();
    let missing = install(&layout(), &idx, "nope", None).err().unwrap();
    assert_eq!(missing.message(), "package not found in registry: nope");
    let plugin = install(&layout(), &idx, "pluggy", None).err().unwrap();
    assert_eq!(plugin.message(), "M3 supports mcp/skill/script packages; 'pluggy' is type 'plugin'");
    let norepo = install(&layout(), &idx, "bare", None).err().unwrap();
    assert_eq!(norepo.message(), "package bare has no repo URL in registry");
    assert!(install(&layout(), &idx, "bare", Some("https://r")).is_ok());
    let nosection = install(&layout(), &idx, "empty", None).err().unwrap();
    assert_eq!(nosection.message(), "package empty has no skill section");
}

#[test]
fn kind_checks() {
    let idx = registry();
    assert!(matches!(ensure_supported_kind(&idx.packages[2]), Ok(InstallKind::Script)));
    assert!(ensure_m1_kind(&idx.packages[0]).is_ok());
    let e = ensure_m1_kind(&idx.packages[1]).err().unwrap();
    assert_eq!(e.message(), "M1 prototype only installs mcp packages; 'notes' is type 'skill'");
    let no_mcp = package("m", "mcp");
    let e2 = ensure_m1_kind(&no_mcp).err().unwrap();
    assert_eq!(e2.message(), "package m has no mcp section");
}

#[test]
fn repo_and_id_choice() {
    let idx = registry();
    assert_eq!(resolve_repo(&idx.packages[0], None).ok().unwrap(), "https://git/x");
    assert_eq!(resolve_repo(&idx.packages[0], Some("o")).ok().unwrap(), "o");
    assert!(matches!(resolve_repo(&idx.packages[4], None), Err(PmError::NoRepo { .. })));
    assert_eq!(mcp_id(&idx.packages[0]), "wx");
    assert_eq!(mcp_id(&idx.packages[4]), "bare");
    assert_eq!(find_index(&idx, "CLOCK"), Some(2));
    assert_eq!(find_index(&idx, "zzz"), None);
}

#[test]
fn already_installed_is_refused() {
    let st = state_of(vec![record("Weather", "mcp", "1")]);
    let e = ensure_not_installed(&st, "weather").err().unwrap();
    assert_eq!(e.message(), "weather is already installed (use 'upgrade')");
    assert!(ensure_not_installed(&st, "notes").is_ok());
}

#[test]
fn script_file_lists() {
    let idx = registry();
    assert_eq!(script_files(&idx.packages[2]).ok().unwrap(), strings(&["bin/clock.sh"]));
    let e = script_files(&idx.packages[1]).err().unwrap();
    assert_eq!(e.message(), "script package notes declares no files");
}

#[test]
fn package_root_inside_clone() {
    let mut p = package("x", "mcp");
    assert_eq!(package_source_root("/c/x-1", &p).ok().unwrap(), "/c/x-1");
    p.install = Some(InstallSpec { method: None, runtime: None, path: Some(s("servers/wx")), setup: Vec::new() });
    assert_eq!(package_source_root("/c/x-1", &p).ok().unwrap(), "/c/x-1/servers/wx");
    p.install = Some(InstallSpec { method: None, runtime: None, path: Some(s("")), setup: Vec::new() });
    assert_eq!(package_source_root("/c/x-1", &p).ok().unwrap(), "/c/x-1");
    p.install = Some(InstallSpec { method: None, runtime: None, path: Some(s("../up")), setup: Vec::new() });
    let e = package_source_root("/c/x-1", &p).err().unwrap();
    assert_eq!(e.message(), "unsafe relative path in package: ../up");
}

#[test]
fn script_copy_destinations() {
    let (src, dest) = script_destination("/c/root", "/m/data/scripts", "bin/run.sh").ok().unwrap();
    assert_eq!(src, "/c/root/bin/run.sh");
    assert_eq!(dest, "/m/data/scripts/run.sh");
    let e = script_destination("/c/root", "/m/data/scripts", "bin/..").err().unwrap();
    assert!(matches!(e, PmError::UnsafePath { .. }));
    let e2 = script_destination("/", "/m/data/scripts", ".").err().unwrap();
    assert_eq!(e2.message(), "invalid script path /.");
}

#[test]
fn mcp_entry_is_built_from_resolved_values() {
    let mut p = package("weather", "mcp");
    p.display_name = Some(s("Weather"));
    p.mcp = Some(mcp_spec(
        None,
        "{root}/server",
        &["--port", "{env:PORT}"],
        &[("MODE", "fast"), ("TOKEN", "{env:TOKEN}")],
    ));
    let ov = parse_env_overrides(&strings(&["PORT=8080"]));
    let env = EnvSnapshot { vars: vec![(s("TOKEN"), s("t0"))] };
    assert!(mcp_resolves_within(&p, "/srv/wx", &ov, &env, 100));
    let (entry, warnings) = build_mcp_entry(&p, "weather", "/srv/wx", &ov, &env);
    assert!(warnings.is_empty());
    assert_eq!(get_str(&entry, "id").unwrap(), "weather");
    assert_eq!(get_str(&entry, "display_name").unwrap(), "Weather");
    assert_eq!(get_str(&entry, "command").unwrap(), "/srv/wx/server");
    match get(&entry, "args") {
        Some(JsonValue::Array(a)) => {
            assert_eq!(a.len(), 2);
            assert!(matches!(&a[1], JsonValue::Str(v) if v == "8080"));
        }
        _ => panic!("args is not an array"),
    }
    let env_obj = get(&entry, "env").unwrap();
    assert_eq!(get_str(env_obj, "TOKEN").unwrap(), "t0");
    assert_eq!(get_str(env_obj, "MODE").unwrap(), "fast");
    assert!(matches!(get(&entry, "timeout_seconds"), Some(JsonValue::Number(n)) if n == "60"));
    assert!(matches!(get(&entry, "enabled"), Some(JsonValue::Bool(true))));
}

#[test]
fn mcp_entry_warnings_in_order() {
    let mut p = package("w", "mcp");
    let mut m = mcp_spec(Some("w"), "{env:CMD}", &["{user:ARG}"], &[("K", "{env:K")]);
    m.timeout_seconds = Some(5);
    m.enabled = Some(false);
    p.mcp = Some(m);
    let ov = parse_env_overrides(&Vec::new());
    let env = EnvSnapshot { vars: Vec::new() };
    assert!(mcp_resolves_within(&p, "/r", &ov, &env, 10));
    let (entry, warnings) = build_mcp_entry(&p, "w", "/r", &ov, &env);
    assert_eq!(
        warnings,
        strings(&[
            "{env is empty; please provide it via --env CMD=CMD... or your environment",
            "{user is empty; please provide it via --env ARG=ARG... or your environment",
            "unterminated placeholder at 0",
        ])
    );
    assert!(matches!(get(&entry, "timeout_seconds"), Some(JsonValue::Number(n)) if n == "5"));
    assert!(matches!(get(&entry, "enabled"), Some(JsonValue::Bool(false))));
}

#[test]
fn runaway_mcp_placeholders_are_detected() {
    let mut p = package("w", "mcp");
    p.mcp = Some(mcp_spec(None, "run", &["{env:LOOP}"], &[]));
    let ov = parse_env_overrides(&strings(&["LOOP=x{env:LOOP}"]));
    let env = EnvSnapshot { vars: Vec::new() };
    assert!(!mcp_resolves_within(&p, "/r", &ov, &env, 20));
    assert!(!mcp_resolves_within(&package("s", "skill"), "/r", &ov, &env, 20));
}

#[test]
fn installed_record_fields() {
    let mut p = package("weather", "mcp");
    p.commit = Some(s("abc"));
    let r = installed_record(&p, s("registry"), s("https://r"), Some(s("/m/mcp-servers/wx")), Some(s("wx")), Vec::new(), 42);
    assert_eq!(r.name, "weather");
    assert_eq!(r.kind, "mcp");
    assert_eq!(r.version, "1.0.0");
    assert_eq!(r.source, Some(s("registry")));
    assert_eq!(r.repo, Some(s("https://r")));
    assert_eq!(r.commit, Some(s("abc")));
    assert_eq!(r.installed_at, 42);
    assert_eq!(r.target_dir, Some(s("/m/mcp-servers/wx")));
    assert_eq!(r.mcp_id, Some(s("wx")));
}

#[test]
fn timestamped_paths() {
    let p = layout();
    assert_eq!(clone_cache_dir(&p, "weather", 1700000000), "/p/cache/clones/weather-1700000000");
    assert_eq!(backup_file_path(&p, 42), "/m/config/.miyu-pm-backups/config.jsonc.bak.42.config.jsonc");
    assert_eq!(clone_cache_dir(&p, "x", 0), "/p/cache/clones/x-0");
}

// ---- removal ----

#[test]
fn removal_targets_by_kind() {
    let mut m = record("w", "mcp", "1");
    m.target_dir = Some(s("/m/mcp-servers/w"));
    m.mcp_id = Some(s("wx"));
    assert!(matches!(removal_target(&m), RemovalTarget::McpDir(d) if d == "/m/mcp-servers/w"));
    assert_eq!(config_entry_to_remove(&m), Some(s("wx")));
    let mut k = record("n", "skill", "1");
    k.target_dir = Some(s("/m/data/skills/n"));
    k.mcp_id = Some(s("ignored"));
    assert!(matches!(removal_target(&k), RemovalTarget::SkillDir(d) if d == "/m/data/skills/n"));
    assert_eq!(config_entry_to_remove(&k), None);
    let mut c = record("c", "script", "1");
    c.files = strings(&["/m/data/scripts/c.sh"]);
    assert!(matches!(removal_target(&c), RemovalTarget::ScriptFiles(f) if f == strings(&["/m/data/scripts/c.sh"])));
    assert!(matches!(removal_target(&record("q", "plugin", "1")), RemovalTarget::Nothing));
    assert!(matches!(removal_target(&record("q", "mcp", "1")), RemovalTarget::Nothing));
}

// ---- upgrade ----

#[test]
fn upgrade_targets_all_or_named() {
    let st = state_of(vec![record("a", "mcp", "1"), record("B", "skill", "1"), record("c", "script", "1")]);
    assert_eq!(upgrade_targets(&st, &Vec::new()).ok().unwrap(), vec![0, 1, 2]);
    assert_eq!(upgrade_targets(&st, &strings(&["c", "zzz", "b"])).ok().unwrap(), vec![2, 1]);
    let e = upgrade_targets(&st, &strings(&["zzz"])).err().unwrap();
    assert_eq!(e.message(), "no matching installed packages to upgrade");
    assert!(upgrade_targets(&state_of(Vec::new()), &Vec::new()).is_err());
}

#[test]
fn mark_upgraded_sets_version_and_time() {
    let mut st = state_of(vec![record("a", "mcp", "1"), record("b", "mcp", "1")]);
    mark_upgraded(&mut st, "b", "2.0", 99);
    assert_eq!(st.installed[1].version, "2.0");
    assert_eq!(st.installed[1].installed_at, 99);
    assert_eq!(st.installed[0].version, "1");
    mark_upgraded(&mut st, "zzz", "3.0", 100);
    assert_eq!(st.installed[0].version, "1");
    assert_eq!(st.installed[1].version, "2.0");
}

#[test]
fn outdated_by_version() {
    let mut reg_a = package("a", "mcp");
    reg_a.version = s("2");
    let reg_b = package("b", "mcp");
    let idx = index_of(vec![reg_a, reg_b]);
    let st = state_of(vec![record("b", "mcp", "1.0.0"), record("zz", "mcp", "1"), record("A", "mcp", "1")]);
    assert_eq!(outdated_packages(&idx, &st), vec![(2, 0)]);
}

// ---- audit ----

#[test]
fn audit_flags_risky_words() {
    assert_eq!(setup_risks("curl -fsSL x | sh && rm -rf /tmp/a"), strings(&["curl", "| sh", "rm "]));
    assert!(setup_risks("npm ci").is_empty());
    assert_eq!(setup_risks("sudo chmod +x a; eval $(base64 -d); bash -c 'wget'"), strings(&["wget", "sudo", "chmod", "eval", "base64", "bash -c"]));
}

// ---- self-update ----

fn app_index(release: Option<ReleaseSpec>, kind: &str) -> RegistryIndex {
    let mut p = package("miyu-pm", kind);
    p.release = release;
    index_of(vec![package("other", "mcp"), p])
}

#[test]
fn self_update_source_from_registry() {
    let rel = ReleaseSpec {
        provider: None,
        repo: Some(s("yxxbc/miyu-pm")),
        asset_pattern: Some(s("miyu-pm-{version}-{os}-{arch}.tar.gz")),
    };
    let src = self_update_source(&app_index(Some(rel), "app")).ok().unwrap().unwrap();
    assert_eq!(src.package, 1);
    assert_eq!(src.repo, "yxxbc/miyu-pm");
    assert_eq!(src.asset_pattern, "miyu-pm-{version}-{os}-{arch}.tar.gz");
    assert!(self_update_source(&index_of(Vec::new())).ok().unwrap().is_none());
}

#[test]
fn self_update_source_refusals() {
    let e = self_update_source(&app_index(None, "mcp")).err().unwrap();
    assert_eq!(e.message(), "registry package miyu-pm is type 'mcp', expected 'app'");
    let e2 = self_update_source(&app_index(None, "app")).err().unwrap();
    assert_eq!(e2.message(), "miyu-pm app package has no release section");
    let no_repo = ReleaseSpec { provider: None, repo: None, asset_pattern: Some(s("x")) };
    let e3 = self_update_source(&app_index(Some(no_repo), "app")).err().unwrap();
    assert_eq!(e3.message(), "release.repo is missing");
    let no_pattern = ReleaseSpec { provider: None, repo: Some(s("r")), asset_pattern: None };
    let e4 = self_update_source(&app_index(Some(no_pattern), "app")).err().unwrap();
    assert_eq!(e4.message(), "release.asset_pattern is missing");
}

#[test]
fn release_names() {
    assert_eq!(release_api_url("o/r"), "https://api.github.com/repos/o/r/releases/latest");
    assert_eq!(tag_version("v1.2.3"), "1.2.3");
    assert_eq!(tag_version("vv2"), "2");
    assert_eq!(tag_version("1.0"), "1.0");
    assert_eq!(
        asset_file_name("miyu-pm-{version}-{os}-{arch}.tar.gz", "1.2.3", "linux", "x86_64"),
        "miyu-pm-1.2.3-linux-x86_64.tar.gz"
    );
    assert_eq!(asset_file_name("{os}{os}", "v", "mac", "a"), "macmac");
}

#[test]
fn release_asset_selection() {
    let release = ReleaseInfo {
        tag: s("v1.0"),
        assets: vec![
            ReleaseAsset { name: Some(s("a.tar.gz")), download_url: Some(s("https://d/a")) },
            ReleaseAsset { name: None, download_url: Some(s("https://d/none")) },
            ReleaseAsset { name: Some(s("b.tar.gz")), download_url: None },
        ],
    };
    assert_eq!(select_asset(&release, "a.tar.gz").ok().unwrap(), "https://d/a");
    let e = select_asset(&release, "b.tar.gz").err().unwrap();
    assert_eq!(e.message(), "asset has no browser_download_url");
    let e2 = select_asset(&release, "c.zip").err().unwrap();
    assert_eq!(e2.message(), "asset c.zip not found in release v1.0; available: a.tar.gz, b.tar.gz");
}

#[test]
fn confirmation_answers() {
    assert!(answer_is_yes("y"));
    assert!(answer_is_yes("  Y \n"));
    assert!(!answer_is_yes("yes"));
    assert!(!answer_is_yes(""));
    assert!(!answer_is_yes("n"));
}

// ---- doctor ----

#[test]
fn doctor_reports_problems_in_order() {
    let mut c = record("c", "script", "1");
    c.target_dir = Some(s("/m/data/scripts"));
    c.files = strings(&["/s/a", "/s/b", "/s/c"]);
    let f = doctor_findings(&c, false, &vec![true, false, false], false);
    assert_eq!(f.len(), 3);
    assert!(matches!(&f[0], DoctorFinding::TargetDirMissing(d) if d == "/m/data/scripts"));
    assert!(matches!(&f[1], DoctorFinding::ScriptFileMissing(x) if x == "/s/b"));
    assert!(matches!(&f[2], DoctorFinding::ScriptFileMissing(x) if x == "/s/c"));
    let empty_script = record("e", "script", "1");
    let g = doctor_findings(&empty_script, true, &Vec::new(), true);
    assert_eq!(g.len(), 1);
    assert!(matches!(&g[0], DoctorFinding::NoScriptFiles));
}

#[test]
fn doctor_checks_mcp_entries() {
    let mut m = record("w", "mcp", "1");
    m.target_dir = Some(s("/m/mcp-servers/w"));
    m.mcp_id = Some(s("wx"));
    assert!(doctor_findings(&m, true, &Vec::new(), true).is_empty());
    let missing_entry = doctor_findings(&m, true, &Vec::new(), false);
    assert_eq!(missing_entry.len(), 1);
    assert!(matches!(&missing_entry[0], DoctorFinding::McpEntryMissing(id) if id == "wx"));
    let missing_dir = doctor_findings(&m, false, &Vec::new(), true);
    assert_eq!(missing_dir.len(), 2);
    assert!(matches!(&missing_dir[0], DoctorFinding::TargetDirMissing(_)));
    assert!(matches!(&missing_dir[1], DoctorFinding::DirMissing(d) if d == "/m/mcp-servers/w"));
}

// ---- lookups ----

#[test]
fn required_lookups() {
    let idx = registry();
    assert_eq!(require_package(&idx, "weather").ok().unwrap().name, "Weather");
    let e = require_package(&idx, "nope").err().unwrap();
    assert!(matches!(e, PmError::PackageNotFound { ref name } if name == "nope"));
    let st = state_of(vec![record("a", "mcp", "1")]);
    assert_eq!(require_installed(&st, "A").ok().unwrap().name, "a");
    let e2 = require_installed(&st, "b").err().unwrap();
    assert_eq!(e2.message(), "not installed: b");
    let opts = Options { dry_run: true, yes: false };
    let copy = opts;
    assert!(copy.dry_run && !opts.yes);
}

#[test]
fn upgrade_method_per_kind() {
    let mut reg = package("w", "mcp");
    reg.install = Some(InstallSpec { method: None, runtime: None, path: None, setup: strings(&["make"]) });
    let mut m = record("w", "mcp", "1");
    let e = upgrade_method(&m, Some(&reg)).err().unwrap();
    assert_eq!(e.message(), "w has no target_dir in state");
    m.target_dir = Some(s("/m/mcp-servers/w"));
    assert!(matches!(upgrade_method(&m, Some(&reg)), Ok(UpgradeMethod::GitPull { dir, setup })
        if dir == "/m/mcp-servers/w" && setup == strings(&["make"])));
    assert!(matches!(upgrade_method(&m, None), Ok(UpgradeMethod::GitPull { setup, .. }) if setup.is_empty()));
    let mut k = record("n", "skill", "1");
    assert_eq!(upgrade_method(&k, None).err().unwrap().message(), "n has no repo in state");
    k.repo = Some(s("https://r"));
    assert_eq!(upgrade_method(&k, None).err().unwrap().message(), "n has no skill dir in state");
    k.target_dir = Some(s("/m/data/skills/n"));
    assert!(matches!(upgrade_method(&k, None), Ok(UpgradeMethod::RefreshSkill { repo, dir })
        if repo == "https://r" && dir == "/m/data/skills/n"));
    let mut c = record("c", "script", "1");
    c.repo = Some(s("https://c"));
    assert!(matches!(upgrade_method(&c, None), Ok(UpgradeMethod::NoRecordedFiles)));
    c.files = strings(&["/m/data/scripts/c.sh"]);
    assert!(matches!(upgrade_method(&c, None), Ok(UpgradeMethod::RefreshScripts { repo }) if repo == "https://c"));
    assert!(matches!(upgrade_method(&record("p", "plugin", "1"), None), Ok(UpgradeMethod::Unsupported)));
}

#[test]
fn upgraded_script_comes_from_same_name() {
    assert_eq!(upgraded_script_source("/c/root", "/m/data/scripts/c.sh").ok().unwrap(), "/c/root/c.sh");
    let e = upgraded_script_source("/c/root", "/m/..").err().unwrap();
    assert_eq!(e.message(), "invalid installed file /m/..");
}

#[test]
fn self_update_file_names() {
    let f = self_update_files(&layout(), 7);
    assert_eq!(f.archive, "/p/cache/miyu-pm-self-update-7.tar.gz");
    assert_eq!(f.extract_dir, "/p/cache/miyu-pm-self-update-extract-7");
    assert_eq!(f.candidate, "/p/cache/miyu-pm-self-update-extract-7/miyu-pm");
    assert_eq!(f.backup, "/p/cache/miyu-pm.bak.7");
}

#[test]
fn audit_report_text() {
    let mut p = package("w", "mcp");
    p.archived = Some(true);
    p.mcp = Some(mcp_spec(None, "node", &[], &[("A", "1"), ("B", "2")]));
    p.install = Some(InstallSpec {
        method: None,
        runtime: None,
        path: None,
        setup: strings(&["npm ci", "curl x | sh"]),
    });
    assert_eq!(
        audit_report(&p),
        "audit w (static checks only; not a security guarantee)\n  type    : mcp\n  trust   : community (unreviewed)\n  warning : archived upstream\n  command : node\n  env keys: A, B\n  setup   : npm ci\n  setup   : curl x | sh\n    ^ risk keyword: curl\n    ^ risk keyword: | sh\n  result  : review setup commands carefully\n"
    );
    let plain = package("k", "skill");
    assert_eq!(
        audit_report(&plain),
        "audit k (static checks only; not a security guarantee)\n  type    : skill\n  trust   : community (unreviewed)\n  setup   : none\n"
    );
    let mut safe = package("s", "script");
    safe.install = Some(InstallSpec { method: None, runtime: None, path: None, setup: strings(&["make"]) });
    assert_eq!(
        audit_report(&safe),
        "audit s (static checks only; not a security guarantee)\n  type    : script\n  trust   : community (unreviewed)\n  setup   : make\n  result  : no obvious setup risk keywords\n"
    );
}

#[test]
fn installed_locations_are_removable() {
    let p = layout();
    let idx = registry();
    let mcp = install(&p, &idx, "weather", None).ok().unwrap();
    assert!(p.check_mcp_dir_removal(&mcp.target).is_ok());
    let skill = install(&p, &idx, "notes", None).ok().unwrap();
    assert!(miyu_pm::paths::check_dir_removal(&skill.target, &p.data_skills_dir()).is_ok());
    let script = install(&p, &idx, "clock", None).ok().unwrap();
    let (_, dest) = script_destination("/c/x", &script.target, "bin/clock.sh").ok().unwrap();
    assert!(p.check_script_file_removal(&dest).is_ok());
}

#[test]
fn outdated_only_newer_registry_versions() {
    let mut reg_a = package("a", "mcp");
    reg_a.version = s("1.0.0");
    let mut reg_b = package("b", "mcp");
    reg_b.version = s("1.10");
    let idx = index_of(vec![reg_a, reg_b]);
    let st = state_of(vec![record("a", "mcp", "2.0.0"), record("b", "mcp", "1.9")]);
    assert_eq!(outdated_packages(&idx, &st), vec![(1, 1)]);
}

#[test]
fn unsafe_mcp_id_is_refused() {
    let mut abs = package("abs", "mcp");
    abs.mcp = Some(mcp_spec(Some("/etc/evil"), "x", &[], &[]));
    let mut up = package("up", "mcp");
    up.mcp = Some(mcp_spec(Some("../../x"), "x", &[], &[]));
    let idx = index_of(vec![abs, up]);
    let e = install(&layout(), &idx, "abs", None).err().unwrap();
    assert_eq!(e.message(), "unsafe relative path in package: /etc/evil");
    let e2 = install(&layout(), &idx, "up", None).err().unwrap();
    assert!(matches!(e2, PmError::UnsafePath { ref path } if path == "../../x"));
}

#[test]
fn list_texts() {
    let mut w = record("weather", "mcp", "1.0");
    w.installed_at = 42;
    w.target_dir = Some(s("/m/mcp-servers/wx"));
    w.mcp_id = Some(s("wx"));
    let st = state_of(vec![w, record("notes", "skill", "2")]);
    assert_eq!(
        installed_list(&st),
        "installed packages (2):\n  weather (mcp) v1.0  installed_at=42\n    dir: /m/mcp-servers/wx\n    mcp.id: wx\n  notes (skill) v2  installed_at=0\n"
    );
    assert_eq!(installed_list(&state_of(Vec::new())), "no installed packages\n");
    let idx = index_of(vec![package("Weather", "mcp"), package("clock", "script")]);
    assert_eq!(
        available_list(&idx, &st),
        "available packages (2):\n  * Weather (mcp)\n    clock (script)\n"
    );
}
