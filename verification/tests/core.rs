use miyu_pm::config::{
    check_server_id, register_mcp_server, count_mcp_servers, default_config, has_mcp_server, mcp_enabled_mut, remove_mcp_server,
    strip_config_comments, upsert_mcp_server,
};
use miyu_pm::error::PmError;
use miyu_pm::json::{get, get_str, JsonValue};
use miyu_pm::paths::{
    check_dir_removal, file_name_of, join_path, safe_join, starts_with_path, validate_registry_path,
    PathEnv, Paths,
};
use miyu_pm::placeholder::{
    parse_env_overrides, placeholders_to_ask, resolve_text, resolve_text_within, with_answer,
    EnvOverrides, EnvSnapshot,
};
use miyu_pm::version::version_is_newer;
use miyu_pm::registry::{
    find_package, is_official_index_path, join_strings, render_package, search_packages,
};
use miyu_pm::source::{
    derive_name, is_blank, is_http_url, is_remote_source, plan_source, remove_source,
    sanitize_name, source_cache_file_name, upsert_source, SourceEntry, SourcesFile,
};
use miyu_pm::state::{find_installed, normalize_state, remove_by_name, upsert};
use miyu_pm::types::{
    default_schema_version, env_in_order, mcp_env_in_order, InstallSpec, InstalledPkg, InstalledState, McpSpec, PackageMeta,
    RegistryIndex,
};

fn s(x: &str) -> String {
    x.to_string()
}

fn strings(xs: &[&str]) -> Vec<String> {
    xs.iter().map(|x| x.to_string()).collect()
}

fn pairs(xs: &[(&str, &str)]) -> Vec<(String, String)> {
    xs.iter().map(|(a, b)| (a.to_string(), b.to_string())).collect()
}

fn package(name: &str, kind: &str) -> PackageMeta {
    PackageMeta {
        name: s(name),
        display_name: None,
        description: String::new(),
        kind: s(kind),
        version: s("1.0.0"),
        license: None,
        homepage: None,
        repo: None,
        manifest_path: None,
        commit: None,
        archived: None,
        install: None,
        mcp: None,
        skill: None,
        script: None,
        plugin: None,
        release: None,
    }
}

fn record(name: &str, kind: &str, version: &str) -> InstalledPkg {
    InstalledPkg {
        name: s(name),
        kind: s(kind),
        version: s(version),
        source: None,
        repo: None,
        commit: None,
        installed_at: 0,
        target_dir: None,
        mcp_id: None,
        files: Vec::new(),
    }
}

fn layout() -> Paths {
    Paths { miyu_home: s("/m"), pm_home: s("/p"), registry: s("/r/index.json") }
}

fn no_overrides() -> EnvOverrides {
    EnvOverrides { pairs: Vec::new() }
}

fn no_env() -> EnvSnapshot {
    EnvSnapshot { vars: Vec::new() }
}

fn servers_len(cfg: &JsonValue) -> usize {
    count_mcp_servers(cfg)
}

fn entry(id: &str, command: &str) -> JsonValue {
    JsonValue::Object(vec![
        (s("id"), JsonValue::Str(s(id))),
        (s("command"), JsonValue::Str(s(command))),
    ])
}

// ---- paths ----

#[test]
fn resolve_uses_home_defaults() {
    let env = PathEnv { home: Some(s("/home/u")), miyu_home: None, pm_home: None, registry: None };
    let p = Paths::resolve(None, None, None, env).ok().unwrap();
    assert_eq!(p.miyu_home, "/home/u/.miyu");
    assert_eq!(p.pm_home, "/home/u/.miyu-pm");
    assert_eq!(p.registry, "./registry/index.json");
}

#[test]
fn resolve_prefers_overrides_then_environment() {
    let env = PathEnv {
        home: Some(s("/home/u")),
        miyu_home: Some(s("/env/miyu")),
        pm_home: Some(s("/env/pm")),
        registry: None,
    };
    let p = Paths::resolve(Some(s("/cli/miyu")), None, None, env).ok().unwrap();
    assert_eq!(p.miyu_home, "/cli/miyu");
    assert_eq!(p.pm_home, "/env/pm");
    assert_eq!(p.registry, "./registry/index.json");
    let env2 = PathEnv {
        home: Some(s("/home/u")),
        miyu_home: None,
        pm_home: None,
        registry: Some(s("/env/index.json")),
    };
    let p2 = Paths::resolve(None, None, Some(s("/cli/index.json")), env2).ok().unwrap();
    assert_eq!(p2.registry, "/cli/index.json");
}

#[test]
fn resolve_without_home_fails() {
    let env = PathEnv { home: None, miyu_home: Some(s("/x")), pm_home: None, registry: None };
    let err = Paths::resolve(None, None, None, env).err().unwrap();
    assert!(matches!(err, PmError::HomeNotSet));
    assert_eq!(err.message(), "HOME is not set");
}

#[test]
fn directory_layout() {
    let p = layout();
    assert_eq!(p.config_file(), "/m/config/config.jsonc");
    assert_eq!(p.mcp_servers_dir(), "/m/mcp-servers");
    assert_eq!(p.data_skills_dir(), "/m/data/skills");
    assert_eq!(p.data_scripts_dir(), "/m/data/scripts");
    assert_eq!(p.state_dir(), "/p/state");
    assert_eq!(p.installed_state_file(), "/p/state/installed.json");
    assert_eq!(p.sources_file(), "/p/state/sources.json");
    assert_eq!(p.cache_dir(), "/p/cache");
    assert_eq!(p.cache_clones_dir(), "/p/cache/clones");
    assert_eq!(p.backup_dir(), "/m/config/.miyu-pm-backups");
}

#[test]
fn managed_mcp_dirs_go_by_components() {
    let p = layout();
    assert!(p.is_managed_mcp_dir("/m/mcp-servers/weather"));
    assert!(p.is_managed_mcp_dir("/m/mcp-servers/./w"));
    assert!(p.is_managed_mcp_dir("/m/mcp-servers/a/../b"));
    assert!(!p.is_managed_mcp_dir("/m/mcp-servers"));
    assert!(!p.is_managed_mcp_dir("/m/mcp-servers/"));
    assert!(!p.is_managed_mcp_dir("/m/mcp-servers/a/.."));
    assert!(!p.is_managed_mcp_dir("/m/mcp-servers/../../etc"));
    assert!(!p.is_managed_mcp_dir("/m/mcp-servers-evil/x"));
    assert!(!p.is_managed_mcp_dir("/tmp/x"));
    assert!(p.is_managed_scripts_file("/m/data/scripts/a.sh"));
    assert!(!p.is_managed_scripts_file("/m/data/skills/a.sh"));
}

#[test]
fn mcp_dir_removal_checks() {
    let p = layout();
    assert!(p.check_mcp_dir_removal("/m/mcp-servers/weather").is_ok());
    let whole = p.check_mcp_dir_removal("/m/mcp-servers/").err().unwrap();
    assert_eq!(whole.message(), "refusing to remove the whole mcp-servers directory");
    assert!(matches!(p.check_mcp_dir_removal("/m/mcp-servers/a/.."), Err(PmError::WholeMcpDir)));
    let escape = p.check_mcp_dir_removal("/m/mcp-servers/../../etc").err().unwrap();
    assert_eq!(escape.message(), "refusing to remove non-managed path /m/mcp-servers/../../etc");
    let outside = p.check_mcp_dir_removal("/tmp/x").err().unwrap();
    assert_eq!(outside.message(), "refusing to remove non-managed path /tmp/x");
}

#[test]
fn script_file_removal_checks() {
    let p = layout();
    assert!(p.check_script_file_removal("/m/data/scripts/run.sh").is_ok());
    let err = p.check_script_file_removal("/etc/passwd").err().unwrap();
    assert_eq!(err.message(), "refusing to remove non-managed file /etc/passwd");
}

#[test]
fn data_dir_removal_checks() {
    assert!(check_dir_removal("/m/data/skills/foo", "/m/data/skills").is_ok());
    let whole = check_dir_removal("/m/data/skills/.", "/m/data/skills").err().unwrap();
    assert_eq!(whole.message(), "refusing to remove whole data directory /m/data/skills");
    let outside = check_dir_removal("/m/data/other", "/m/data/skills").err().unwrap();
    assert_eq!(outside.message(), "refusing to remove non-managed path /m/data/other");
}

#[test]
fn registry_path_must_exist() {
    assert!(validate_registry_path("/r/index.json", true).is_ok());
    let err = validate_registry_path("/r/index.json", false).err().unwrap();
    assert_eq!(
        err.message(),
        "registry index not found: /r/index.json (pass --registry or set MIYU_PM_REGISTRY)"
    );
}

#[test]
fn join_follows_unix_rules() {
    assert_eq!(join_path("/a", "b"), "/a/b");
    assert_eq!(join_path("/a/", "b"), "/a/b");
    assert_eq!(join_path("", "b"), "b");
    assert_eq!(join_path("/a", "/etc"), "/etc");
}

#[test]
fn safe_join_refuses_escapes() {
    assert_eq!(safe_join("/root", "pkg/sub").ok().unwrap(), "/root/pkg/sub");
    let up = safe_join("/root", "../x").err().unwrap();
    assert_eq!(up.message(), "unsafe relative path in package: ../x");
    assert!(safe_join("/root", "a/../../b").is_err());
    assert!(safe_join("/root", "/etc/passwd").is_err());
    assert_eq!(safe_join("/root", "a..b").ok().unwrap(), "/root/a..b");
}

#[test]
fn safe_join_result_stays_under_base() {
    for rel in ["x", "x/y", "./z", "a/./b", ""] {
        let joined = safe_join("/base/dir", rel).ok().unwrap();
        assert!(starts_with_path(&joined, "/base/dir"));
    }
}

#[test]
fn file_name_like_path() {
    assert_eq!(file_name_of("/a/b.txt"), Some(s("b.txt")));
    assert_eq!(file_name_of("a/b/"), Some(s("b")));
    assert_eq!(file_name_of("/a/.."), None);
    assert_eq!(file_name_of("/"), None);
}

#[test]
fn path_prefix_by_components() {
    assert!(starts_with_path("/a/b", "/a"));
    assert!(starts_with_path("a/./b", "a"));
    assert!(!starts_with_path("/ab", "/a"));
    assert!(!starts_with_path("a", "/a"));
}

// ---- placeholders ----

#[test]
fn env_overrides_split_at_first_equals() {
    let o = parse_env_overrides(&strings(&["A=1", "B", "C=x=y", "A=2"]));
    assert_eq!(o.pairs, pairs(&[("A", "1"), ("C", "x=y"), ("A", "2")]));
}

#[test]
fn root_placeholder_is_replaced() {
    let (out, warnings) = resolve_text("{root}/bin/{root}", "/srv/w", &no_overrides(), &no_env());
    assert_eq!(out, "/srv/w/bin//srv/w");
    assert!(warnings.is_empty());
}

#[test]
fn text_without_braces_is_unchanged() {
    let (out, warnings) = resolve_text("plain --flag=1", "/r", &no_overrides(), &no_env());
    assert_eq!(out, "plain --flag=1");
    assert!(warnings.is_empty());
}

#[test]
fn later_override_wins_over_environment() {
    let ov = parse_env_overrides(&strings(&["API_KEY=first", "API_KEY=second"]));
    let env = EnvSnapshot { vars: pairs(&[("API_KEY", "from-env"), ("HOME", "/h")]) };
    let (out, warnings) = resolve_text("--key={env:API_KEY} {user:HOME}", "/r", &ov, &env);
    assert_eq!(out, "--key=second /h");
    assert!(warnings.is_empty());
}

#[test]
fn environment_used_when_no_override() {
    let env = EnvSnapshot { vars: pairs(&[("TOKEN", "t0")]) };
    let (out, _) = resolve_text("{env:TOKEN}", "/r", &no_overrides(), &env);
    assert_eq!(out, "t0");
}

#[test]
fn empty_placeholder_warns() {
    let (out, warnings) = resolve_text("x{env:NOPE}y{user:WHO}", "/r", &no_overrides(), &no_env());
    assert_eq!(out, "xy");
    assert_eq!(
        warnings,
        strings(&[
            "{env is empty; please provide it via --env NOPE=NOPE... or your environment",
            "{user is empty; please provide it via --env WHO=WHO... or your environment",
        ])
    );
}

#[test]
fn unterminated_placeholder_warns_with_byte_offset() {
    let (out, warnings) = resolve_text("é{env:X", "/r", &no_overrides(), &no_env());
    assert_eq!(out, "é{env:X");
    assert_eq!(warnings, strings(&["unterminated placeholder at 2"]));
}

#[test]
fn bounded_resolution_reports_runaway_placeholders() {
    let ov = parse_env_overrides(&strings(&["A={env:A}"]));
    assert!(resolve_text_within("{env:A}", "/r", &ov, &no_env(), 50).is_none());
    assert!(resolve_text_within("{root}", "{root}", &no_overrides(), &no_env(), 50).is_none());
}

#[test]
fn bounded_resolution_counts_replacements() {
    assert!(resolve_text_within("{root}", "x", &no_overrides(), &no_env(), 0).is_none());
    let (out, warnings) = resolve_text_within("{root}", "x", &no_overrides(), &no_env(), 1).unwrap();
    assert_eq!(out, "x");
    assert!(warnings.is_empty());
    let plain = resolve_text_within("plain", "x", &no_overrides(), &no_env(), 0).unwrap();
    assert_eq!(plain.0, "plain");
}

// ---- config ----

#[test]
fn default_config_has_no_servers() {
    let cfg = default_config();
    assert_eq!(servers_len(&cfg), 0);
    assert!(matches!(get(&cfg, "config_version"), Some(JsonValue::Number(n)) if n == "2"));
    let mcp = get(&cfg, "mcp").unwrap();
    assert!(matches!(get(mcp, "enabled"), Some(JsonValue::Bool(true))));
}

#[test]
fn upsert_then_remove_server() {
    let mut cfg = default_config();
    assert!(matches!(upsert_mcp_server(&mut cfg, entry("weather", "node")), Ok(true)));
    assert!(has_mcp_server(&cfg, "weather"));
    assert_eq!(servers_len(&cfg), 1);
    assert!(matches!(upsert_mcp_server(&mut cfg, entry("weather", "deno")), Ok(false)));
    assert_eq!(servers_len(&cfg), 1);
    assert!(matches!(upsert_mcp_server(&mut cfg, entry("other", "x")), Ok(true)));
    assert_eq!(servers_len(&cfg), 2);
    assert!(matches!(remove_mcp_server(&mut cfg, "weather"), Ok(true)));
    assert!(!has_mcp_server(&cfg, "weather"));
    assert!(has_mcp_server(&cfg, "other"));
    assert!(matches!(remove_mcp_server(&mut cfg, "weather"), Ok(false)));
    assert_eq!(servers_len(&cfg), 1);
}

#[test]
fn upsert_replaces_entry_in_place() {
    let mut cfg = default_config();
    upsert_mcp_server(&mut cfg, entry("a", "one")).ok().unwrap();
    upsert_mcp_server(&mut cfg, entry("b", "two")).ok().unwrap();
    upsert_mcp_server(&mut cfg, entry("a", "three")).ok().unwrap();
    let mcp = get(&cfg, "mcp").unwrap();
    match get(mcp, "servers") {
        Some(JsonValue::Array(items)) => {
            assert_eq!(items.len(), 2);
            assert_eq!(get_str(&items[0], "id").unwrap(), "a");
            assert_eq!(get_str(&items[0], "command").unwrap(), "three");
            assert_eq!(get_str(&items[1], "id").unwrap(), "b");
        }
        _ => panic!("servers is not an array"),
    }
}

#[test]
fn upsert_into_empty_config_creates_section() {
    let mut cfg = JsonValue::Null;
    assert!(matches!(upsert_mcp_server(&mut cfg, entry("x", "y")), Ok(true)));
    assert!(has_mcp_server(&cfg, "x"));
    let mut obj = JsonValue::Object(vec![(s("mcp"), JsonValue::Object(Vec::new()))]);
    assert!(mcp_enabled_mut(&mut obj).is_ok());
    let mcp = get(&obj, "mcp").unwrap();
    assert!(matches!(get(mcp, "enabled"), Some(JsonValue::Bool(true))));
    assert!(matches!(get(mcp, "servers"), Some(JsonValue::Array(v)) if v.is_empty()));
}

#[test]
fn config_errors() {
    let mut cfg = default_config();
    let no_id = JsonValue::Object(vec![(s("command"), JsonValue::Str(s("x")))]);
    let e = upsert_mcp_server(&mut cfg, no_id).err().unwrap();
    assert_eq!(e.message(), "mcp entry requires an id string");
    let mut bad_mcp = JsonValue::Object(vec![(s("mcp"), JsonValue::Number(s("3")))]);
    let e2 = upsert_mcp_server(&mut bad_mcp, entry("x", "y")).err().unwrap();
    assert_eq!(e2.message(), "config mcp section is not an object");
    let e3 = remove_mcp_server(&mut bad_mcp, "x").err().unwrap();
    assert!(matches!(e3, PmError::McpNotObject));
    let mut bad_servers = JsonValue::Object(vec![(
        s("mcp"),
        JsonValue::Object(vec![(s("servers"), JsonValue::Object(Vec::new()))]),
    )]);
    let e4 = upsert_mcp_server(&mut bad_servers, entry("x", "y")).err().unwrap();
    assert_eq!(e4.message(), "mcp.servers is not an array");
    let mut no_mcp = JsonValue::Object(Vec::new());
    assert!(matches!(remove_mcp_server(&mut no_mcp, "x"), Ok(false)));
}

#[test]
fn comments_are_blanked_out() {
    let raw = "{ /* note */ \"a\": 1, // tail\n \"b\": \"//kept\" }";
    let out = strip_config_comments(raw).ok().unwrap();
    assert_eq!(out.len(), raw.len());
    let text = String::from_utf8(out).unwrap();
    assert_eq!(text, "{            \"a\": 1,        \n \"b\": \"//kept\" }");
}

#[test]
fn malformed_comment_is_refused() {
    let err = strip_config_comments("{ /* open").err().unwrap();
    assert!(matches!(err, PmError::InvalidJsonc));
    assert!(strip_config_comments("{ / }").is_err());
}

// ---- registry ----

fn weather() -> PackageMeta {
    let mut p = package("weather", "mcp");
    p.display_name = Some(s("Weather Tools"));
    p.description = s("Forecasts");
    p.license = Some(s("MIT"));
    p.repo = Some(s("https://g/w"));
    p.homepage = Some(s("https://w"));
    p.mcp = Some(McpSpec {
        id: None,
        command: s("node"),
        args: strings(&["{root}/index.js", "--x"]),
        env: Vec::new(),
        timeout_seconds: Some(30),
        enabled: None,
    });
    p.install = Some(InstallSpec { method: None, runtime: None, path: None, setup: strings(&["npm ci"]) });
    p
}

#[test]
fn render_package_text() {
    let text = render_package(&weather());
    assert_eq!(
        text,
        "weather (mcp)  Weather Tools  v1.0.0\n  Forecasts\n  license: MIT\n  repo: https://g/w\n  mcp.id: weather\n  command: node\n  args: {root}/index.js --x\n  timeout_seconds: 30\n  setup:\n    - npm ci\n  homepage: https://w\n"
    );
    let bare = render_package(&package("tool", "skill"));
    assert_eq!(bare, "tool (skill)  tool  v1.0.0\n  \n");
}

#[test]
fn search_ignores_letter_case() {
    let mut a = package("Weather", "mcp");
    a.description = s("forecasts");
    let mut b = package("notes", "skill");
    b.display_name = Some(s("Note TAKING"));
    let mut c = package("clock", "script");
    c.description = s("Shows the TIME");
    let index = RegistryIndex { schema_version: 1, generated_at: None, packages: vec![a, b, c] };
    let hits: Vec<String> = search_packages(&index, "weather").iter().map(|p| p.name.clone()).collect();
    assert_eq!(hits, strings(&["Weather"]));
    let hits2: Vec<String> = search_packages(&index, "taking").iter().map(|p| p.name.clone()).collect();
    assert_eq!(hits2, strings(&["notes"]));
    let hits3: Vec<String> = search_packages(&index, "TIME").iter().map(|p| p.name.clone()).collect();
    assert_eq!(hits3, strings(&["clock"]));
    assert_eq!(search_packages(&index, "").len(), 3);
    assert!(search_packages(&index, "zzz").is_empty());
}

#[test]
fn find_package_by_name_any_case() {
    let index = RegistryIndex {
        schema_version: 1,
        generated_at: None,
        packages: vec![package("Alpha", "mcp"), package("alpha", "skill")],
    };
    assert_eq!(find_package(&index, "ALPHA").unwrap().kind, "mcp");
    assert!(find_package(&index, "beta").is_none());
}

#[test]
fn official_index_path_by_file_name() {
    assert!(is_official_index_path("/p/cache/official-index.json"));
    assert!(!is_official_index_path("/p/cache/index.json"));
    assert!(!is_official_index_path("/p/official-index.json/.."));
}

#[test]
fn join_strings_with_separator() {
    assert_eq!(join_strings(&strings(&["a", "b", "c"]), ", "), "a, b, c");
    assert_eq!(join_strings(&Vec::new(), ", "), "");
}

// ---- installed state ----

#[test]
fn upsert_then_find_record() {
    let mut st = InstalledState::default();
    assert_eq!(st.schema_version, 1);
    upsert(&mut st, record("weather", "mcp", "1.0"));
    upsert(&mut st, record("notes", "skill", "2.0"));
    assert_eq!(find_installed(&st, "WEATHER").unwrap().version, "1.0");
    upsert(&mut st, record("Weather", "mcp", "1.1"));
    assert_eq!(st.installed.len(), 2);
    assert_eq!(st.installed[0].version, "1.1");
    assert_eq!(st.installed[0].name, "Weather");
    assert_eq!(find_installed(&st, "notes").unwrap().version, "2.0");
}

#[test]
fn remove_record_by_name() {
    let mut st = InstalledState::default();
    upsert(&mut st, record("a", "mcp", "1"));
    upsert(&mut st, record("b", "mcp", "1"));
    assert!(remove_by_name(&mut st, "A"));
    assert!(find_installed(&st, "a").is_none());
    assert!(find_installed(&st, "b").is_some());
    assert!(!remove_by_name(&mut st, "a"));
    assert_eq!(st.installed.len(), 1);
}

#[test]
fn normalize_fixes_schema_version() {
    let mut st = InstalledState { schema_version: 0, installed: vec![record("a", "mcp", "1")] };
    normalize_state(&mut st);
    assert_eq!(st.schema_version, 1);
    assert_eq!(st.installed.len(), 1);
    let mut st2 = InstalledState { schema_version: 3, installed: Vec::new() };
    normalize_state(&mut st2);
    assert_eq!(st2.schema_version, 3);
    assert_eq!(default_schema_version(), 1);
}

// ---- sources ----

#[test]
fn source_names_from_urls() {
    assert_eq!(derive_name("https://example.com/reg/index.json/"), "index.json");
    assert_eq!(
        derive_name("https://raw.githubusercontent.com/yxxbc/miyu-pm-index/main/index.json"),
        "index.json"
    );
    assert_eq!(derive_name("https://example.com/team-reg"), "team-reg");
    assert_eq!(derive_name("/local/x.json.json"), "x.json.json");
    assert_eq!(derive_name(""), "source");
    assert_eq!(derive_name("///"), "source");
}

#[test]
fn sanitized_cache_names() {
    assert_eq!(sanitize_name("my reg/v2.0"), "my_reg_v2_0");
    assert_eq!(sanitize_name("ok-Name_9"), "ok-Name_9");
    assert_eq!(source_cache_file_name("a.b"), "a_b.json");
}

#[test]
fn http_detection() {
    assert!(is_http_url("http://x"));
    assert!(is_http_url("https://x"));
    assert!(!is_http_url("ftp://x"));
    assert!(!is_http_url("/path/http://x"));
    let local = SourceEntry { name: s("a"), url: s("/x.json"), kind: s("local") };
    let remote = SourceEntry { name: s("b"), url: s("/x.json"), kind: s("remote") };
    assert!(!is_remote_source(&local));
    assert!(is_remote_source(&remote));
    assert!(is_blank(" \t\n"));
    assert!(!is_blank(" a "));
}

#[test]
fn plan_source_kinds_and_names() {
    let r = plan_source(None, s("https://h/reg/index.json")).ok().unwrap();
    assert_eq!(r.name, "index.json");
    assert_eq!(r.kind, "remote");
    assert_eq!(r.url, "https://h/reg/index.json");
    let l = plan_source(Some(s("mine")), s("/tmp/i.json")).ok().unwrap();
    assert_eq!(l.name, "mine");
    assert_eq!(l.kind, "local");
    let e = plan_source(None, s("   ")).err().unwrap();
    assert_eq!(e.message(), "source url/path cannot be empty");
}

#[test]
fn added_source_is_stored_and_updated() {
    let mut file = SourcesFile::default();
    assert_eq!(file.schema_version, 1);
    assert!(upsert_source(&mut file, SourceEntry { name: s("a"), url: s("/1"), kind: s("local") }));
    assert!(upsert_source(&mut file, SourceEntry { name: s("b"), url: s("/2"), kind: s("local") }));
    assert!(!upsert_source(&mut file, SourceEntry { name: s("a"), url: s("https://3"), kind: s("remote") }));
    assert_eq!(file.sources.len(), 2);
    assert_eq!(file.sources[0].url, "https://3");
    assert_eq!(file.sources[0].kind, "remote");
}

#[test]
fn removed_source_is_gone() {
    let mut file = SourcesFile::default();
    upsert_source(&mut file, SourceEntry { name: s("a"), url: s("/1"), kind: s("local") });
    upsert_source(&mut file, SourceEntry { name: s("b"), url: s("/2"), kind: s("local") });
    assert!(remove_source(&mut file, "/2").is_ok());
    assert_eq!(file.sources.len(), 1);
    assert_eq!(file.sources[0].name, "a");
    let e = remove_source(&mut file, "zzz").err().unwrap();
    assert_eq!(e.message(), "source not found: zzz");
    assert_eq!(file.sources.len(), 1);
}

#[test]
fn env_names_must_ascend() {
    assert!(env_in_order(&pairs(&[("A", "1"), ("AB", "2"), ("B", "3")])));
    assert!(env_in_order(&Vec::new()));
    assert!(!env_in_order(&pairs(&[("B", "1"), ("A", "2")])));
    assert!(!env_in_order(&pairs(&[("A", "1"), ("A", "2")])));
    let mut p = package("w", "mcp");
    assert!(mcp_env_in_order(&p));
    p.mcp = Some(McpSpec {
        id: None,
        command: s("x"),
        args: Vec::new(),
        env: pairs(&[("Z", "1"), ("Y", "2")]),
        timeout_seconds: None,
        enabled: None,
    });
    assert!(!mcp_env_in_order(&p));
}

#[test]
fn hand_written_entries_are_kept() {
    let mut cfg = default_config();
    upsert_mcp_server(&mut cfg, entry("mine", "by-hand")).ok().unwrap();
    let empty = InstalledState::default();
    let e = register_mcp_server(&mut cfg, entry("mine", "pkg"), &empty).err().unwrap();
    assert_eq!(e.message(), "mcp.servers entry 'mine' was not installed by miyu-pm; refusing to modify it");
    let mcp = get(&cfg, "mcp").unwrap();
    match get(mcp, "servers") {
        Some(JsonValue::Array(items)) => assert_eq!(get_str(&items[0], "command").unwrap(), "by-hand"),
        _ => panic!("servers is not an array"),
    }
    assert!(check_server_id(&cfg, "mine", &empty).is_err());
    assert!(check_server_id(&cfg, "other", &empty).is_ok());
    assert!(matches!(register_mcp_server(&mut cfg, entry("other", "pkg"), &empty), Ok(true)));
    let mut owner = record("pkg", "mcp", "1");
    owner.mcp_id = Some(s("mine"));
    let st = InstalledState { schema_version: 1, installed: vec![owner] };
    assert!(check_server_id(&cfg, "mine", &st).is_ok());
    assert!(matches!(register_mcp_server(&mut cfg, entry("mine", "pkg"), &st), Ok(false)));
}

#[test]
fn version_order() {
    assert!(version_is_newer("2.0.0", "1.0.0"));
    assert!(!version_is_newer("1.0.0", "2.0.0"));
    assert!(version_is_newer("1.10", "1.9"));
    assert!(!version_is_newer("1.0", "1.0.0"));
    assert!(!version_is_newer("1.0.0", "1.0"));
    assert!(version_is_newer("1.0.1", "1.0"));
    assert!(!version_is_newer("01.2", "1.2"));
    assert!(version_is_newer("1.2.0", "1.2.0-beta") == false);
    assert!(version_is_newer("10", "9"));
}

#[test]
fn missing_placeholders_are_asked_once() {
    let texts = strings(&["{root}/bin", "--k={env:KEY}", "{env:HOME}{user:WHO}", "{env:KEY}", "{env:OPEN"]);
    let ov = parse_env_overrides(&strings(&["GIVEN=1"]));
    let env = EnvSnapshot { vars: pairs(&[("HOME", "/h"), ("EMPTY", "")]) };
    assert_eq!(placeholders_to_ask(&texts, &ov, &env), strings(&["KEY", "WHO"]));
    let texts2 = strings(&["{env:GIVEN}{env:EMPTY}"]);
    assert_eq!(placeholders_to_ask(&texts2, &ov, &env), strings(&["EMPTY"]));
    let answered = with_answer(ov, s("KEY"), s("secret"));
    let (out, warnings) = resolve_text("--k={env:KEY}", "/r", &answered, &env);
    assert_eq!(out, "--k=secret");
    assert!(warnings.is_empty());
}
