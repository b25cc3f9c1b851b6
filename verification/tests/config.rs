use cargo_shepherd::file_path::FilePath;
use cargo_shepherd::scan::cargo_config::{
    cargo_home, config_in, env_dir, expand_build_dir, keep_existing, read_config, ConfigFile,
    Environment, Resolver,
};
use cargo_shepherd::scan::config_text::{
    parse_build_dirs, parse_string_value, section_is_build, strip_comment,
};
use cargo_shepherd::scan::{DiscoveredEntry, OutputKind};

fn path(text: &str) -> FilePath {
    FilePath::new(text)
}

fn chars(text: &str) -> Vec<char> {
    text.chars().collect()
}

#[test]
fn parses_quoted_values_and_ignores_other_tables() {
    let (target, build) = parse_build_dirs(
        "[build]\ntarget-dir = \"shared/target\" # keep\n[other]\ntarget-dir = \"nope\"\n",
    );
    assert_eq!(target.as_deref(), Some("shared/target"));
    assert_eq!(build, None);
}

#[test]
fn parses_literal_strings_and_subtables_end_build() {
    let (target, build) = parse_build_dirs(
        "[build]\nbuild-dir = 'out/build'\n[build.x]\ntarget-dir = \"nope\"\n",
    );
    assert_eq!(target, None);
    assert_eq!(build.as_deref(), Some("out/build"));
}

#[test]
fn ignores_hash_inside_quotes() {
    let (target, _) = parse_build_dirs("[build]\ntarget-dir = \"we#ird/target\"\n");
    assert_eq!(target.as_deref(), Some("we#ird/target"));
}

#[test]
fn later_assignments_win_even_when_they_are_no_strings() {
    let (target, build) = parse_build_dirs(
        "[build]\r\ntarget-dir = \"a\"\r\nbuild-dir=\"b\"\r\n\r\n# note\r\ntarget-dir = 3\r\nbuild-dir = \"c\"",
    );
    assert_eq!(target, None);
    assert_eq!(build.as_deref(), Some("c"));
    assert_eq!(parse_build_dirs("target-dir = \"a\"\n"), (None, None));
    assert_eq!(parse_build_dirs(""), (None, None));
    let (target, _) = parse_build_dirs("  [ build ]  \n  target-dir=\"x\"  ");
    assert_eq!(target.as_deref(), Some("x"));
}

#[test]
fn strings_unescape_and_must_be_closed() {
    let value = |s: &str| parse_string_value(&chars(s));
    assert_eq!(value(r#" "a\n\t\r\"\\b" "#).as_deref(), Some("a\n\t\r\"\\b"));
    assert_eq!(value(r#""open"#), None);
    assert_eq!(value("\"open\\"), None);
    assert_eq!(value("'lit\\n'").as_deref(), Some("lit\\n"));
    assert_eq!(value("'abc"), None);
    assert_eq!(value("'"), None);
    assert_eq!(value("\""), None);
    assert_eq!(value("''").as_deref(), Some(""));
    assert_eq!(value("'a' b"), None);
    assert_eq!(value("\"a\" b"), None);
    assert_eq!(value("\"\"\"a\"\"\""), None);
    assert_eq!(value("\"a\" # b").as_deref(), Some("a"));
    assert_eq!(value("'a' # b").as_deref(), Some("a"));
    assert_eq!(value("\"\"").as_deref(), Some(""));
    assert_eq!(value("bare"), None);
    assert_eq!(value("  "), None);
}

#[test]
fn comments_end_values_outside_quotes() {
    let cut = |s: &str| strip_comment(&chars(s)).iter().collect::<String>();
    assert_eq!(cut("a  # b"), "a");
    assert_eq!(cut("'#' # b"), "'#'");
    assert_eq!(cut("\"\\\"#\" #"), "\"\\\"#\"");
    assert_eq!(cut("'\\' # x"), "'\\'");
    assert_eq!(cut("no comment "), "no comment ");
    assert_eq!(cut("\"open # still"), "\"open # still");
    assert_eq!(cut("\"ends in \\"), "\"ends in \\");
}

#[test]
fn only_the_build_table_counts() {
    assert!(section_is_build(&chars("[build]")));
    assert!(section_is_build(&chars("[ build ]")));
    assert!(!section_is_build(&chars("[build.x]")));
    assert!(!section_is_build(&chars("[[build]]")));
    assert!(!section_is_build(&chars("[build] # x")));
    assert!(!section_is_build(&chars("[")));
}

fn environment() -> Environment {
    Environment {
        cargo_home: Some("/nowhere/.cargo".to_string()),
        home: None,
        build_target_dir: None,
        target_dir: None,
        build_build_dir: None,
    }
}

fn resolver() -> Resolver {
    Resolver::new(&environment(), None, &path("/cwd"))
}

/// Resolves a project, reading the given config files, each with the
/// directory that holds its `.cargo`, its name and its text.
fn resolve(r: &mut Resolver, manifest: &str, files: &[(&str, &str, &str)]) -> Vec<DiscoveredEntry> {
    let manifest = path(manifest);
    for dir in r.missing(&manifest) {
        let text_of = |name: &str| {
            files
                .iter()
                .find(|f| path(f.0) == dir && f.1 == name)
                .map(|f| f.2)
        };
        let cargo_dir = dir.join(".cargo");
        let file = config_in(
            &cargo_dir,
            text_of("config").is_some(),
            text_of("config.toml").is_some(),
        );
        let config = file.and_then(|f| {
            let name = f.file_name().map(|n| String::from_utf8_lossy(n).into_owned());
            read_config(&f, name.and_then(|n| text_of(&n)))
        });
        r.store(dir, config);
    }
    r.resolve(&manifest, false)
}

#[test]
fn relative_resolves_against_cargo_parent() {
    let mut r = resolver();
    let dirs = resolve(
        &mut r,
        "/tmp/cfg-relative/proj",
        &[(
            "/tmp/cfg-relative/proj",
            "config.toml",
            "[build]\ntarget-dir = \"../shared-target\"\n",
        )],
    );
    assert!(dirs.iter().any(|e| e.target_dir == path("/tmp/cfg-relative/shared-target")));
    assert!(dirs.iter().any(|e| e.target_dir == path("/tmp/cfg-relative/proj/target")));
}

#[test]
fn deeper_config_wins_over_ancestor() {
    let mut r = resolver();
    let dirs = resolve(
        &mut r,
        "/tmp/cfg-precedence/proj",
        &[
            ("/tmp/cfg-precedence", "config.toml", "[build]\ntarget-dir = \"/outer\"\n"),
            ("/tmp/cfg-precedence/proj", "config.toml", "[build]\ntarget-dir = \"/inner\"\n"),
        ],
    );
    assert!(dirs.iter().any(|e| e.target_dir == path("/inner")));
    assert!(!dirs.iter().any(|e| e.target_dir == path("/outer")));
}

#[test]
fn extensionless_config_wins_and_unknown_template_skips_build() {
    let mut r = resolver();
    let dirs = resolve(
        &mut r,
        "/tmp/cfg-legacy-template/proj",
        &[
            (
                "/tmp/cfg-legacy-template/proj",
                "config",
                "[build]\ntarget-dir = \"/bare\"\nbuild-dir = \"out/{workspace-path-hash}\"\n",
            ),
            (
                "/tmp/cfg-legacy-template/proj",
                "config.toml",
                "[build]\ntarget-dir = \"/toml\"\n",
            ),
        ],
    );
    assert!(dirs.iter().any(|e| e.target_dir == path("/bare")));
    assert!(!dirs.iter().any(|e| e.target_dir == path("/toml")));
    assert_eq!(dirs.len(), 2, "hash template adds no row: {dirs:?}");
}

#[test]
fn build_dir_templates_expand() {
    let mut r = resolver();
    let dirs = resolve(
        &mut r,
        "/tmp/cfg-templates/proj",
        &[(
            "/tmp/cfg-templates/proj",
            "config.toml",
            "[build]\nbuild-dir = \"{workspace-root}/bdir\"\n",
        )],
    );
    assert!(dirs.iter().any(|e| e.target_dir == path("/tmp/cfg-templates/proj/bdir")
        && e.kind == OutputKind::Build));
}

#[test]
fn many_projects_share_one_parse() {
    let mut r = resolver();
    for proj in ["a", "b", "c"] {
        let dirs = resolve(
            &mut r,
            &format!("/tmp/cfg-shared-parse/{proj}"),
            &[("/tmp/cfg-shared-parse", "config.toml", "[build]\ntarget-dir = \"/shared\"\n")],
        );
        assert!(dirs.iter().any(|e| e.target_dir == path("/shared")));
    }
    assert_eq!(r.cached_files(), 1, "one distinct .cargo dir parsed once");
}

#[test]
fn default_target_skips_ancestor_config() {
    let project = path("/tmp/cfg-fast-path/proj");
    let mut r = resolver();
    let dirs = r.resolve(&project, true);
    assert!(dirs.iter().any(|e| e.target_dir == path("/tmp/cfg-fast-path/proj/target")));
    assert!(!dirs.iter().any(|e| e.target_dir == path("/custom-fast-xyz")));
    assert_eq!(dirs.len(), 1);
    assert_eq!(r.cached_files(), 0, "default target avoids config I/O");
    // A config that was read for another reason changes nothing.
    let config = "[build]\ntarget-dir = \"/custom-fast-xyz\"\n";
    let configured = resolve(
        &mut r,
        "/tmp/cfg-fast-path/proj",
        &[("/tmp/cfg-fast-path/proj", "config.toml", config)],
    );
    assert!(configured.iter().any(|e| e.target_dir == path("/custom-fast-xyz")));
    assert_eq!(r.cached_files(), 1);
    let dirs = r.resolve(&project, true);
    assert_eq!(dirs.len(), 1);
    assert_eq!(dirs[0].target_dir, path("/tmp/cfg-fast-path/proj/target"));
}

#[test]
fn missing_configs_are_asked_for_from_the_root_down_and_once() {
    let mut r = resolver();
    let names: Vec<String> = r.missing(&path("/a/b")).iter().map(FilePath::to_text).collect();
    assert_eq!(names, vec!["/", "/a", "/a/b"]);
    r.store(path("/a"), None);
    r.store(
        path("/a/"),
        Some(ConfigFile { base: path("/a"), target_dir: Some("t".to_string()), build_dir: None }),
    );
    let names: Vec<String> = r.missing(&path("/a/b")).iter().map(FilePath::to_text).collect();
    assert_eq!(names, vec!["/", "/a/b"]);
    assert_eq!(r.cached_files(), 0);
}

#[test]
fn the_environment_overrides_config_files() {
    let mut env = environment();
    env.target_dir = Some("env-target".to_string());
    env.build_build_dir = Some("/env/../b".to_string());
    let home = ConfigFile {
        base: path("/nowhere/.cargo"),
        target_dir: Some("/from-home".to_string()),
        build_dir: Some("/from-home-build".to_string()),
    };
    let r = Resolver::new(&env, Some(home), &path("/cwd/sub"));
    let dirs = r.outer_dirs(&path("/p"), true);
    assert_eq!(
        dirs,
        vec![path("/p/target"), path("/cwd/sub/env-target"), path("/b")]
    );
    env.build_target_dir = Some("first".to_string());
    env.build_build_dir = Some("  ".to_string());
    let r = Resolver::new(&env, None, &path("/cwd/sub"));
    assert_eq!(
        r.outer_dirs(&path("/p"), true),
        vec![path("/p/target"), path("/cwd/sub/first")]
    );
}

#[test]
fn the_home_config_applies_and_repeats_are_dropped() {
    let home = ConfigFile {
        base: path("/nowhere/.cargo"),
        target_dir: Some("/p/./target".to_string()),
        build_dir: Some("{cargo-cache-home}/x/../b".to_string()),
    };
    let r = Resolver::new(&environment(), Some(home), &path("/cwd"));
    let found = r.resolve(&path("/p"), true);
    let dirs: Vec<(String, OutputKind)> =
        found.iter().map(|e| (e.target_dir.to_text(), e.kind)).collect();
    assert_eq!(
        dirs,
        vec![
            ("/p/target".to_string(), OutputKind::Target),
            ("/nowhere/.cargo/b".to_string(), OutputKind::Build),
        ]
    );
}

#[test]
fn unknown_templates_are_rejected() {
    let expand = |raw: &str| expand_build_dir(raw, &path("/base"), &path("/ws"), &path("/home/.cargo"));
    assert_eq!(expand("out").map(|p| p.to_text()).as_deref(), Some("/base/out"));
    assert_eq!(
        expand("{workspace-root}/{workspace-root}").map(|p| p.to_text()).as_deref(),
        Some("/ws/ws")
    );
    assert_eq!(
        expand("{cargo-cache-home}/b").map(|p| p.to_text()).as_deref(),
        Some("/home/.cargo/b")
    );
    assert!(expand("{other}/b").is_none());
    assert!(expand("a/{workspace-path-hash}").is_none());
}

#[test]
fn config_bases_are_parents_of_cargo_dirs() {
    let text = Some("[build]\ntarget-dir = \"t\"\n");
    let base = |p: &str| read_config(&path(p), text).map(|c| c.base.to_text());
    assert_eq!(base("/a/.cargo/config.toml").as_deref(), Some("/a"));
    assert_eq!(base("/home/cargo/config").as_deref(), Some("/home/cargo"));
    assert_eq!(base(".cargo/config").as_deref(), Some(""));
    assert!(read_config(&path("/"), text).is_none());
    assert!(read_config(&path("/a/.cargo/config"), Some("[build]\n")).is_none());
    assert!(read_config(&path("/a/.cargo/config"), None).is_none());
}

#[test]
fn homes_fall_back_in_order() {
    let text = |s: &str| Some(s.to_string());
    assert_eq!(cargo_home(&text("/ch"), &text("/h")).to_text(), "/ch");
    assert_eq!(cargo_home(&text(" "), &text("/h")).to_text(), "/h/.cargo");
    assert_eq!(cargo_home(&None, &None).to_text(), ".cargo");
    assert!(env_dir(&text("\t")).is_none());
    assert_eq!(env_dir(&text(" x ")).map(|p| p.to_text()).as_deref(), Some(" x "));
}

#[test]
fn shared_directories_are_listed_once_and_only_if_they_exist() {
    let of = |p: &str, d: &str| DiscoveredEntry::new(path(p), path(d), OutputKind::Target);
    let mut found = Vec::new();
    keep_existing(
        &mut found,
        &vec![of("/a", "/a/target"), of("/a", "/shared")],
        &vec![false, true],
    );
    keep_existing(
        &mut found,
        &vec![of("/b", "/b/target"), of("/b", "/shared/.")],
        &vec![true, true],
    );
    assert_eq!(found, vec![of("/a", "/shared"), of("/b", "/b/target")]);
}

#[test]
fn any_text_is_read_back_from_double_quotes() {
    for text in ["", "plain", "a\"b", "\\", "\\\"", "n\\n \\t# 'x' \"", "\"\\\\\"#", "line\nend"] {
        let escaped: String = text
            .chars()
            .flat_map(|c| if c == '"' || c == '\\' { vec!['\\', c] } else { vec![c] })
            .collect();
        for tail in ["", "  ", " # \"note\"", "#"] {
            let value = chars(&format!("\"{escaped}\"{tail}"));
            assert_eq!(parse_string_value(&value).as_deref(), Some(text), "{escaped}{tail}");
        }
    }
}
