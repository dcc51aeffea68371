use git_fmt::{
    collect_formatters, command_argv, parse_extensions, replace_all, should_format, split_on,
    ConfigError, Formatter, PathStatus, INDEX_MODIFIED, INDEX_NEW, WT_MODIFIED,
};

fn entries(v: &[(&str, &str)]) -> Vec<(String, String)> {
    v.iter().map(|(k, x)| (k.to_string(), x.to_string())).collect()
}

fn strings(v: &[&str]) -> Vec<String> {
    v.iter().map(|s| s.to_string()).collect()
}

fn status(path: &str, flags: u32) -> PathStatus {
    PathStatus { path: path.to_string(), flags }
}

fn scenario_formatter() -> Formatter {
    let e = entries(&[
        ("fmt.rust.command", "rustfmt {{STAGED_FILE}}"),
        ("fmt.rust.extensions", "rs"),
        ("fmt.js.command", "prettier --write {{STAGED_FILE}}"),
        ("fmt.js.extensions", "js,jsx"),
    ]);
    match Formatter::from_config_entries(&e) {
        Ok(f) => f,
        Err(e) => panic!("unexpected error {:?}", e),
    }
}

#[test]
fn split_keeps_empty_pieces() {
    assert_eq!(split_on("a..b", '.'), strings(&["a", "", "b"]));
    assert_eq!(split_on("", '.'), strings(&[""]));
    assert_eq!(split_on("fmt.rust.", '.'), strings(&["fmt", "rust", ""]));
}

#[test]
fn replace_every_occurrence() {
    assert_eq!(replace_all("x {{P}} y {{P}}", "{{P}}", "z"), "x z y z");
    assert_eq!(replace_all("aaa", "aa", "b"), "ba");
    assert_eq!(replace_all("none here", "{{P}}", "z"), "none here");
}

#[test]
fn collect_groups_by_language() {
    let e = entries(&[
        ("user.name", "someone"),
        ("fmt.rust.command", "rustfmt {{STAGED_FILE}}"),
        ("fmt.js.command", "prettier"),
        ("fmt.rust.extensions", "rs"),
    ]);
    let c = collect_formatters(&e);
    assert!(c.malformed.is_empty());
    assert_eq!(c.groups.len(), 2);
    assert_eq!(c.groups[0].language, "rust");
    assert_eq!(
        c.groups[0].options,
        vec![
            ("command".to_string(), "rustfmt {{STAGED_FILE}}".to_string()),
            ("extensions".to_string(), "rs".to_string()),
        ]
    );
    assert_eq!(c.groups[1].language, "js");
    assert_eq!(c.groups[1].options, vec![("command".to_string(), "prettier".to_string())]);
}

#[test]
fn later_value_replaces_earlier() {
    let e = entries(&[("fmt.rust.command", "old"), ("fmt.rust.command", "new")]);
    let c = collect_formatters(&e);
    assert_eq!(c.groups.len(), 1);
    assert_eq!(c.groups[0].options, vec![("command".to_string(), "new".to_string())]);
}

#[test]
fn malformed_key_skipped_sibling_kept() {
    let e = entries(&[("fmt.rust", "x"), ("fmt.rust.command", "rustfmt")]);
    let c = collect_formatters(&e);
    assert_eq!(c.malformed, strings(&["fmt.rust"]));
    assert_eq!(c.groups.len(), 1);
    assert_eq!(c.groups[0].language, "rust");
    assert_eq!(c.groups[0].options, vec![("command".to_string(), "rustfmt".to_string())]);
}

#[test]
fn malformed_keys_never_abort_the_scan() {
    let e = entries(&[
        ("fmt", "a"),
        ("fmt.rust.command.extra", "b"),
        ("fmt.go.command", "gofmt -w {{STAGED_FILE}}"),
        ("fmtx.go.command", "ignored"),
        ("fmt.go.extensions", "go"),
    ]);
    let c = collect_formatters(&e);
    assert_eq!(c.malformed, strings(&["fmt", "fmt.rust.command.extra"]));
    assert_eq!(c.groups.len(), 1);
    assert_eq!(c.groups[0].language, "go");
    assert_eq!(c.groups[0].options.len(), 2);
}

#[test]
fn missing_command_fails_construction() {
    let e = entries(&[
        ("fmt.rust.command", "rustfmt"),
        ("fmt.rust.extensions", "rs"),
        ("fmt.js.extensions", "js"),
    ]);
    match Formatter::from_config_entries(&e) {
        Ok(_) => panic!("incomplete group accepted"),
        Err(ConfigError::MissingOption { language, option }) => {
            assert_eq!(language, "js");
            assert_eq!(option, "command");
        }
    }
}

#[test]
fn missing_extensions_fails_construction() {
    let e = entries(&[("fmt.rust.command", "rustfmt")]);
    match Formatter::from_config_entries(&e) {
        Ok(_) => panic!("incomplete group accepted"),
        Err(ConfigError::MissingOption { language, option }) => {
            assert_eq!(language, "rust");
            assert_eq!(option, "extensions");
        }
    }
}

#[test]
fn empty_configuration_gives_empty_directory() {
    let f = match Formatter::from_config_entries(&Vec::new()) {
        Ok(f) => f,
        Err(e) => panic!("unexpected error {:?}", e),
    };
    assert_eq!(f.get_command("a.rs"), None);
}

#[test]
fn extensions_are_split_and_trimmed() {
    assert_eq!(parse_extensions("js, jsx ,\tts"), strings(&["js", "jsx", "ts"]));
    assert_eq!(parse_extensions("rs"), strings(&["rs"]));
    assert_eq!(parse_extensions(""), strings(&[""]));
}

#[test]
fn trimmed_extensions_resolve() {
    let e = entries(&[("fmt.web.command", "fmt {{STAGED_FILE}}"), ("fmt.web.extensions", " css , html ")]);
    let f = Formatter::from_config_entries(&e).ok().unwrap();
    assert_eq!(f.get_command("index.html"), Some("fmt {{STAGED_FILE}}".to_string()));
    assert_eq!(f.get_command("style.css"), Some("fmt {{STAGED_FILE}}".to_string()));
}

#[test]
fn extension_match_is_case_sensitive() {
    let f = scenario_formatter();
    assert_eq!(f.get_command("a.JS"), None);
    assert_eq!(f.get_command("a.js"), Some("prettier --write {{STAGED_FILE}}".to_string()));
    assert_eq!(f.command_for_extension("JS"), None);
    assert_eq!(f.command_for_extension("jsx"), Some("prettier --write {{STAGED_FILE}}".to_string()));
}

#[test]
fn path_without_extension_never_resolves() {
    let f = scenario_formatter();
    assert_eq!(f.get_command("Makefile"), None);
    assert_eq!(f.get_command("src/rs"), None);
    assert_eq!(f.get_command(".rs"), None);
    assert_eq!(f.execute_formatter("Makefile"), None);
}

#[test]
fn extension_is_taken_from_the_file_name() {
    let f = scenario_formatter();
    assert_eq!(f.get_command("src/lib.rs"), Some("rustfmt {{STAGED_FILE}}".to_string()));
    assert_eq!(f.get_command("a.b/c.js"), Some("prettier --write {{STAGED_FILE}}".to_string()));
    assert_eq!(f.get_command("a.rs/c"), None);
}

#[test]
fn first_formatter_in_configuration_order_wins() {
    let e = entries(&[
        ("fmt.one.command", "first {{STAGED_FILE}}"),
        ("fmt.one.extensions", "js"),
        ("fmt.two.command", "second {{STAGED_FILE}}"),
        ("fmt.two.extensions", "js"),
    ]);
    let f = Formatter::from_config_entries(&e).ok().unwrap();
    assert_eq!(f.get_command("a.js"), Some("first {{STAGED_FILE}}".to_string()));
}

#[test]
fn qualifying_statuses() {
    assert!(should_format(INDEX_NEW));
    assert!(should_format(INDEX_MODIFIED));
    assert!(!should_format(INDEX_MODIFIED | WT_MODIFIED));
    assert!(!should_format(INDEX_NEW | WT_MODIFIED));
    assert!(!should_format(WT_MODIFIED));
    assert!(!should_format(0));
}

#[test]
fn contested_path_is_not_dispatched() {
    let f = scenario_formatter();
    let s = vec![status("b.js", INDEX_MODIFIED | WT_MODIFIED)];
    assert!(f.format_index(&s).is_empty());
}

#[test]
fn staged_paths_are_dispatched_with_their_path() {
    let f = scenario_formatter();
    let s = vec![status("src/new.rs", INDEX_NEW), status("web/old.jsx", INDEX_MODIFIED)];
    assert_eq!(
        f.format_index(&s),
        vec![strings(&["rustfmt", "src/new.rs"]), strings(&["prettier", "--write", "web/old.jsx"])]
    );
}

#[test]
fn template_round_trip() {
    assert_eq!(
        command_argv("prettier --write {{STAGED_FILE}}", "src/app.js"),
        strings(&["prettier", "--write", "src/app.js"])
    );
    assert_eq!(command_argv("fmt {{STAGED_FILE}} {{STAGED_FILE}}", "a.c"), strings(&["fmt", "a.c", "a.c"]));
    assert_eq!(command_argv("a  b", "p"), strings(&["a", "", "b"]));
}

#[test]
fn scenario_only_clean_matching_path_dispatched() {
    let f = scenario_formatter();
    let s = vec![
        status("a.rs", INDEX_NEW),
        status("b.js", INDEX_MODIFIED | WT_MODIFIED),
        status("c.txt", INDEX_NEW),
    ];
    assert_eq!(f.format_index(&s), vec![strings(&["rustfmt", "a.rs"])]);
}
