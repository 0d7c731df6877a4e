use pkgmanifest::Config;
use pkgmanifest::ParseError;
use pkgmanifest::parse_manifest;

fn field<'a>(cfg: &'a Config, name: &str, key: &str) -> &'a String {
    cfg.get(name).expect("package missing").get(key).expect("field missing")
}

#[test]
fn single_package_with_version() {
    let cfg = parse_manifest("[package.foo]\nversion = \"1.0\"").unwrap();
    assert_eq!(cfg.len(), 1);
    assert_eq!(cfg.packages[0].0, "foo");
    assert_eq!(field(&cfg, "foo", "version"), "1.0");
}

#[test]
fn garbage_is_a_syntax_error() {
    let r = parse_manifest("not valid toml ===");
    assert!(matches!(r, Err(ParseError::Toml(_))));
}

#[test]
fn empty_text_has_no_packages() {
    let cfg = parse_manifest("").unwrap();
    assert_eq!(cfg.len(), 0);
}

#[test]
fn no_package_table_means_empty_mapping() {
    let cfg = parse_manifest("title = \"x\"\n[other]\na = \"b\"\n").unwrap();
    assert_eq!(cfg.len(), 0);
    assert!(cfg.get("a").is_none());
}

#[test]
fn packages_come_out_sorted_by_name() {
    let text = "[package.cherry]\nv = \"3\"\n[package.apple]\nv = \"1\"\n[package.banana]\nv = \"2\"\n";
    let cfg = parse_manifest(text).unwrap();
    assert_eq!(cfg.len(), 3);
    assert_eq!(cfg.packages[0].0, "apple");
    assert_eq!(cfg.packages[1].0, "banana");
    assert_eq!(cfg.packages[2].0, "cherry");
    assert_eq!(field(&cfg, "apple", "v"), "1");
}

#[test]
fn several_fields_keep_manifest_order() {
    let cfg = parse_manifest("[package.p]\nb = \"2\"\na = \"1\"\n").unwrap();
    let p = cfg.get("p").unwrap();
    assert_eq!(p.entries.len(), 2);
    assert_eq!(p.entries[0].0, "b");
    assert_eq!(p.entries[1].0, "a");
}

#[test]
fn duplicate_package_is_an_error() {
    let r = parse_manifest("[package.a]\n[package.a]\n");
    assert!(matches!(r, Err(ParseError::Toml(_))));
}

#[test]
fn duplicate_field_is_an_error() {
    let r = parse_manifest("[package.a]\nv = \"1\"\nv = \"2\"\n");
    assert!(matches!(r, Err(ParseError::Toml(_))));
}

#[test]
fn bare_package_table_is_empty() {
    let cfg = parse_manifest("[package]\n").unwrap();
    assert_eq!(cfg.len(), 0);
}

#[test]
fn bare_package_table_twice_is_an_error() {
    let r = parse_manifest("[package]\n[package]\n");
    assert!(matches!(r, Err(ParseError::Toml(_))));
}

#[test]
fn field_directly_under_package_is_an_error() {
    let r = parse_manifest("[package]\nfoo = \"1\"\n");
    assert!(matches!(r, Err(ParseError::Toml(_))));
}

#[test]
fn top_level_package_key_is_an_error() {
    let r = parse_manifest("package = \"x\"\n");
    assert!(matches!(r, Err(ParseError::Toml(_))));
}

#[test]
fn nested_package_table_is_an_error() {
    let r = parse_manifest("[package.a.b]\n");
    assert!(matches!(r, Err(ParseError::Toml(_))));
}

#[test]
fn unterminated_string_is_an_error() {
    let r = parse_manifest("[package.a]\nv = \"oops\n");
    assert!(matches!(r, Err(ParseError::Toml(_))));
}

#[test]
fn unclosed_header_is_an_error() {
    let r = parse_manifest("[package.\n");
    assert!(matches!(r, Err(ParseError::Toml(_))));
}

#[test]
fn backslash_in_value_is_an_error() {
    let r = parse_manifest("[package.a]\nv = \"a\\\\b\"\n");
    assert!(matches!(r, Err(ParseError::Toml(_))));
}

#[test]
fn comments_and_blank_lines_are_skipped() {
    let text = "# a manifest\n\n[package.a] # the a package\n  v = \"1\"  # its version\n\n";
    let cfg = parse_manifest(text).unwrap();
    assert_eq!(cfg.len(), 1);
    assert_eq!(field(&cfg, "a", "v"), "1");
}

#[test]
fn crlf_line_ends_parse_too() {
    let cfg = parse_manifest("[package.a]\r\nv = \"1\"\r\n").unwrap();
    assert_eq!(cfg.len(), 1);
    assert_eq!(field(&cfg, "a", "v"), "1");
}

#[test]
fn values_may_hold_any_printable_text() {
    let cfg = parse_manifest("[package.a]\nnote = \"héllo, wörld! [not=a#table]\"\n").unwrap();
    assert_eq!(field(&cfg, "a", "note"), "héllo, wörld! [not=a#table]");
}

#[test]
fn missing_package_lookup_is_none() {
    let cfg = parse_manifest("[package.a]\n").unwrap();
    assert!(cfg.get("b").is_none());
    assert!(cfg.get("a").unwrap().get("v").is_none());
}

#[test]
fn toml_error_message_has_its_prefix() {
    let e = parse_manifest("???").unwrap_err();
    let m = e.message();
    assert!(m.starts_with("Cannot parse toml: "));
}

#[test]
fn io_error_message_has_its_prefix() {
    let e = ParseError::Io(String::from("file not found"));
    assert_eq!(e.message(), "IO error: file not found");
}

#[test]
fn round_trip_keeps_packages_and_fields() {
    let text = "[package.beta]\nx = \"1\"\n[package.alpha]\ny = \"2\"\nz = \"3\"\n";
    let cfg = parse_manifest(text).unwrap();
    let out = cfg.to_manifest();
    let cfg2 = parse_manifest(&out).unwrap();
    assert_eq!(cfg.len(), cfg2.len());
    for i in 0..cfg.packages.len() {
        assert_eq!(cfg.packages[i].0, cfg2.packages[i].0);
        assert_eq!(cfg.packages[i].1.entries, cfg2.packages[i].1.entries);
    }
}

#[test]
fn emitted_text_is_the_sorted_manifest() {
    let cfg = parse_manifest("[package.b]\n[package.a]\nv = \"1\"\n").unwrap();
    assert_eq!(cfg.to_manifest(), "[package.a]\nv = \"1\"\n[package.b]\n");
}

#[test]
fn empty_config_emits_empty_text() {
    let cfg = parse_manifest("").unwrap();
    assert_eq!(cfg.to_manifest(), "");
}

#[test]
fn syntax_error_names_the_line() {
    let e = parse_manifest("[package.a]\nv = \"1\"\n???\n").unwrap_err();
    let m = e.message();
    assert!(m.ends_with("at line 3"), "{m}");
}

#[test]
fn leading_whitespace_before_a_header_is_fine() {
    let cfg = parse_manifest("  [package.a]\n\tv = \"1\"\n").unwrap();
    assert_eq!(cfg.len(), 1);
    assert_eq!(field(&cfg, "a", "v"), "1");
}
