use weibian::args::{parse_source_date_epoch, PdfStandard};
use weibian::config::{
    href, normalize_root_directory, output_file, parse_sys_input_pair, parse_system_input_pair,
    resolve_site, split_once, trim, SiteConfig, TemplatesConfig,
};

#[test]
fn normalize_root_directory_defaults_to_slash() {
    assert_eq!(normalize_root_directory(None), "/");
    assert_eq!(normalize_root_directory(Some("")), "/");
    assert_eq!(normalize_root_directory(Some("   ")), "/");
}

#[test]
fn normalize_root_directory_adds_slashes() {
    assert_eq!(normalize_root_directory(Some("docs")), "/docs/");
    assert_eq!(normalize_root_directory(Some(" /docs ")), "/docs/");
    assert_eq!(normalize_root_directory(Some("docs/")), "/docs/");
    assert_eq!(normalize_root_directory(Some("/a/b/")), "/a/b/");
}

#[test]
fn trim_removes_unicode_white_space() {
    assert_eq!(trim("  a b \t\n"), "a b");
    assert_eq!(trim("\u{3000}x\u{00A0}"), "x");
    assert_eq!(trim(""), "");
    assert_eq!(trim(" \u{2003} "), "");
}

#[test]
fn split_once_splits_at_first_match() {
    assert_eq!(split_once("a=b=c", '='), Some(("a", "b=c")));
    assert_eq!(split_once("abc", '='), None);
    assert_eq!(split_once("=x", '='), Some(("", "x")));
}

#[test]
fn sys_input_pair_parses_and_trims() {
    assert_eq!(parse_sys_input_pair(" key = value "), Ok(("key".to_owned(), "value".to_owned())));
    assert_eq!(parse_sys_input_pair("k=a=b"), Ok(("k".to_owned(), "a=b".to_owned())));
}

#[test]
fn sys_input_pair_errors() {
    assert_eq!(
        parse_sys_input_pair("novalue"),
        Err("input must be a key and a value separated by an equal sign".to_owned())
    );
    assert_eq!(parse_sys_input_pair(" =v"), Err("the key was missing or empty".to_owned()));
}

#[test]
fn system_input_pair_allows_blank_key() {
    assert_eq!(parse_system_input_pair(" =v "), Ok(("".to_owned(), "v".to_owned())));
    assert_eq!(
        parse_system_input_pair("oops"),
        Err("--input value must be KEY=VALUE, got: \"oops\"\n".to_owned())
    );
}

#[test]
fn href_follows_trailing_slash_setting() {
    assert_eq!(href("/", false, "intro"), "/intro.html");
    assert_eq!(href("/docs/", true, "intro"), "/docs/intro/");
}

#[test]
fn output_file_nests_pages_with_trailing_slashes() {
    assert_eq!(output_file(false, "index", "intro"), "intro.html");
    assert_eq!(output_file(true, "index", "intro"), "intro/index.html");
    assert_eq!(output_file(true, "index", "index"), "index.html");
}

#[test]
fn site_defaults() {
    let (root, trailing, index, domain) = resolve_site(SiteConfig {
        root_directory: None,
        trailing_slash: None,
        index_node: None,
        domain: None,
    });
    assert_eq!(root, "/");
    assert!(!trailing);
    assert_eq!(index, "index");
    assert_eq!(domain, "");
}

#[test]
fn site_values_are_kept() {
    let (root, trailing, index, domain) = resolve_site(SiteConfig {
        root_directory: Some("blog".to_owned()),
        trailing_slash: Some(true),
        index_node: Some("home".to_owned()),
        domain: Some("example.org".to_owned()),
    });
    assert_eq!(root, "/blog/");
    assert!(trailing);
    assert_eq!(index, "home");
    assert_eq!(domain, "example.org");
}

#[test]
fn template_defaults() {
    let t = TemplatesConfig::default_paths();
    assert_eq!(t.node, "node.html");
    assert_eq!(t.transclusion, "transclusion.html");
    assert_eq!(t.link, "link.html");
}

#[test]
fn pdf_standard_names() {
    assert_eq!(PdfStandard::V_1_7.name(), "1.7");
    assert_eq!(PdfStandard::A_2b.name(), "a-2b");
    assert_eq!(PdfStandard::A_3b.name(), "a-3b");
}

#[test]
fn source_date_epoch_parses_seconds() {
    assert_eq!(parse_source_date_epoch("1431648000"), Ok(1431648000));
    assert_eq!(parse_source_date_epoch("-5"), Ok(-5));
}

#[test]
fn source_date_epoch_errors() {
    assert_eq!(
        parse_source_date_epoch("soon"),
        Err("timestamp must be decimal integer (invalid digit found in string)".to_owned())
    );
    assert_eq!(
        parse_source_date_epoch("9223372036854775807"),
        Err("timestamp out of range".to_owned())
    );
}

#[test]
fn merged_inputs_let_later_ones_win() {
    let config = vec![("a".to_owned(), "1".to_owned()), ("wb-target".to_owned(), "pdf".to_owned())];
    let cli = vec![("a".to_owned(), "2".to_owned()), ("b".to_owned(), "3".to_owned())];
    let merged = weibian::config::merge_inputs(config, cli, "example.org", "/", true);
    let map: std::collections::HashMap<String, String> = merged.iter().cloned().collect();
    assert_eq!(merged.len(), map.len());
    assert_eq!(map["a"], "2");
    assert_eq!(map["b"], "3");
    assert_eq!(map["wb-target"], "html");
    assert_eq!(map["wb-domain"], "example.org");
    assert_eq!(map["wb-root-directory"], "/");
    assert_eq!(map["wb-trailing-slash"], "true");
    assert_eq!(map.len(), 6);
}

#[test]
fn source_date_epoch_range_ends() {
    assert_eq!(parse_source_date_epoch("8210266876799"), Ok(8210266876799));
    assert_eq!(parse_source_date_epoch("-8334601228800"), Ok(-8334601228800));
    assert_eq!(
        parse_source_date_epoch("8210266876800"),
        Err("timestamp out of range".to_owned())
    );
    assert_eq!(
        parse_source_date_epoch("-8334601228801"),
        Err("timestamp out of range".to_owned())
    );
}
