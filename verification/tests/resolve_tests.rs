//! Layer resolution, derived keys, and the cascade merge.

use editorconfig::{ConfSections, Pair, Section, resolve_layer, resolve_parsed, crawl_paths,
                   relative_targets};

fn pair(k: &str, v: &str) -> Pair {
    Pair { key: k.to_string(), value: v.to_string() }
}

fn section(pattern: &str, pairs: Vec<Pair>) -> Section {
    Section { pattern: pattern.to_string(), pairs }
}

fn conf(preamble: Vec<Pair>, sections: Vec<Section>) -> ConfSections {
    ConfSections { preamble, sections }
}

fn get(m: &ordermap::OrderMap<String, String>, k: &str) -> Option<String> {
    m.get(k).cloned()
}

#[test]
fn crawl_paths_absolute() {
    let r = crawl_paths("/a/b/f.txt", ".editorconfig");
    assert_eq!(r, vec![
        "/a/b/.editorconfig".to_string(),
        "/a/.editorconfig".to_string(),
        "/.editorconfig".to_string(),
    ]);
}

#[test]
fn crawl_paths_relative() {
    let r = crawl_paths("a/b/f.txt", ".ec");
    assert_eq!(r, vec!["a/b/.ec".to_string(), "a/.ec".to_string(), ".ec".to_string()]);
    assert_eq!(crawl_paths("f.txt", ".ec"), vec![".ec".to_string()]);
}

#[test]
fn relative_targets_follow_candidates() {
    let r = relative_targets("/a/b/f.txt");
    assert_eq!(r, vec!["f.txt".to_string(), "b/f.txt".to_string(), "a/b/f.txt".to_string()]);
}

#[test]
fn cascade_closest_wins_and_root_stops() {
    let near = conf(vec![], vec![section("*", vec![pair("indent_style", "space")])]);
    let far = conf(
        vec![pair("root", "true")],
        vec![section("*", vec![pair("indent_style", "tab"), pair("end_of_line", "lf")])],
    );
    let beyond = conf(vec![], vec![section("*", vec![pair("charset", "utf-8")])]);
    let files = vec![Some(near), Some(far), Some(beyond)];
    let res = resolve_parsed("a/b/f.txt", &files);
    assert_eq!(get(&res, "indent_style"), Some("space".to_string()));
    assert_eq!(get(&res, "end_of_line"), Some("lf".to_string()));
    assert_eq!(get(&res, "charset"), None);
    assert_eq!(get(&res, "root"), None);
}

#[test]
fn layer_derives_indent_size_from_tab_style() {
    let file = conf(vec![], vec![section("*", vec![pair("indent_style", "tab")])]);
    let layer = resolve_layer(&file, "f.txt");
    assert_eq!(get(&layer, "indent_size"), Some("tab".to_string()));
}

#[test]
fn layer_derives_tab_width_from_indent_size() {
    let file = conf(vec![], vec![section("*", vec![pair("indent_size", "4")])]);
    let layer = resolve_layer(&file, "f.txt");
    assert_eq!(get(&layer, "tab_width"), Some("4".to_string()));
}

#[test]
fn layer_takes_indent_size_from_tab_width() {
    let file = conf(
        vec![],
        vec![section("*", vec![pair("indent_style", "tab"), pair("tab_width", "8")])],
    );
    let layer = resolve_layer(&file, "f.txt");
    assert_eq!(get(&layer, "indent_size"), Some("8".to_string()));
    assert_eq!(get(&layer, "tab_width"), Some("8".to_string()));
}

#[test]
fn later_section_overrides_earlier_in_same_file() {
    let file = conf(
        vec![],
        vec![
            section("*", vec![pair("charset", "latin1")]),
            section("f.txt", vec![pair("charset", "utf-8")]),
        ],
    );
    let layer = resolve_layer(&file, "f.txt");
    assert_eq!(get(&layer, "charset"), Some("utf-8".to_string()));
}

#[test]
fn non_matching_section_contributes_nothing() {
    let file = conf(vec![], vec![section("*.py", vec![pair("charset", "utf-8")])]);
    let layer = resolve_layer(&file, "f.txt");
    assert_eq!(layer.len(), 0);
}

#[test]
fn overlong_pattern_is_skipped() {
    let long_pattern = "a".repeat(4097);
    let file = conf(vec![], vec![section(&long_pattern, vec![pair("charset", "utf-8")])]);
    let layer = resolve_layer(&file, &"a".repeat(4097));
    assert_eq!(layer.len(), 0);
}

#[test]
fn absent_chain_yields_empty_mapping() {
    let files: Vec<Option<ConfSections>> = vec![None, None];
    let res = resolve_parsed("a/f.txt", &files);
    assert_eq!(res.len(), 0);
}

#[test]
fn known_key_values_are_lowercased() {
    let file = conf(
        vec![],
        vec![section("*", vec![pair("INDENT_STYLE", "TAB"), pair("MyKey", "MiXeD")])],
    );
    let files = vec![Some(file)];
    let res = resolve_parsed("f.txt", &files);
    assert_eq!(get(&res, "indent_style"), Some("tab".to_string()));
    assert_eq!(get(&res, "mykey"), Some("MiXeD".to_string()));
    assert_eq!(get(&res, "MyKey"), None);
}

#[test]
fn overlong_keys_and_values_are_dropped() {
    let key51 = "k".repeat(51);
    let key50 = "j".repeat(50);
    let val256 = "v".repeat(256);
    let val255 = "w".repeat(255);
    let file = conf(
        vec![],
        vec![section("*", vec![
            pair(&key51, "x"),
            pair(&key50, "kept"),
            pair("a", &val256),
            pair("b", &val255),
        ])],
    );
    let files = vec![Some(file)];
    let res = resolve_parsed("f.txt", &files);
    assert_eq!(get(&res, &key51), None);
    assert_eq!(get(&res, &key50), Some("kept".to_string()));
    assert_eq!(get(&res, "a"), None);
    assert_eq!(get(&res, "b"), Some(val255));
}

#[test]
fn preamble_root_is_case_insensitive_and_stripped() {
    let near = conf(vec![pair("root", "TRUE")], vec![section("*", vec![pair("charset", "a")])]);
    let far = conf(vec![], vec![section("*", vec![pair("end_of_line", "lf")])]);
    let files = vec![Some(near), Some(far)];
    let res = resolve_parsed("a/f.txt", &files);
    assert_eq!(get(&res, "charset"), Some("a".to_string()));
    assert_eq!(get(&res, "end_of_line"), None);
    assert_eq!(get(&res, "root"), None);
}

#[test]
fn section_patterns_match_relative_to_file_directory() {
    // the farther file sees the target under an extra directory level
    let far = conf(vec![], vec![section("b/*.txt", vec![pair("charset", "x")])]);
    let files = vec![None, Some(far), None];
    let res = resolve_parsed("a/b/f.txt", &files);
    assert_eq!(get(&res, "charset"), Some("x".to_string()));
}

#[test]
fn is_known_key_is_exact() {
    assert!(editorconfig::is_known_key("indent_style"));
    assert!(editorconfig::is_known_key("trim_trailing_whitespace"));
    assert!(!editorconfig::is_known_key("INDENT_STYLE"));
    assert!(!editorconfig::is_known_key("indent"));
}

#[test]
fn resolved_order_is_first_assignment_nearest_first() {
    let near = conf(vec![], vec![section("*", vec![pair("kb", "x")])]);
    let far = conf(vec![], vec![section("*", vec![pair("ka", "y"), pair("kb", "z")])]);
    let files = vec![Some(near), Some(far)];
    let res = resolve_parsed("a/f.txt", &files);
    let order: Vec<String> = res.keys().cloned().collect();
    assert_eq!(order, vec!["kb".to_string(), "ka".to_string()]);
    assert_eq!(get(&res, "kb"), Some("x".to_string()));
}
