use roblox_slang::lua_scan::{extract_string_literals, strip_lua_comments};
use roblox_slang::text::chars_of;
use roblox_slang::unused_keys::{
    concat_sources, contains_access_pattern, contains_namespace_usage, is_identifier_char,
    is_lua_extension, unused_keys_in_files, unused_keys_in_source,
};

fn keys(ks: &[&str]) -> Vec<String> {
    ks.iter().map(|k| k.to_string()).collect()
}

#[test]
fn unused_keys_found_through_literals() {
    let source = "local t = Translations.new(\"en\")\nlocal a = t:get(\"ui.button.buy\")\n";
    let unused = unused_keys_in_source(&keys(&["ui.button.buy", "ui.button.sell"]), source);
    assert_eq!(unused, keys(&["ui.button.sell"]));
}

#[test]
fn unused_keys_single_quotes() {
    let source = "local a = t:get('ui.title')\n";
    let unused = unused_keys_in_source(&keys(&["ui.title", "ui.other"]), source);
    assert_eq!(unused, keys(&["ui.other"]));
}

#[test]
fn unused_keys_ignore_comments() {
    let source = "-- t:get(\"ui.a\")\n--[[ \"ui.b\" ]]\nlocal x = \"ui.c\"\n";
    let unused = unused_keys_in_source(&keys(&["ui.a", "ui.b", "ui.c"]), source);
    assert_eq!(unused, keys(&["ui.a", "ui.b"]));
}

#[test]
fn unused_keys_do_not_match_substrings() {
    let source = "local x = \"ui.button.buy_now\"\n";
    let unused = unused_keys_in_source(&keys(&["ui.button.buy"]), source);
    assert_eq!(unused, keys(&["ui.button.buy"]));
}

#[test]
fn unused_keys_match_namespaced_access() {
    let source = "local x = t.ui.buttons:buy()\nlocal y = t:ui_labels_title()\n";
    let unused =
        unused_keys_in_source(&keys(&["ui.buttons.buy", "ui.labels.title", "ui.gone"]), source);
    assert_eq!(unused, keys(&["ui.gone"]));
}

#[test]
fn unused_keys_with_no_keys_is_empty() {
    assert!(unused_keys_in_source(&[], "local x = 1").is_empty());
}

#[test]
fn access_patterns_need_word_boundaries() {
    let content = chars_of("x:ui_title() y:ui_titles()");
    assert!(contains_access_pattern(&content, &chars_of(":ui_title")));
    assert!(!contains_access_pattern(&chars_of("a:ui_titles()"), &chars_of(":ui_title")));
    assert!(contains_namespace_usage(&content, &chars_of("ui.title")));
    assert!(!contains_namespace_usage(&content, &chars_of("...")));
}

#[test]
fn identifier_chars() {
    assert!(is_identifier_char(Some('a')));
    assert!(is_identifier_char(Some('_')));
    assert!(is_identifier_char(Some('9')));
    assert!(!is_identifier_char(Some('.')));
    assert!(!is_identifier_char(None));
}

#[test]
fn comments_and_literals() {
    assert_eq!(strip_lua_comments("a -- b\nc"), "a \nc");
    assert_eq!(strip_lua_comments("a --[[ b\n ]] c"), "a \n c");
    assert_eq!(
        extract_string_literals("x = 'a' .. \"b\\\"c\""),
        vec!["a".to_string(), "b\"c".to_string()]
    );
}

#[test]
fn sources_are_joined_with_line_breaks() {
    assert_eq!(concat_sources(&keys(&["a", "b"])), "a\nb\n");
    assert_eq!(concat_sources(&vec![]), "");
    assert!(is_lua_extension("lua"));
    assert!(is_lua_extension("luau"));
    assert!(!is_lua_extension("txt"));
}

#[test]
fn unused_keys_match_sanitized_namespace() {
    let source = "local text = t.ui.buttons:buy_now()\n";
    let unused = unused_keys_in_source(&keys(&["ui.buttons.buy-now"]), source);
    assert!(unused.is_empty());
}

#[test]
fn stripping_comments_keeps_line_breaks() {
    let source = "a = 1 -- one\n--[[ two\nthree ]] b = \"--\\n\"\n-";
    let stripped = strip_lua_comments(source);
    assert_eq!(stripped.matches('\n').count(), source.matches('\n').count());
    assert_eq!(stripped, "a = 1 \n\n b = \"--\\n\"\n-");
}

#[test]
fn unused_keys_over_several_files() {
    let keys = vec!["ui.button".to_string(), "ui.title".to_string(), "ui.gone".to_string()];
    let files = vec![
        "local a = t(\"ui.button.extra\")\n-- t(\"ui.gone\")".to_string(),
        "print(t(\"ui.title\"))".to_string(),
    ];
    assert_eq!(
        unused_keys_in_files(&keys, &files),
        vec!["ui.button".to_string(), "ui.gone".to_string()]
    );
}
