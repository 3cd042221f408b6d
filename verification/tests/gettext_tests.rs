use roblox_slang::gettext::{extract_quoted_string, parse_po_file};

fn lookup<'a>(pairs: &'a [(String, String)], key: &str) -> Option<&'a String> {
    pairs.iter().find(|(k, _)| k == key).map(|(_, v)| v)
}

#[test]
fn test_extract_quoted_string() {
    assert_eq!(extract_quoted_string("msgid \"hello\""), "hello");
    assert_eq!(extract_quoted_string("msgstr \"world\""), "world");
    assert_eq!(extract_quoted_string("\"text\""), "text");
}

#[test]
fn test_parse_po_file_simple() {
    let content = r#"
msgid "ui.button.buy"
msgstr "Buy"

msgid "ui.button.sell"
msgstr "Sell"
"#;

    let result = parse_po_file(content);
    assert_eq!(lookup(&result, "ui.button.buy"), Some(&"Buy".to_string()));
    assert_eq!(lookup(&result, "ui.button.sell"), Some(&"Sell".to_string()));
}

#[test]
fn test_parse_po_file_with_comments() {
    let content = r#"
# This is a comment
msgid "ui.button"
msgstr "Button"

# Another comment
msgid "ui.label"
msgstr "Label"
"#;

    let result = parse_po_file(content);
    assert_eq!(lookup(&result, "ui.button"), Some(&"Button".to_string()));
    assert_eq!(lookup(&result, "ui.label"), Some(&"Label".to_string()));
}

#[test]
fn test_parse_po_file_multiline() {
    let content = r#"
msgid "ui.message"
msgstr "This is a long "
"message"
"#;

    let result = parse_po_file(content);
    assert_eq!(
        lookup(&result, "ui.message"),
        Some(&"This is a long message".to_string())
    );
}

#[test]
fn extract_quoted_string_without_pair_is_empty() {
    assert_eq!(extract_quoted_string("msgid"), "");
    assert_eq!(extract_quoted_string("\""), "");
    assert_eq!(extract_quoted_string("say \"a\" and \"b\""), "a\" and \"b");
}

#[test]
fn parse_po_file_later_entry_wins_and_empty_entries_are_dropped() {
    let content = "msgid \"k\"\nmsgstr \"one\"\nmsgid \"k\"\nmsgstr \"two\"\nmsgid \"\"\nmsgstr \"header\"\nmsgid \"e\"\nmsgstr \"\"\n";
    let result = parse_po_file(content);
    assert_eq!(result.len(), 1);
    assert_eq!(lookup(&result, "k"), Some(&"two".to_string()));
}

#[test]
fn parse_po_file_continues_msgid() {
    let content = "msgid \"ui.\"\n\"title\"\nmsgstr \"Title\"\n";
    let result = parse_po_file(content);
    assert_eq!(lookup(&result, "ui.title"), Some(&"Title".to_string()));
}

#[test]
fn parse_po_file_needs_both_parts_in_order() {
    let result = parse_po_file("msgstr \"a\"\nmsgid \"k\"\n");
    assert!(result.is_empty());
    let result = parse_po_file("msgid \"k\"\nmsgstr \"v\"\nmsgstr \"w\"\n");
    assert_eq!(lookup(&result, "k"), Some(&"w".to_string()));
    let result = parse_po_file("   msgid \"k\"   \n\t msgstr \"v\"\n#msgid \"x\"\n");
    assert_eq!(result, vec![("k".to_string(), "v".to_string())]);
}
