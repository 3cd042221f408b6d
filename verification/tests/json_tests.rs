use roblox_slang::json_tree::{json_translations, nested_json, JsonValue};
use roblox_slang::translation::Translation;

fn tr(key: &str, value: &str) -> Translation {
    Translation {
        key: key.to_string(),
        value: value.to_string(),
        locale: "en".to_string(),
        context: None,
    }
}

fn obj(entries: Vec<(&str, JsonValue)>) -> JsonValue {
    JsonValue::Object(entries.into_iter().map(|(k, v)| (k.to_string(), v)).collect())
}

fn text(s: &str) -> JsonValue {
    JsonValue::Str(s.to_string())
}

fn render(v: &JsonValue) -> String {
    match v {
        JsonValue::Str(s) => format!("{:?}", s),
        JsonValue::Other => "_".to_string(),
        JsonValue::Object(entries) => {
            let inner: Vec<String> =
                entries.iter().map(|(k, v)| format!("{}:{}", k, render(v))).collect();
            format!("{{{}}}", inner.join(","))
        }
    }
}

#[test]
fn translation_files_flatten_to_dotted_keys() {
    let file = obj(vec![
        ("ui", obj(vec![("buy", text("Buy")), ("count", JsonValue::Other), ("sub", obj(vec![("x", text("X"))]))])),
        ("top", text("T")),
    ]);
    let ts = json_translations(&file, "en");
    assert_eq!(ts, vec![tr("ui.buy", "Buy"), tr("ui.sub.x", "X"), tr("top", "T")]);
    assert!(json_translations(&JsonValue::Other, "en").is_empty());
}

#[test]
fn translations_nest_by_key_parts() {
    let tree = nested_json(&vec![tr("a.b", "1"), tr("d", "3"), tr("a.c", "2")]);
    assert_eq!(render(&tree), "{a:{b:\"1\",c:\"2\"},d:\"3\"}");
}

#[test]
fn later_keys_win_where_a_text_and_an_object_meet() {
    assert_eq!(render(&nested_json(&vec![tr("a", "1"), tr("a.b", "2")])), "{a:{b:\"2\"}}");
    assert_eq!(render(&nested_json(&vec![tr("a.b", "2"), tr("a", "1")])), "{a:\"1\"}");
    assert_eq!(render(&nested_json(&vec![tr("a", "1"), tr("a", "2")])), "{a:\"2\"}");
}

#[test]
fn empty_key_parts_are_skipped() {
    assert_eq!(render(&nested_json(&vec![tr("a..b", "1"), tr("..", "x")])), "{a:{b:\"1\"}}");
}

#[test]
fn nested_file_reads_back() {
    let ts = vec![tr("ui.buy", "Buy"), tr("ui.sell", "Sell"), tr("title", "Shop")];
    let back = json_translations(&nested_json(&ts), "en");
    assert_eq!(back, ts);
}
