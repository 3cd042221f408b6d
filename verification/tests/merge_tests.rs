use roblox_slang::merge::{MergeEngine, MergeStrategy, TranslationTable};

fn table(items: &[(&str, &str, &str)]) -> TranslationTable {
    let mut t = TranslationTable::new();
    for (k, l, v) in items {
        t.insert(k.to_string(), l.to_string(), v.to_string());
    }
    t
}

fn create_test_local() -> TranslationTable {
    table(&[
        ("ui.button.buy", "en", "Buy"),
        ("ui.button.sell", "en", "Sell"),
        ("ui.button.buy", "id", "Beli"),
    ])
}

fn create_test_cloud() -> TranslationTable {
    table(&[("ui.button.buy", "en", "Purchase"), ("ui.button.cancel", "en", "Cancel")])
}

fn t3(a: &str, b: &str, c: &str) -> (String, String, String) {
    (a.to_string(), b.to_string(), c.to_string())
}

#[test]
fn test_compute_diff() {
    let local = create_test_local();
    let cloud = create_test_cloud();

    let diff = MergeEngine::compute_diff(&local, &cloud);
    assert_eq!(diff.added_local.len(), 2);
    assert!(diff.added_local.contains(&t3("ui.button.sell", "en", "Sell")));
    assert!(diff.added_local.contains(&t3("ui.button.buy", "id", "Beli")));
    assert_eq!(diff.added_cloud.len(), 1);
    assert!(diff.added_cloud.contains(&t3("ui.button.cancel", "en", "Cancel")));
    assert_eq!(diff.modified_both.len(), 1);
    assert_eq!(diff.modified_both[0].0, "ui.button.buy");
    assert_eq!(diff.modified_both[0].1, "en");
    assert_eq!(diff.modified_both[0].2, "Buy");
    assert_eq!(diff.modified_both[0].3, "Purchase");
}

#[test]
fn test_overwrite_strategy() {
    let local = create_test_local();
    let cloud = create_test_cloud();

    let diff = MergeEngine::compute_diff(&local, &cloud);
    let result = MergeEngine::apply_strategy(&diff, MergeStrategy::Overwrite, &local);
    assert_eq!(result.to_upload.len(), 3);
    assert_eq!(result.to_download.len(), 0);
    assert_eq!(result.conflicts.len(), 0);
}

#[test]
fn test_merge_strategy() {
    let local = create_test_local();
    let cloud = create_test_cloud();

    let diff = MergeEngine::compute_diff(&local, &cloud);
    let result = MergeEngine::apply_strategy(&diff, MergeStrategy::Merge, &local);
    assert_eq!(result.to_upload.len(), 2);
    assert_eq!(result.to_download.len(), 2);
    assert_eq!(result.conflicts.len(), 0);
}

#[test]
fn test_skip_conflicts_strategy() {
    let local = create_test_local();
    let cloud = create_test_cloud();

    let diff = MergeEngine::compute_diff(&local, &cloud);
    let result = MergeEngine::apply_strategy(&diff, MergeStrategy::SkipConflicts, &local);
    assert_eq!(result.to_upload.len(), 2);
    assert_eq!(result.to_download.len(), 1);
    assert_eq!(result.conflicts.len(), 1);
    assert_eq!(result.conflicts[0].key, "ui.button.buy");
    assert_eq!(result.conflicts[0].locale, "en");
    assert_eq!(result.conflicts[0].local_value, "Buy");
    assert_eq!(result.conflicts[0].cloud_value, "Purchase");
}

#[test]
fn test_empty_diff() {
    let local = TranslationTable::new();
    let cloud = TranslationTable::new();

    let diff = MergeEngine::compute_diff(&local, &cloud);

    assert_eq!(diff.added_local.len(), 0);
    assert_eq!(diff.added_cloud.len(), 0);
    assert_eq!(diff.modified_both.len(), 0);
}

#[test]
fn test_identical_translations() {
    let local = table(&[("ui.button", "en", "Buy")]);
    let cloud = table(&[("ui.button", "en", "Buy")]);

    let diff = MergeEngine::compute_diff(&local, &cloud);
    assert_eq!(diff.added_local.len(), 0);
    assert_eq!(diff.added_cloud.len(), 0);
    assert_eq!(diff.modified_both.len(), 0);
}

#[test]
fn merge_strategy_downloads_cloud_only_then_cloud_values() {
    let local = create_test_local();
    let cloud = create_test_cloud();
    let diff = MergeEngine::compute_diff(&local, &cloud);
    let result = MergeEngine::apply_strategy(&diff, MergeStrategy::Merge, &local);
    assert_eq!(
        result.to_download,
        vec![t3("ui.button.cancel", "en", "Cancel"), t3("ui.button.buy", "en", "Purchase")]
    );
    assert_eq!(
        result.to_upload,
        vec![t3("ui.button.sell", "en", "Sell"), t3("ui.button.buy", "id", "Beli")]
    );
}

#[test]
fn merged_sides_converge() {
    // Applying the merge decisions to both sides leaves them equal.
    let local = create_test_local();
    let cloud = create_test_cloud();
    let diff = MergeEngine::compute_diff(&local, &cloud);
    let result = MergeEngine::apply_strategy(&diff, MergeStrategy::Merge, &local);
    let mut new_local = create_test_local();
    for (k, l, v) in &result.to_download {
        new_local.insert(k.clone(), l.clone(), v.clone());
    }
    let mut new_cloud = create_test_cloud();
    for (k, l, v) in &result.to_upload {
        new_cloud.insert(k.clone(), l.clone(), v.clone());
    }
    assert_eq!(new_local.len(), new_cloud.len());
    for (k, l, v) in new_local.entries() {
        assert_eq!(new_cloud.get(k, l), Some(v));
    }
    assert_eq!(new_local.get("ui.button.buy", "en"), Some(&"Purchase".to_string()));
}

#[test]
fn table_insert_returns_previous_and_keeps_one_entry_per_pair() {
    let mut t = TranslationTable::new();
    assert_eq!(t.insert("k".to_string(), "en".to_string(), "1".to_string()), None);
    assert_eq!(
        t.insert("k".to_string(), "en".to_string(), "2".to_string()),
        Some("1".to_string())
    );
    assert_eq!(t.len(), 1);
    assert_eq!(t.get("k", "en"), Some(&"2".to_string()));
    assert_eq!(t.get("k", "id"), None);
}
