use roblox_slang::cloud::{
    decimal_text, entries_url, error_from_response, first_table, invalid_id_text, parse_u64,
    table_id_kind, table_url, universe_tables_url, CloudSyncError, TableIdKind,
};

#[test]
fn unauthorized_and_forbidden_are_authentication_errors() {
    match error_from_response(401, None, "{\"error\": \"Unauthorized\"}") {
        CloudSyncError::AuthenticationError(m) => {
            assert!(m.contains("Invalid or expired API key"));
            assert!(m.ends_with("Response: {\"error\": \"Unauthorized\"}"));
        }
        other => panic!("unexpected {:?}", other),
    }
    match error_from_response(403, None, "denied") {
        CloudSyncError::AuthenticationError(m) => assert!(m.contains("Insufficient permissions")),
        other => panic!("unexpected {:?}", other),
    }
}

#[test]
fn rate_limit_uses_retry_after_or_one_second() {
    assert_eq!(
        error_from_response(429, Some(7), "slow down"),
        CloudSyncError::RateLimitError { retry_after: 7, attempt: 1 }
    );
    let e = error_from_response(429, None, "slow down");
    assert_eq!(e, CloudSyncError::RateLimitError { retry_after: 1, attempt: 1 });
    let text = e.message();
    assert!(text.contains("Rate limit"));
    assert!(text.contains("retry"));
}

#[test]
fn server_errors_keep_their_status() {
    let e = error_from_response(503, None, "Service temporarily unavailable");
    match &e {
        CloudSyncError::ServerError { status, message } => {
            assert_eq!(*status, 503);
            assert!(message.contains("server error"));
        }
        other => panic!("unexpected {:?}", other),
    }
    assert!(e.message().contains("Server error"));
    assert!(matches!(error_from_response(500, None, ""), CloudSyncError::ServerError { status: 500, .. }));
    assert!(matches!(error_from_response(599, None, ""), CloudSyncError::ServerError { status: 599, .. }));
}

#[test]
fn other_statuses_are_api_errors() {
    assert_eq!(
        error_from_response(400, None, "Invalid table id"),
        CloudSyncError::ApiError("API request failed with status 400: Invalid table id".to_string())
    );
    assert!(matches!(error_from_response(600, None, ""), CloudSyncError::ApiError(_)));
}

#[test]
fn decimal_text_spells_numbers() {
    assert_eq!(decimal_text(0), "0");
    assert_eq!(decimal_text(7), "7");
    assert_eq!(decimal_text(429), "429");
    assert_eq!(decimal_text(u64::MAX), u64::MAX.to_string());
}

#[test]
fn parse_u64_reads_like_std() {
    for text in ["0", "42", "+42", "18446744073709551615", "", "+", "-1", "1a", " 1", "18446744073709551616", "007"] {
        assert_eq!(parse_u64(text), text.parse::<u64>().ok(), "{text}");
    }
}

#[test]
fn table_ids_and_universe_ids() {
    assert_eq!(table_id_kind("123e4567-e89b-12d3-a456-426614174000"), TableIdKind::TableId);
    assert_eq!(table_id_kind("1234567890"), TableIdKind::UniverseId);
    assert_eq!(table_id_kind("abc"), TableIdKind::Invalid);
    assert_eq!(table_id_kind("12-34"), TableIdKind::Invalid);
    assert_eq!(invalid_id_text("abc"), "Invalid table ID or universe ID format: abc");
}

#[test]
fn first_table_of_a_universe() {
    assert_eq!(first_table(&vec!["t1".to_string(), "t2".to_string()], "9"), Ok("t1".to_string()));
    assert_eq!(
        first_table(&vec![], "9"),
        Err("No localization tables found for universe 9".to_string())
    );
}

#[test]
fn request_urls() {
    assert_eq!(
        entries_url("https://apis.roblox.com", "test-table-id", None),
        "https://apis.roblox.com/legacy-localization-tables/v1/localization-table/tables/test-table-id/entries"
    );
    assert_eq!(
        entries_url("http://x", "t", Some("42")),
        "http://x/legacy-localization-tables/v1/localization-table/tables/t/entries?gameId=42"
    );
    assert_eq!(
        table_url("http://x", "t", None),
        "http://x/legacy-localization-tables/v1/localization-table/tables/t"
    );
    assert_eq!(
        universe_tables_url("http://x", "9"),
        "http://x/cloud/v2/universes/9/localization-tables"
    );
}
