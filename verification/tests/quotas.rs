//! The declared ceilings.
use registry::quotas::{decimal_text, parse_context_quotas, quotas_of_rows, storage_quota_message, QuotaFault};

#[test]
fn context_quota_parsing_accepts_the_shape_and_refuses_the_traps() {
    assert!(parse_context_quotas(None).ok().unwrap().len() == 0);

    let quotas = parse_context_quotas(Some(
        r#"{"tenant-a": {"storage_bytes": 1024, "cache_bytes": 2048},
            "tenant-b": {"storage_bytes": 512}}"#,
    ))
    .ok()
    .unwrap();
    assert_eq!(quotas.get("tenant-a").unwrap().storage_bytes, Some(1024));
    assert_eq!(quotas.get("tenant-a").unwrap().cache_bytes, Some(2048));
    assert_eq!(quotas.get("tenant-b").unwrap().storage_bytes, Some(512));
    assert_eq!(quotas.get("tenant-b").unwrap().cache_bytes, None);

    for broken in [
        "",
        "   ",
        "{not json}",
        r#"{"a": {}}"#,
        r#"{"a": {"storage_byte": 1}}"#,
        r#"{"a": {"storage_bytes": 0}}"#,
        r#"{"a": {"cache_bytes": 0, "storage_bytes": 1}}"#,
    ] {
        assert!(parse_context_quotas(Some(broken)).is_err(), "{broken:?}");
    }
}

fn fault(raw: &str) -> QuotaFault {
    match parse_context_quotas(Some(raw)) {
        Ok(_) => panic!("{raw} was accepted"),
        Err(fault) => fault,
    }
}

#[test]
fn each_trap_is_named() {
    assert!(matches!(fault(" "), QuotaFault::Blank));
    assert!(matches!(fault("[1]"), QuotaFault::Malformed));
    assert!(matches!(fault(r#"{"a": {"storage_bytes": -1}}"#), QuotaFault::Malformed));
    assert!(matches!(fault(r#"{"a": {"storage_bytes": null}}"#), QuotaFault::NoCeiling { context } if context == "a"));
    assert!(matches!(fault(r#"{"a": {"cache_bytes": 0}}"#), QuotaFault::ZeroCeiling { context } if context == "a"));
    assert!(
        matches!(fault(r#"{"a": {"cache_byte": 1}}"#), QuotaFault::UnknownField { context, field } if context == "a" && field == "cache_byte")
    );
    // The first context in name order is the one that is named.
    assert!(matches!(fault(r#"{"z": {}, "b": {"storage_bytes": 0}}"#), QuotaFault::ZeroCeiling { context } if context == "b"));
}

#[test]
fn rows_come_to_ceilings() {
    let rows = vec![
        ("a".to_string(), vec![("cache_bytes".to_string(), Some(7)), ("storage_bytes".to_string(), None)]),
        ("b".to_string(), vec![("storage_bytes".to_string(), Some(9))]),
    ];
    let quotas = quotas_of_rows(&rows).ok().unwrap();
    assert_eq!(quotas.len(), 2);
    assert_eq!(quotas.get("a").unwrap().cache_bytes, Some(7));
    assert_eq!(quotas.get("a").unwrap().storage_bytes, None);
    assert_eq!(quotas.get("b").unwrap().storage_bytes, Some(9));
    assert!(quotas_of_rows(&Vec::new()).ok().unwrap().len() == 0);
}

#[test]
fn a_refusal_says_what_is_used_and_what_may_be() {
    assert_eq!(
        storage_quota_message("酒", 2048, 1024),
        "the context '酒' is at its storage quota: 2048 of 1024 bytes are in use; retract or compact to make room"
    );
    for n in [0, 9, 10, 99, 100, 1_234_567_890, u64::MAX] {
        assert_eq!(decimal_text(n), n.to_string());
    }
}
