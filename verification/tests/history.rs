use rest_client::history::{History, HistoryEntry, MAX_ENTRIES};

#[test]
fn test_add_and_format() {
    let mut h = History::default();
    h.add(HistoryEntry {
        method: "GET".to_string(),
        url: "https://example.com".to_string(),
        status: 200,
        elapsed_ms: 150,
        timestamp: 1000,
    });
    h.add(HistoryEntry {
        method: "POST".to_string(),
        url: "https://example.com/api".to_string(),
        status: 201,
        elapsed_ms: 300,
        timestamp: 2000,
    });
    assert_eq!(h.entries().len(), 2);
    let formatted = h.format();
    assert!(formatted.contains("POST"));
    assert!(formatted.contains("GET"));
}

#[test]
fn test_max_entries() {
    let mut h = History::default();
    for i in 0..60 {
        h.add(HistoryEntry {
            method: "GET".to_string(),
            url: format!("https://example.com/{i}"),
            status: 200,
            elapsed_ms: 100,
            timestamp: i as u64,
        });
    }
    assert_eq!(h.entries().len(), MAX_ENTRIES);
    // Oldest entries should be trimmed
    assert!(h.entries()[0].url.contains("/10"));
}

#[test]
fn format_exact_newest_first() {
    let mut h = History::default();
    assert_eq!(h.format(), "No request history.");
    h.add(HistoryEntry {
        method: "GET".to_string(),
        url: "https://a.test".to_string(),
        status: 200,
        elapsed_ms: 5,
        timestamp: 1,
    });
    h.add(HistoryEntry {
        method: "POST".to_string(),
        url: "https://b.test".to_string(),
        status: 404,
        elapsed_ms: 1234,
        timestamp: 2,
    });
    assert_eq!(
        h.format(),
        "1. [404] POST https://b.test \u{2014} 1234ms\n2. [200] GET https://a.test \u{2014} 5ms\n"
    );
}

#[test]
fn history_bound_keeps_newest_last() {
    let mut h = History::default();
    for i in 0..51u64 {
        h.add(HistoryEntry {
            method: "GET".to_string(),
            url: format!("u{i}"),
            status: 200,
            elapsed_ms: 1,
            timestamp: i,
        });
    }
    assert_eq!(h.entries().len(), 50);
    assert_eq!(h.entries()[49].url, "u50");
    assert_eq!(h.entries()[0].url, "u1");
}
