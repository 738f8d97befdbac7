use mailstat::aggregate::count_by_date;
use mailstat::aggregate::count_by_domain;
use mailstat::record::Entry;
use mailstat::record::Timestamp;
use mailstat::record::SENTINEL_EPOCH_SECS;
use mailstat::report::filter_window;
use mailstat::report::sort_domain_rows;
use mailstat::report::weekday_of;
use mailstat::sync::sync_pages;

fn ts(epoch_secs: i64, offset_secs: i32) -> Timestamp {
    Timestamp { epoch_secs, offset_secs }
}

fn entry(message_id: &str, from: &str, epoch: i64, offset: i32) -> Entry {
    Entry::new(
        format!("id-{}", message_id),
        message_id.to_string(),
        from.to_string(),
        "subject".to_string(),
        ts(epoch, offset),
    )
}

fn sentinel() -> Timestamp {
    ts(SENTINEL_EPOCH_SECS, 0)
}

#[test]
fn day_counts_are_exact_and_sorted() {
    // 1_700_000_000 falls on day 19675; 1_700_086_400 on day 19676.
    let entries = vec![
        entry("m1", "a@x.com", 1_700_086_400, 0),
        entry("m2", "b@x.com", 1_700_000_000, 0),
        entry("m3", "c@x.com", 1_700_000_100, 0),
    ];
    let rows = count_by_date(&entries, sentinel());
    assert_eq!(rows, vec![(19675, 2), (19676, 1)]);
}

#[test]
fn day_bucket_follows_the_stored_offset() {
    // The same instant falls on different calendar days in different
    // offsets: 1_700_006_300 is late on day 19675 in UTC, but already day
    // 19676 at +0200.
    let entries = vec![
        entry("m1", "a@x.com", 1_700_006_300, 0),
        entry("m2", "b@x.com", 1_700_006_300, 7200),
    ];
    let rows = count_by_date(&entries, sentinel());
    assert_eq!(rows, vec![(19675, 1), (19676, 1)]);
}

#[test]
fn sentinel_records_count_nowhere() {
    // Defense in depth: even when a sentinel-stamped record sits in the
    // collection, neither aggregate counts it.
    let entries = vec![
        entry("m1", "a@x.com", 1_700_000_000, 0),
        entry("bad", "b@x.com", SENTINEL_EPOCH_SECS, 0),
    ];
    let day_rows = count_by_date(&entries, sentinel());
    let total: usize = day_rows.iter().map(|r| r.1).sum();
    assert_eq!(total, 1);
    let (dom_rows, skipped) = count_by_domain(&entries, sentinel());
    let dom_total: usize = dom_rows.iter().map(|r| r.1).sum();
    assert_eq!(dom_total, 1);
    assert_eq!(skipped, 0);
}

#[test]
fn domain_counts_group_by_parsed_domain() {
    let entries = vec![
        entry("m1", "alice@example.com", 1_700_000_000, 0),
        entry("m2", "bob@example.com", 1_700_000_001, 0),
        entry("m3", "carol@test.org", 1_700_000_002, 0),
        entry("m4", "not an address", 1_700_000_003, 0),
    ];
    let (rows, skipped) = count_by_domain(&entries, sentinel());
    assert_eq!(
        rows,
        vec![("example.com".to_string(), 2), ("test.org".to_string(), 1)]
    );
    assert_eq!(skipped, 1);
}

#[test]
fn domain_totals_count_the_parseable_valid_records() {
    let entries = vec![
        entry("m1", "a@one.com", 1_700_000_000, 0),
        entry("m2", "b@two.com", 1_700_000_001, 0),
        entry("m3", "broken", 1_700_000_002, 0),
        entry("bad", "c@three.com", SENTINEL_EPOCH_SECS - 10, 0),
    ];
    let (rows, skipped) = count_by_domain(&entries, sentinel());
    let total: usize = rows.iter().map(|r| r.1).sum();
    assert_eq!(total, 2);
    assert_eq!(skipped, 1);
}

#[test]
fn scenario_one_page_aggregates() {
    // Empty snapshot, one page of 3 entries: 2 within the window, 1 at the
    // sentinel date.  The snapshot ends with 2 records, the day aggregate
    // has 2 buckets for these dates, and the domain aggregate sums to 2.
    let cutoff = ts(1_600_000_000, 0);
    let pages = vec![vec![
        entry("m1", "a@one.com", 1_700_086_400, 0),
        entry("m2", "b@two.com", 1_700_000_000, 0),
        entry("bad", "c@three.com", SENTINEL_EPOCH_SECS, 0),
    ]];
    let (snapshot, _) = sync_pages(Vec::new(), &pages, cutoff, sentinel());
    assert_eq!(snapshot.len(), 2);
    let day_rows = count_by_date(&snapshot, sentinel());
    assert_eq!(day_rows.len(), 2);
    let (dom_rows, skipped) = count_by_domain(&snapshot, sentinel());
    let total: usize = dom_rows.iter().map(|r| r.1).sum();
    assert_eq!(total, 2);
    assert_eq!(skipped, 0);
}

#[test]
fn domain_rows_sort_by_count_then_domain() {
    let rows = vec![
        ("b.com".to_string(), 1),
        ("c.com".to_string(), 2),
        ("a.com".to_string(), 2),
    ];
    let sorted = sort_domain_rows(rows);
    assert_eq!(
        sorted,
        vec![
            ("a.com".to_string(), 2),
            ("c.com".to_string(), 2),
            ("b.com".to_string(), 1),
        ]
    );
}

#[test]
fn weekdays_follow_the_calendar() {
    // 1970-01-01 (day 0) was a Thursday; 2023-11-14 (day 19675) a Tuesday.
    assert_eq!(weekday_of(0), "Thu");
    assert_eq!(weekday_of(1), "Fri");
    assert_eq!(weekday_of(-1), "Wed");
    assert_eq!(weekday_of(19675), "Tue");
    assert_eq!(weekday_of(19676), "Wed");
}

#[test]
fn window_keeps_only_records_at_or_after_the_cutoff() {
    let cutoff = ts(1_700_000_000, 0);
    let entries = vec![
        entry("m1", "a@x.com", 1_699_999_999, 0),
        entry("m2", "b@x.com", 1_700_000_000, 0),
        entry("m3", "c@x.com", 1_700_000_001, 0),
    ];
    let windowed = filter_window(&entries, cutoff);
    let ids: Vec<String> = windowed.iter().map(|e| e.message_id.clone()).collect();
    assert_eq!(ids, vec!["m2".to_string(), "m3".to_string()]);
}
