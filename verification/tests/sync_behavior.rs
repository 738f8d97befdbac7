use mailstat::record::Entry;
use mailstat::record::Timestamp;
use mailstat::record::SENTINEL_EPOCH_SECS;
use mailstat::sync::SyncStop;
use mailstat::sync::apply_page;
use mailstat::sync::compute_cutoff;
use mailstat::sync::contains_id;
use mailstat::sync::sync_pages;

fn ts(epoch_secs: i64) -> Timestamp {
    Timestamp { epoch_secs, offset_secs: 0 }
}

fn entry(message_id: &str, epoch_secs: i64) -> Entry {
    Entry::new(
        format!("id-{}", message_id),
        message_id.to_string(),
        format!("{}@example.com", message_id),
        format!("subject of {}", message_id),
        ts(epoch_secs),
    )
}

fn sentinel() -> Timestamp {
    ts(SENTINEL_EPOCH_SECS)
}

fn ids_of(snapshot: &[Entry]) -> Vec<String> {
    snapshot.iter().map(|e| e.message_id.clone()).collect()
}

#[test]
fn empty_snapshot_one_page_two_kept_one_sentinel() {
    // Empty snapshot; one page of 3 entries: 2 within the window, 1 stamped
    // with the sentinel date.  The sentinel entry never enters the snapshot.
    let cutoff = ts(1_600_000_000);
    let page = vec![
        entry("m1", 1_700_000_000),
        entry("m2", 1_700_086_400),
        entry("bad", SENTINEL_EPOCH_SECS),
    ];
    let pages = vec![page];
    let (snapshot, stop) = sync_pages(Vec::new(), &pages, cutoff, sentinel());
    assert_eq!(snapshot.len(), 2);
    assert_eq!(ids_of(&snapshot), vec!["m1".to_string(), "m2".to_string()]);
    assert_eq!(stop, SyncStop::Exhausted);
}

#[test]
fn known_message_id_is_skipped_new_one_added() {
    // Snapshot already holds m1; the mailbox re-returns m1 plus a new m2:
    // the snapshot grows by exactly one.
    let cutoff = ts(1_600_000_000);
    let initial = vec![entry("m1", 1_700_000_000)];
    let pages = vec![vec![entry("m1", 1_700_000_000), entry("m2", 1_700_000_500)]];
    let (snapshot, _) = sync_pages(initial, &pages, cutoff, sentinel());
    assert_eq!(snapshot.len(), 2);
    assert_eq!(ids_of(&snapshot), vec!["m1".to_string(), "m2".to_string()]);
}

#[test]
fn sub_cutoff_entry_stops_the_run_keeping_earlier_entries() {
    // The page's last entry is before the cutoff; the earlier in-page
    // entries are kept, and no later page is consulted.
    let cutoff = ts(1_600_000_000);
    let pages = vec![
        vec![
            entry("m1", 1_700_000_000),
            entry("m2", 1_699_000_000),
            entry("old", 1_500_000_000),
        ],
        vec![entry("m3", 1_400_000_000)],
    ];
    let (snapshot, stop) = sync_pages(Vec::new(), &pages, cutoff, sentinel());
    assert_eq!(ids_of(&snapshot), vec!["m1".to_string(), "m2".to_string()]);
    assert_eq!(stop, SyncStop::CutoffReached);
}

#[test]
fn empty_page_means_exhausted() {
    let cutoff = ts(1_600_000_000);
    let pages = vec![vec![entry("m1", 1_700_000_000)], vec![]];
    let (snapshot, stop) = sync_pages(Vec::new(), &pages, cutoff, sentinel());
    assert_eq!(snapshot.len(), 1);
    assert_eq!(stop, SyncStop::Exhausted);
}

#[test]
fn running_twice_changes_nothing() {
    // Dedup: a second run against identical responses leaves the snapshot's
    // message ids unchanged.
    let cutoff = ts(1_600_000_000);
    let pages = vec![
        vec![entry("m1", 1_700_100_000), entry("m2", 1_700_050_000)],
        vec![entry("m3", 1_700_000_000)],
    ];
    let (once, _) = sync_pages(Vec::new(), &pages, cutoff, sentinel());
    let (twice, _) = sync_pages(once.clone(), &pages, cutoff, sentinel());
    assert_eq!(ids_of(&once), ids_of(&twice));
    assert_eq!(once.len(), 3);
}

#[test]
fn cutoff_filters_ingestion_not_retention() {
    // A record before the cutoff already in the snapshot stays there.
    let cutoff = ts(1_600_000_000);
    let initial = vec![entry("ancient", 1_000_000_000)];
    let pages = vec![vec![entry("m1", 1_700_000_000)]];
    let (snapshot, _) = sync_pages(initial, &pages, cutoff, sentinel());
    assert_eq!(
        ids_of(&snapshot),
        vec!["ancient".to_string(), "m1".to_string()]
    );
}

#[test]
fn apply_page_reports_cutoff_and_discards_page_rest() {
    let cutoff = ts(1_600_000_000);
    let mut snapshot: Vec<Entry> = Vec::new();
    let page = vec![
        entry("m1", 1_700_000_000),
        entry("old", 1_000_000_000),
        entry("m2", 1_700_000_000),
    ];
    let reached = apply_page(&mut snapshot, &page, cutoff, sentinel());
    assert!(reached);
    assert_eq!(ids_of(&snapshot), vec!["m1".to_string()]);
}

#[test]
fn contains_id_sees_only_present_ids() {
    let snapshot = vec![entry("m1", 1_700_000_000), entry("m2", 1_700_000_001)];
    assert!(contains_id(&snapshot, &"m1".to_string()));
    assert!(contains_id(&snapshot, &"m2".to_string()));
    assert!(!contains_id(&snapshot, &"m3".to_string()));
}

#[test]
fn cutoff_is_now_minus_lookback() {
    let now = Timestamp { epoch_secs: 1_700_000_000, offset_secs: 3600 };
    let cutoff = compute_cutoff(now, 14);
    assert_eq!(cutoff.epoch_secs, 1_700_000_000 - 14 * 86400);
    assert_eq!(cutoff.offset_secs, 3600);
}

#[test]
fn entry_identity_is_the_message_id() {
    let a = entry("m1", 1);
    let mut b = entry("m1", 2);
    b.subject = "something else".to_string();
    let c = entry("m2", 1);
    assert!(a.same_identity(&b));
    assert!(!a.same_identity(&c));
}
