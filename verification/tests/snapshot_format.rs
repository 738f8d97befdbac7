use mailstat::codec::decode_snapshot;
use mailstat::codec::encode_snapshot;
use mailstat::record::Entry;
use mailstat::record::Timestamp;

fn entry(id: &str, message_id: &str, from: &str, subject: &str, epoch: i64, offset: i32) -> Entry {
    Entry::new(
        id.to_string(),
        message_id.to_string(),
        from.to_string(),
        subject.to_string(),
        Timestamp { epoch_secs: epoch, offset_secs: offset },
    )
}

fn same_entry(a: &Entry, b: &Entry) -> bool {
    a.id == b.id
        && a.message_id == b.message_id
        && a.from_addr == b.from_addr
        && a.subject == b.subject
        && a.date.epoch_secs == b.date.epoch_secs
        && a.date.offset_secs == b.date.offset_secs
}

#[test]
fn round_trip_preserves_records_and_offsets() {
    let snapshot = vec![
        entry("1", "m1", "alice@example.com", "hello", 1_700_000_000, 3600),
        entry("2", "m2", "bob@test.org", "re: hello", 1_700_086_400, -28800),
        entry("3", "m3", "carol@mail.net", "", -5, 0),
    ];
    let text = encode_snapshot(&snapshot);
    let back = decode_snapshot(&text).unwrap();
    assert_eq!(back.len(), snapshot.len());
    for (a, b) in snapshot.iter().zip(back.iter()) {
        assert!(same_entry(a, b));
    }
}

#[test]
fn round_trip_survives_tabs_newlines_backslashes_and_unicode() {
    let snapshot = vec![entry(
        "id\twith\ttabs",
        "m\nwith\nnewlines",
        "weird\\back\\slash@dömäin.example",
        "subject with \t, \n and \\ all at once",
        -1_234_567_890,
        -3599,
    )];
    let text = encode_snapshot(&snapshot);
    let back = decode_snapshot(&text).unwrap();
    assert_eq!(back.len(), 1);
    assert!(same_entry(&snapshot[0], &back[0]));
}

#[test]
fn empty_snapshot_encodes_to_empty_text() {
    let text = encode_snapshot(&Vec::new());
    assert_eq!(text, "");
    let back = decode_snapshot("").unwrap();
    assert!(back.is_empty());
}

#[test]
fn encoded_form_is_line_oriented() {
    let snapshot = vec![entry("1", "m1", "a@b.c", "s", 1_700_000_000, 60)];
    let text = encode_snapshot(&snapshot);
    assert_eq!(text, "1\tm1\ta@b.c\ts\t1700000000\t60\n");
}

#[test]
fn malformed_text_is_a_parse_error() {
    assert!(decode_snapshot("not a snapshot").is_err());
    // a line with too few fields
    assert!(decode_snapshot("a\tb\tc\n").is_err());
    // a number that is not a number
    assert!(decode_snapshot("1\tm1\ta@b.c\ts\tnope\t60\n").is_err());
    // a dangling escape
    assert!(decode_snapshot("1\tm1\ta@b.c\ts\\\t1700000000\t60\n").is_err());
    // an offset outside the representable range
    assert!(decode_snapshot("1\tm1\ta@b.c\ts\t1700000000\t99999999999\n").is_err());
    // an epoch outside the representable range
    assert!(
        decode_snapshot("1\tm1\ta@b.c\ts\t99999999999999999999999999\t60\n").is_err()
    );
    // a truncated final line
    assert!(decode_snapshot("1\tm1\ta@b.c\ts\t1700000000\t60").is_err());
}

#[test]
fn negative_timestamps_round_trip() {
    let snapshot = vec![entry("1", "m1", "a@b.c", "s", i64::MIN, i32::MIN)];
    let text = encode_snapshot(&snapshot);
    let back = decode_snapshot(&text).unwrap();
    assert_eq!(back[0].date.epoch_secs, i64::MIN);
    assert_eq!(back[0].date.offset_secs, i32::MIN);
}
