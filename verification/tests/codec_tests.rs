use emseries::BikeTrip;
use emseries::DeletableRecord;
use emseries::Error;
use emseries::Recordable;
use emseries::Timestamp;
use emseries::UniqueId;

#[test]
fn id_text_is_hyphenated_lowercase_hex() {
    let id = UniqueId { raw: 0x3330c5b0783f4919b2c48169c38f65ff };
    assert_eq!(id.text(), String::from("3330c5b0-783f-4919-b2c4-8169c38f65ff"));
    let zero = UniqueId { raw: 0 };
    assert_eq!(zero.text(), String::from("00000000-0000-0000-0000-000000000000"));
}

#[test]
fn id_parses_from_text() {
    let id = UniqueId::from_str("3330c5b0-783f-4919-b2c4-8169c38f65ff")
        .expect("something is wrong with this ID");
    assert_eq!(id.raw, 0x3330c5b0783f4919b2c48169c38f65ff);
    let upper = UniqueId::from_str("3330C5B0-783F-4919-B2C4-8169C38F65FF")
        .expect("uppercase hex parses too");
    assert_eq!(upper.raw, id.raw);
}

#[test]
fn id_round_trips_through_text() {
    for _ in 0..8 {
        let id = UniqueId::new();
        let text = id.text();
        assert_eq!(text.chars().count(), 36);
        let back = UniqueId::from_str(text.as_str()).expect("own text parses");
        assert_eq!(back, id);
    }
}

#[test]
fn id_parse_rejects_malformed_text() {
    assert_eq!(UniqueId::from_str(""), Err(Error::IdentifierParseError));
    assert_eq!(UniqueId::from_str("zzz"), Err(Error::IdentifierParseError));
    assert_eq!(
        UniqueId::from_str("3330c5b0x783f-4919-b2c4-8169c38f65ff"),
        Err(Error::IdentifierParseError)
    );
    assert_eq!(
        UniqueId::from_str("3330c5b0-783f-4919-b2c4-8169c38f65f"),
        Err(Error::IdentifierParseError)
    );
}

#[test]
fn fresh_ids_differ() {
    let a = UniqueId::new();
    let b = UniqueId::new();
    assert_ne!(a, b);
}

#[test]
fn trip_encoding_round_trips() {
    let source = BikeTrip {
        datetime: Timestamp::from_ymd_hms(2003, 11, 10, 6, 0, 0),
        distance: 77,
        duration: 3600,
        comments: String::from("quotes \" and \\ and\nnewlines"),
        tags: vec![String::from("Long!"), String::from("with \"escapes\\")],
    };
    let text = source.encode();
    assert!(!text.contains('\n'), "an encoding must stay on one line");
    let decoded = BikeTrip::decode(text.as_str()).expect("own encoding decodes");
    assert_eq!(decoded, source);
}

#[test]
fn trip_decode_rejects_malformed_text() {
    assert!(BikeTrip::decode("").is_none());
    assert!(BikeTrip::decode("short").is_none());
    let mut text = BikeTrip {
        datetime: Timestamp::from_ymd(2020, 1, 1),
        distance: 1,
        duration: 1,
        comments: String::new(),
        tags: Vec::new(),
    }
    .encode();
    text.push('x');
    assert!(BikeTrip::decode(text.as_str()).is_none(), "trailing junk is rejected");
}

#[test]
fn entry_lines_round_trip() {
    let trip = BikeTrip {
        datetime: Timestamp::from_ymd(2003, 11, 10),
        distance: 77,
        duration: 60,
        comments: String::from("weight check"),
        tags: Vec::new(),
    };
    let id = UniqueId::new();
    let entry = DeletableRecord { id, data: Some(trip.clone()) };
    let line = entry.to_line();
    assert!(line.starts_with("{\"id\":\""));
    assert!(line.contains("\",\"data\":"));
    assert!(line.ends_with("}"));
    let back: DeletableRecord<BikeTrip> =
        DeletableRecord::from_line(line.as_str()).expect("own line parses");
    assert_eq!(back.id, id);
    assert_eq!(back.data, Some(trip));

    let tombstone: DeletableRecord<BikeTrip> = DeletableRecord { id, data: None };
    let line = tombstone.to_line();
    assert_eq!(line, format!("{{\"id\":\"{}\",\"data\":null}}", id.text()));
    let back: DeletableRecord<BikeTrip> =
        DeletableRecord::from_line(line.as_str()).expect("tombstone parses");
    assert_eq!(back.id, id);
    assert!(back.data.is_none());
}

#[test]
fn entry_line_rejects_garbage() {
    assert!(DeletableRecord::<BikeTrip>::from_line("").is_err());
    assert!(DeletableRecord::<BikeTrip>::from_line("{\"id\":\"tooshort\",\"data\":null}").is_err());
    let id = UniqueId::new();
    let line = format!("{{\"id\":\"{}\",\"data\":junk}}", id.text());
    assert_eq!(
        DeletableRecord::<BikeTrip>::from_line(line.as_str()).err(),
        Some(Error::DeserializationError)
    );
}

#[test]
fn timestamps_order_by_calendar() {
    let early = Timestamp::from_ymd(2011, 10, 29);
    let late = Timestamp::from_ymd_hms(2011, 10, 29, 0, 0, 1);
    let much_later = Timestamp::from_ymd(2011, 11, 4);
    assert!(early.ticks < late.ticks);
    assert!(late.ticks < much_later.ticks);
    assert_eq!(early, Timestamp::from_ymd(2011, 10, 29));
}
