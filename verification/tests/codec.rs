use send_me::codec::decode;
use send_me::codec::encode;
use send_me::codec::DecodeError;
use send_me::codec::Note;
use send_me::date::parse_date;
use send_me::date::NoteDate;
use send_me::log::append_note;
use send_me::log::load_data;

fn sample_date() -> NoteDate {
    NoteDate {
        year: 2024,
        month: 1,
        day: 1,
        hour: 0,
        minute: 0,
        second: 0,
        offset_seconds: 0,
    }
}

fn sample_note() -> Note {
    Note {
        id: 7,
        text: String::from("hello"),
        date: sample_date(),
        reciever: String::from("bob"),
        sender: String::from("alice"),
    }
}

#[test]
fn encode_exact_record() {
    let r = encode(&sample_note());
    assert_eq!(
        r,
        "7\u{a7}\u{a7}\u{a7}hello\u{a7}\u{a7}\u{a7}2024-01-01 00:00:00 +0000\u{a7}\u{a7}\u{a7}alice\u{a7}\u{a7}\u{a7}bob"
    );
}

#[test]
fn round_trip_plain_note() {
    let n = sample_note();
    let back = decode(&encode(&n)).unwrap();
    assert_eq!(back.id, 7);
    assert_eq!(back.text, "hello");
    assert_eq!(back.date, sample_date());
    assert_eq!(back.sender, "alice");
    assert_eq!(back.reciever, "bob");
}

#[test]
fn round_trip_negative_offset() {
    let n = Note {
        id: 42,
        text: String::from("x y z"),
        date: NoteDate {
            year: 1999,
            month: 12,
            day: 31,
            hour: 23,
            minute: 59,
            second: 59,
            offset_seconds: -(5 * 3600 + 30 * 60),
        },
        reciever: String::from("r"),
        sender: String::from("s"),
    };
    let text = encode(&n);
    assert!(text.contains("1999-12-31 23:59:59 -0530"));
    let back = decode(&text).unwrap();
    assert_eq!(back.date, n.date);
    assert_eq!(back.id, 42);
}

#[test]
fn round_trip_with_interior_section_sign() {
    let n = Note {
        id: 1,
        text: String::from("a\u{a7}b"),
        date: sample_date(),
        reciever: String::from("bob"),
        sender: String::from("alice"),
    };
    let back = decode(&encode(&n)).unwrap();
    assert_eq!(back.text, "a\u{a7}b");
    assert_eq!(back.sender, "alice");
}

#[test]
fn trailing_section_sign_corrupts_the_record() {
    // The format performs no escaping: a text ending in a section sign
    // fuses with the delimiter written after it, and the field boundaries
    // shift. This is the documented limitation of the on-disk form.
    let n = Note {
        id: 1,
        text: String::from("ab\u{a7}"),
        date: sample_date(),
        reciever: String::from("bob"),
        sender: String::from("alice"),
    };
    match decode(&encode(&n)) {
        Ok(m) => assert_ne!(m.text, "ab\u{a7}"),
        Err(_) => {}
    }
}

#[test]
fn legacy_four_field_record() {
    let r = "3\u{a7}\u{a7}\u{a7}hello\u{a7}\u{a7}\u{a7}2024-01-01 00:00:00 +0000\u{a7}\u{a7}\u{a7}alice";
    let n = decode(r).unwrap();
    assert_eq!(n.id, 3);
    assert_eq!(n.text, "hello");
    assert_eq!(n.sender, "alice");
    assert_eq!(n.reciever, "alice");
}

#[test]
fn malformed_id_reads_as_zero() {
    let r = "xyz\u{a7}\u{a7}\u{a7}hi\u{a7}\u{a7}\u{a7}2024-01-01 00:00:00 +0000\u{a7}\u{a7}\u{a7}alice";
    let n = decode(r).unwrap();
    assert_eq!(n.id, 0);
}

#[test]
fn overflowing_id_reads_as_zero() {
    let r = "99999999999999999999999\u{a7}\u{a7}\u{a7}hi\u{a7}\u{a7}\u{a7}2024-01-01 00:00:00 +0000\u{a7}\u{a7}\u{a7}alice";
    let n = decode(r).unwrap();
    assert_eq!(n.id, 0);
}

#[test]
fn malformed_date_is_fatal() {
    let r = "3\u{a7}\u{a7}\u{a7}hi\u{a7}\u{a7}\u{a7}not a date\u{a7}\u{a7}\u{a7}alice";
    assert_eq!(decode(r).unwrap_err(), DecodeError::BadDate);
    let log = format!("{}\n\u{a7}!\u{a7}\n", r);
    assert_eq!(load_data(&log).unwrap_err(), DecodeError::BadDate);
}

#[test]
fn too_few_fields_is_an_error() {
    assert_eq!(decode("just text").unwrap_err(), DecodeError::MissingFields);
}

#[test]
fn date_parse_accepts_only_the_fixed_form() {
    assert!(parse_date("2024-01-01 00:00:00 +0000").is_some());
    assert!(parse_date("2024-1-1 00:00:00 +0000").is_none());
    assert!(parse_date("2024-01-01 00:00:00 +00:00").is_none());
    assert!(parse_date("2024-01-01T00:00:00 +0000").is_none());
    assert!(parse_date("2024-13-01 00:00:00 +0000").is_none());
    assert!(parse_date("2024-02-30 00:00:00 +0000").is_none());
    assert!(parse_date("2024-02-29 00:00:00 +0000").is_some());
    assert!(parse_date("2023-02-29 00:00:00 +0000").is_none());
    assert!(parse_date("2024-01-01 24:00:00 +0000").is_none());
    assert!(parse_date("2024-01-01 00:00:00 +2459").is_none());
    assert!(parse_date("2024-01-01 00:00:00 -2359").is_some());
}

#[test]
fn parsed_offset_is_in_seconds() {
    let d = parse_date("2024-06-15 12:30:45 +0530").unwrap();
    assert_eq!(d.offset_seconds, 5 * 3600 + 30 * 60);
    let e = parse_date("2024-06-15 12:30:45 -0100").unwrap();
    assert_eq!(e.offset_seconds, -3600);
}

#[test]
fn log_entry_ends_with_record_delimiter() {
    let entry = append_note(&sample_note());
    assert!(entry.ends_with("\n\u{a7}!\u{a7}\n"));
    assert!(entry.starts_with("7\u{a7}\u{a7}\u{a7}hello"));
}

#[test]
fn replay_preserves_order() {
    let a = Note {
        id: 0,
        text: String::from("first"),
        date: sample_date(),
        reciever: String::from("bob"),
        sender: String::from("alice"),
    };
    let b = Note {
        id: 1,
        text: String::from("second"),
        date: sample_date(),
        reciever: String::from("alice"),
        sender: String::from("bob"),
    };
    let mut log = String::new();
    log.push_str(&append_note(&a));
    log.push_str(&append_note(&b));
    let notes = load_data(&log).unwrap();
    assert_eq!(notes.len(), 2);
    assert_eq!(notes[0].text, "first");
    assert_eq!(notes[1].text, "second");
    assert_eq!(notes[0].id, 0);
    assert_eq!(notes[1].id, 1);
}

#[test]
fn replay_skips_empty_chunks() {
    let notes = load_data("").unwrap();
    assert!(notes.is_empty());
    let entry = append_note(&sample_note());
    let doubled = format!("\n\u{a7}!\u{a7}\n{}", entry);
    let notes = load_data(&doubled).unwrap();
    assert_eq!(notes.len(), 1);
}
