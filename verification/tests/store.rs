use send_me::codec::Note;
use send_me::codec::NoteDto;
use send_me::date::date_wf;
use send_me::date::now_date;
use send_me::date::NoteDate;
use send_me::log::load_data;
use send_me::store::Store;

fn sample_date() -> NoteDate {
    NoteDate {
        year: 2024,
        month: 1,
        day: 1,
        hour: 0,
        minute: 0,
        second: 0,
        offset_seconds: 0,
    }
}

fn note(id: usize, text: &str, sender: &str, reciever: &str) -> Note {
    Note {
        id,
        text: String::from(text),
        date: sample_date(),
        reciever: String::from(reciever),
        sender: String::from(sender),
    }
}

#[test]
fn seeding_from_replayed_ids() {
    let notes = vec![
        note(0, "a", "alice", "bob"),
        note(2, "b", "alice", "bob"),
        note(5, "c", "alice", "bob"),
    ];
    let mut store = Store::initialize(notes);
    assert_eq!(store.get_id(), 6);
}

#[test]
fn seeding_from_empty_log() {
    let mut store = Store::initialize(Vec::new());
    assert_eq!(store.get_id(), 0);
}

#[test]
fn ids_distinct_and_increasing() {
    let mut store = Store::initialize(Vec::new());
    let mut issued: Vec<usize> = Vec::new();
    for _ in 0..1000 {
        issued.push(store.get_id());
    }
    for k in 1..issued.len() {
        assert!(issued[k - 1] < issued[k]);
    }
    let mut sorted = issued.clone();
    sorted.dedup();
    assert_eq!(sorted.len(), 1000);
    assert_eq!(issued[0], 0);
    assert_eq!(issued[999], 999);
}

#[test]
fn latest_for_scans_from_the_end() {
    let notes = vec![
        note(0, "one", "alice", "bob"),
        note(1, "two", "carol", "alice"),
    ];
    let store = Store::initialize(notes);
    let hit = store.latest_for(&String::from("alice")).unwrap();
    assert_eq!(hit.text, "two");
    assert!(store.latest_for(&String::from("dave")).is_none());
}

#[test]
fn snapshot_copies_everything_in_order() {
    let notes = vec![note(0, "one", "a", "b"), note(1, "two", "c", "d")];
    let store = Store::initialize(notes);
    let copy = store.snapshot();
    assert_eq!(copy.len(), 2);
    assert_eq!(copy[0].text, "one");
    assert_eq!(copy[1].text, "two");
}

#[test]
fn create_note_defaults_receiver_to_sender() {
    let mut store = Store::initialize(Vec::new());
    let dto = NoteDto {
        text: String::from("hi"),
        sender: String::from("alice"),
        reciever: None,
        persist: false,
    };
    let (n, entry) = store.create_note(dto, sample_date());
    assert_eq!(n.reciever, "alice");
    assert!(entry.is_none());
}

#[test]
fn end_to_end_scenario() {
    // Start with an empty log.
    let replayed = load_data("").unwrap();
    assert!(replayed.is_empty());
    let mut store = Store::initialize(replayed);

    // Create one persisted note.
    let dto = NoteDto {
        text: String::from("hi"),
        sender: String::from("alice"),
        reciever: Some(String::from("bob")),
        persist: true,
    };
    let (n, entry) = store.create_note(dto, sample_date());
    assert_eq!(n.id, 0);
    let entry = entry.unwrap();
    assert!(entry.ends_with("\n\u{a7}!\u{a7}\n"));

    // The index sees exactly that note.
    let snap = store.snapshot();
    assert_eq!(snap.len(), 1);
    assert_eq!(snap[0].text, "hi");
    let hit = store.latest_for(&String::from("bob")).unwrap();
    assert_eq!(hit.id, 0);

    // Restart: replay the file contents the caller would have written.
    let replayed = load_data(&entry).unwrap();
    assert_eq!(replayed.len(), 1);
    assert_eq!(replayed[0].id, 0);
    assert_eq!(replayed[0].text, "hi");
    assert_eq!(replayed[0].sender, "alice");
    assert_eq!(replayed[0].reciever, "bob");
    assert_eq!(replayed[0].date, sample_date());
    let mut store = Store::initialize(replayed);
    assert_eq!(store.get_id(), 1);
}

#[test]
fn clock_gives_calendar_fields_in_range() {
    let d = now_date();
    assert!((1..=12).contains(&d.month));
    assert!((1..=31).contains(&d.day));
    assert!(d.hour <= 23 && d.minute <= 59 && d.second <= 59);
    assert!(d.offset_seconds.abs() <= 86399);
    // On any machine with a whole-minute zone offset this is a valid date.
    if d.offset_seconds % 60 == 0 && d.year <= 9999 {
        assert!(date_wf(&d));
    }
}
