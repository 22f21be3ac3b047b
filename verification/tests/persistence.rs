use mood::date::Date;
use mood::error::MoodError;
use mood::journal::{Journal, JournalEntry};
use mood::rating::Rating;

#[test]
fn serialize_exact_text() {
    let mut journal = Journal::new();
    journal.add_entry(JournalEntry {
        date: Date { year: 2023, month: 1, day: 2 },
        mood: Rating::Neutral,
        note: String::from("hi"),
    });
    assert_eq!(
        journal.serialize(),
        "(data:[(date:\"2023-01-02\",mood:Neutral,note:\"hi\"),])"
    );
}

#[test]
fn serialize_empty_journal() {
    let journal = Journal::new();
    assert_eq!(journal.serialize(), "(data:[])");
}

#[test]
fn round_trip_preserves_entries() {
    let mut journal = Journal::new();
    let entries = vec![
        JournalEntry {
            date: Date { year: 2023, month: 1, day: 2 },
            mood: Rating::Awful,
            note: String::from("a \"quoted\" note with a \\ backslash"),
        },
        JournalEntry {
            date: Date { year: 2023, month: 1, day: 3 },
            mood: Rating::Great,
            note: String::new(),
        },
        JournalEntry {
            date: Date { year: 2024, month: 2, day: 29 },
            mood: Rating::Neutral,
            note: String::from("leap day,with:punctuation)"),
        },
    ];
    for e in &entries {
        journal.add_entry(e.clone());
    }

    let text = journal.serialize();
    let back = Journal::deserialize(&text).expect("a serialized journal parses back");
    assert_eq!(back.len(), entries.len());
    for e in &entries {
        let found = back.get(&e.date).expect("every entry survives the round trip");
        assert_eq!(found, e);
    }
}

#[test]
fn deserialize_rejects_malformed_text() {
    let err = Journal::deserialize("not a journal").unwrap_err();
    assert!(matches!(err, MoodError::JournalFileError(_)));
    assert!(Journal::deserialize("(data:[").is_err());
    assert!(Journal::deserialize("(data:[(date:\"2023-01-02\",mood:Calm,note:\"x\"),])").is_err());
    assert!(Journal::deserialize("(data:[])trailing").is_err());
}

#[test]
fn deserialize_rejects_invalid_date() {
    let text = "(data:[(date:\"2023-13-02\",mood:Neutral,note:\"x\"),])";
    assert!(Journal::deserialize(text).is_err());
    let text2 = "(data:[(date:\"2023-02-30\",mood:Neutral,note:\"x\"),])";
    assert!(Journal::deserialize(text2).is_err());
}

#[test]
fn deserialize_rejects_unsorted_entries() {
    let text = "(data:[(date:\"2023-01-03\",mood:Neutral,note:\"a\"),(date:\"2023-01-02\",mood:Neutral,note:\"b\"),])";
    assert!(Journal::deserialize(text).is_err());
    let dup = "(data:[(date:\"2023-01-03\",mood:Neutral,note:\"a\"),(date:\"2023-01-03\",mood:Neutral,note:\"b\"),])";
    assert!(Journal::deserialize(dup).is_err());
}

#[test]
fn init_without_file_gives_empty_journal() {
    let journal = Journal::init(None).expect("a missing file means an empty journal");
    assert_eq!(journal.len(), 0);

    let loaded = Journal::init(Some("(data:[(date:\"2023-01-02\",mood:Good,note:\"x\"),])"))
        .expect("a well-formed file loads");
    assert_eq!(loaded.len(), 1);
    assert!(Journal::init(Some("broken")).is_err());
}

#[test]
fn error_messages_name_the_file() {
    let journal_err = MoodError::JournalFileError(String::from("boom"));
    assert_eq!(
        journal_err.message(),
        "Failed an operation related to the journal file: boom"
    );
    let config_err = MoodError::ConfigFileError(String::from("bang"));
    assert_eq!(
        config_err.message(),
        "Failed an operation related to the configuration file: bang"
    );
}
