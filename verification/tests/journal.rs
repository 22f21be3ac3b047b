use mood::date::{today, Date};
use mood::journal::{Journal, JournalEntry};
use mood::rating::Rating;

#[test]
fn add_entries_to_journal() {
    let mut journal = Journal::default();

    assert!(journal.len() == 0);

    let now = today().expect("today is a representable date");
    let first = journal.add_entry(JournalEntry {
        date: now,
        mood: Rating::Neutral,
        note: String::from("Was alright"),
    });

    assert!(first.is_none());
    assert!(journal.len() == 1);

    let second = journal.add_entry(JournalEntry {
        date: now
            .checked_add_days(1)
            .expect("should be able to increment day by one"),
        mood: Rating::Neutral,
        note: String::from("Was alright"),
    });

    assert!(second.is_none());
    assert!(journal.len() == 2);
}

#[test]
fn add_duplicate_entry_to_journal() {
    let mut journal = Journal::default();
    let now = today().expect("today is a representable date");
    let first_add = journal.add_entry(JournalEntry {
        date: now,
        mood: Rating::Neutral,
        note: String::from("Was alright"),
    });

    assert!(first_add.is_none());

    let second_add = journal.add_entry(JournalEntry {
        date: now,
        mood: Rating::Neutral,
        note: String::from("Was alright"),
    });

    assert!(second_add.is_some());
}

#[test]
fn get_entries() {
    let mut journal = Journal::default();

    let now = today().expect("today is a representable date");
    let yesterday = now.checked_sub_days(1).unwrap();
    let tomorrow = now.checked_add_days(1).unwrap();
    let day_after_tomorrow = now.checked_add_days(2).unwrap();

    let yesterday_entry = JournalEntry {
        date: yesterday,
        mood: Rating::Bad,
        note: String::from("Yesterday"),
    };
    let now_entry = JournalEntry {
        date: now,
        mood: Rating::Neutral,
        note: String::from("Today"),
    };
    let day_after_tomorrow_entry = JournalEntry {
        date: day_after_tomorrow,
        mood: Rating::Great,
        note: String::from("Day after tomorrow"),
    };

    // Add in "wrong order"
    journal.add_entry(day_after_tomorrow_entry);
    journal.add_entry(now_entry.clone());
    journal.add_entry(yesterday_entry.clone());

    let entries = &journal.get_entries(&yesterday, &tomorrow).unwrap();

    let to_cmp = &vec![&yesterday_entry, &now_entry];
    assert!(entries == to_cmp);
}

#[test]
fn get_entries_invalid_range() {
    let mut journal = Journal::default();

    let now = today().expect("today is a representable date");
    let yesterday = now.checked_sub_days(1).unwrap();
    let tomorrow = now.checked_add_days(1).unwrap();
    let day_after_tomorrow = now.checked_add_days(2).unwrap();

    let yesterday_entry = JournalEntry {
        date: yesterday,
        mood: Rating::Bad,
        note: String::from("Yesterday"),
    };
    let now_entry = JournalEntry {
        date: now,
        mood: Rating::Neutral,
        note: String::from("Today"),
    };
    let day_after_tomorrow_entry = JournalEntry {
        date: day_after_tomorrow,
        mood: Rating::Great,
        note: String::from("Day after tomorrow"),
    };

    // Add in "wrong order"
    journal.add_entry(day_after_tomorrow_entry);
    journal.add_entry(now_entry);
    journal.add_entry(yesterday_entry);

    assert!(journal.get_entries(&tomorrow, &yesterday).is_err());
}

#[test]
fn upsert_same_date_keeps_one_entry_and_returns_previous() {
    let mut journal = Journal::new();
    let d = Date { year: 2023, month: 5, day: 17 };

    let first = journal.add_entry(JournalEntry {
        date: d,
        mood: Rating::Bad,
        note: String::from("first note"),
    });
    assert!(first.is_none());

    let second = journal.add_entry(JournalEntry {
        date: d,
        mood: Rating::Great,
        note: String::from("second note"),
    });
    let prev = second.expect("the second upsert replaces the first entry");
    assert_eq!(prev.date, d);
    assert_eq!(prev.mood, Rating::Bad);
    assert_eq!(prev.note, "first note");

    assert_eq!(journal.len(), 1);
    let current = journal.get(&d).expect("the date stays present");
    assert_eq!(current.mood, Rating::Great);
    assert_eq!(current.note, "second note");
}

#[test]
fn lookup_finds_each_entry_and_misses_absent_dates() {
    let mut journal = Journal::new();
    let dates = [
        Date { year: 2023, month: 1, day: 5 },
        Date { year: 2023, month: 2, day: 1 },
        Date { year: 2023, month: 2, day: 14 },
    ];
    let moods = [Rating::Awful, Rating::Neutral, Rating::Good];

    journal.add_entry(JournalEntry {
        date: dates[2],
        mood: moods[2],
        note: String::from("third"),
    });
    journal.add_entry(JournalEntry {
        date: dates[0],
        mood: moods[0],
        note: String::from("first"),
    });
    journal.add_entry(JournalEntry {
        date: dates[1],
        mood: moods[1],
        note: String::from("second"),
    });

    for (i, d) in dates.iter().enumerate() {
        let e = journal.get(d).expect("every inserted date is found");
        assert_eq!(e.date, *d);
        assert_eq!(e.mood, moods[i]);
    }
    assert!(journal.get(&Date { year: 2023, month: 1, day: 6 }).is_none());
}

#[test]
fn empty_journal_accepts_reversed_range() {
    let journal = Journal::new();
    let from = Date { year: 2023, month: 6, day: 2 };
    let to = Date { year: 2023, month: 6, day: 1 };
    let entries = journal
        .get_entries(&from, &to)
        .expect("an empty journal never rejects a range");
    assert!(entries.is_empty());
}

#[test]
fn range_query_keeps_ascending_order_and_bounds() {
    let mut journal = Journal::new();
    let d1 = Date { year: 2023, month: 1, day: 1 };
    let d2 = Date { year: 2023, month: 1, day: 2 };
    let d4 = Date { year: 2023, month: 1, day: 4 };

    journal.add_entry(JournalEntry { date: d4, mood: Rating::Good, note: String::new() });
    journal.add_entry(JournalEntry { date: d1, mood: Rating::Bad, note: String::new() });
    journal.add_entry(JournalEntry { date: d2, mood: Rating::Neutral, note: String::new() });

    let entries = journal
        .get_entries(&d1, &Date { year: 2023, month: 1, day: 3 })
        .unwrap();
    assert_eq!(entries.len(), 2);
    assert_eq!(entries[0].date, d1);
    assert_eq!(entries[1].date, d2);
}
