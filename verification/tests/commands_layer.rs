use mood::commands;
use mood::config::MoodConfig;
use mood::date::Date;
use mood::journal::Journal;
use mood::rating::Rating;

#[test]
fn default_list_window_is_the_last_fifteen_days() {
    let mut journal = Journal::new();
    let today = Date { year: 2023, month: 6, day: 30 };
    let mut day = today.checked_sub_days(19).unwrap();
    for i in 0..20u64 {
        commands::add(&mut journal, day, Rating::Neutral, Some(format!("day {i}")));
        day = day.checked_add_days(1).unwrap();
    }
    assert_eq!(journal.len(), 20);

    let listed = commands::list(&journal, today, None, None).unwrap();
    assert_eq!(listed.len(), 15);
    assert_eq!(listed[0].date, today.checked_sub_days(14).unwrap());
    assert_eq!(listed[0].date, Date { year: 2023, month: 6, day: 16 });
    assert_eq!(listed[14].date, today);
}

#[test]
fn list_defaults_each_missing_bound() {
    let mut journal = Journal::new();
    let today = Date { year: 2023, month: 6, day: 30 };
    let far_past = Date { year: 2023, month: 1, day: 1 };
    let past = Date { year: 2023, month: 6, day: 20 };
    for d in [far_past, past, today] {
        commands::add(&mut journal, d, Rating::Good, None);
    }

    let from_given = commands::list(&journal, today, Some(far_past), None).unwrap();
    assert_eq!(from_given.len(), 3);

    let to_given = commands::list(&journal, today, None, Some(past)).unwrap();
    assert_eq!(to_given.len(), 1);
    assert_eq!(to_given[0].date, past);

    let both_given = commands::list(&journal, today, Some(past), Some(today)).unwrap();
    assert_eq!(both_given.len(), 2);

    assert!(commands::list(&journal, today, Some(today), Some(past)).is_err());
}

#[test]
fn add_command_defaults_the_note_to_empty() {
    let mut journal = Journal::new();
    let today = Date { year: 2023, month: 7, day: 4 };
    let prev = commands::add(&mut journal, today, Rating::Great, None);
    assert!(prev.is_none());

    let found = commands::get(&journal, today, None).expect("today's entry exists");
    assert_eq!(found.note, "");
    assert_eq!(found.mood, Rating::Great);

    let by_date = commands::get(&journal, Date { year: 2023, month: 1, day: 1 }, Some(today))
        .expect("an explicit date wins over today");
    assert_eq!(by_date.date, today);
    assert!(commands::get(&journal, today, Some(Date { year: 2023, month: 1, day: 1 })).is_none());
}

#[test]
fn config_command_updates_the_path() {
    let mut config = MoodConfig { journal_path: String::from("/old.ron") };
    assert!(commands::config(&mut config, "/new.ron\n"));
    assert_eq!(config.journal_path, "/new.ron");
    assert!(!commands::config(&mut config, ""));
    assert_eq!(config.journal_path, "/new.ron");
}
