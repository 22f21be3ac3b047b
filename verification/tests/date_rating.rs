use mood::date::{date_from_ymd, today, Date};
use mood::rating::Rating;

#[test]
fn date_arithmetic_crosses_month_and_year_boundaries() {
    let leap = Date { year: 2024, month: 2, day: 28 };
    assert_eq!(leap.checked_add_days(1), Some(Date { year: 2024, month: 2, day: 29 }));
    assert_eq!(leap.checked_add_days(2), Some(Date { year: 2024, month: 3, day: 1 }));

    let plain = Date { year: 2023, month: 2, day: 28 };
    assert_eq!(plain.checked_add_days(1), Some(Date { year: 2023, month: 3, day: 1 }));

    let century = Date { year: 1900, month: 2, day: 28 };
    assert_eq!(century.checked_add_days(1), Some(Date { year: 1900, month: 3, day: 1 }));

    let new_year = Date { year: 2023, month: 12, day: 31 };
    assert_eq!(new_year.checked_add_days(1), Some(Date { year: 2024, month: 1, day: 1 }));

    assert_eq!(
        Date { year: 2024, month: 3, day: 1 }.checked_sub_days(1),
        Some(Date { year: 2024, month: 2, day: 29 })
    );
    assert_eq!(
        Date { year: 2024, month: 1, day: 1 }.checked_sub_days(1),
        Some(Date { year: 2023, month: 12, day: 31 })
    );

    assert_eq!(Date { year: 0, month: 1, day: 1 }.checked_sub_days(1), None);
    assert_eq!(Date { year: 9999, month: 12, day: 31 }.checked_add_days(1), None);
}

#[test]
fn date_order_is_by_year_month_day() {
    let a = Date { year: 2022, month: 12, day: 31 };
    let b = Date { year: 2023, month: 1, day: 1 };
    let c = Date { year: 2023, month: 1, day: 2 };
    assert!(a.before(&b));
    assert!(b.before(&c));
    assert!(!c.before(&b));
    assert!(b.on_or_before(&b));
    assert!(!c.on_or_before(&b));
}

#[test]
fn date_validity_knows_month_lengths() {
    assert!(Date { year: 2024, month: 2, day: 29 }.is_valid());
    assert!(!Date { year: 2023, month: 2, day: 29 }.is_valid());
    assert!(!Date { year: 1900, month: 2, day: 29 }.is_valid());
    assert!(Date { year: 2000, month: 2, day: 29 }.is_valid());
    assert!(!Date { year: 2023, month: 4, day: 31 }.is_valid());
    assert!(!Date { year: 2023, month: 0, day: 1 }.is_valid());
    assert!(!Date { year: 2023, month: 13, day: 1 }.is_valid());
    assert!(!Date { year: 10000, month: 1, day: 1 }.is_valid());
}

#[test]
fn date_from_ymd_accepts_exactly_the_representable_dates() {
    assert_eq!(
        date_from_ymd(2023, 6, 30),
        Some(Date { year: 2023, month: 6, day: 30 })
    );
    assert_eq!(
        date_from_ymd(0, 1, 1),
        Some(Date { year: 0, month: 1, day: 1 })
    );
    assert_eq!(
        date_from_ymd(9999, 12, 31),
        Some(Date { year: 9999, month: 12, day: 31 })
    );
    assert_eq!(date_from_ymd(-5, 1, 1), None);
    assert_eq!(date_from_ymd(10000, 1, 1), None);
    assert_eq!(date_from_ymd(2023, 2, 29), None);
    assert_eq!(date_from_ymd(2023, 13, 1), None);
    assert_eq!(date_from_ymd(2023, 6, 0), None);
}

#[test]
fn today_is_a_valid_date() {
    let now = today().expect("the clock's date fits four digits");
    assert!(now.is_valid());
    assert!((1..=12).contains(&now.month));
    assert!((1..=31).contains(&now.day));
}

#[test]
fn ratings_map_to_their_ordinal_numbers() {
    assert_eq!(u8::from(Rating::Awful), 1);
    assert_eq!(u8::from(Rating::Bad), 2);
    assert_eq!(u8::from(Rating::Neutral), 3);
    assert_eq!(u8::from(Rating::Good), 4);
    assert_eq!(u8::from(Rating::Great), 5);
}

#[test]
fn ratings_come_from_drawn_indices() {
    assert_eq!(Rating::from_index(0), Rating::Awful);
    assert_eq!(Rating::from_index(1), Rating::Bad);
    assert_eq!(Rating::from_index(2), Rating::Neutral);
    assert_eq!(Rating::from_index(3), Rating::Good);
    assert_eq!(Rating::from_index(4), Rating::Great);
    assert_eq!(Rating::from_index(200), Rating::Great);
}
