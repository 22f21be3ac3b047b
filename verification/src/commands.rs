use vstd::prelude::*;

use crate::config::{strip_trailing_newlines, valid_path, MoodConfig};
use crate::date::{date_le, Date};
use crate::journal::{
    lookup, range_entries, upsert, views_of, EntryV, Journal, JournalEntry, JournalError,
};
use crate::rating::Rating;

verus! {

/// The note recorded for an optional note argument: the given text, or
/// empty when none was given.
pub open spec fn note_of(note: Option<String>) -> Seq<char> {
    match note {
        Some(n) => n@,
        None => Seq::empty(),
    }
}

/// Records the given mood and note under today's date and hands back the
/// entry that the upsert replaced, if any.
pub fn add(journal: &mut Journal, today: Date, mood: Rating, note: Option<String>) -> (prev:
    Option<JournalEntry>)
    requires
        old(journal).wf(),
        today.valid(),
    ensures
        final(journal).wf(),
        final(journal)@ == upsert(
            old(journal)@,
            EntryV { date: today, mood: mood, note: note_of(note) },
        ),
        (match prev {
            Some(p) => lookup(old(journal)@, today) == Some(p@),
            None => lookup(old(journal)@, today) is None,
        }),
{
    let text = match note {
        Some(n) => n,
        None => String::new(),
    };
    let entry = JournalEntry::new(today, mood, text);
    journal.add_entry(entry)
}

/// The entry for the given date, or for today when no date was given.
pub fn get<'a>(journal: &'a Journal, today: Date, date: Option<Date>) -> (r: Option<
    &'a JournalEntry,
>)
    requires
        journal.wf(),
    ensures
        (match r {
            Some(e) => lookup(
                journal@,
                (match date {
                    Some(d) => d,
                    None => today,
                }),
            ) == Some(e@),
            None => lookup(
                journal@,
                (match date {
                    Some(d) => d,
                    None => today,
                }),
            ) is None,
        }),
{
    match date {
        Some(d) => journal.get(&d),
        None => journal.get(&today),
    }
}

/// The lower bound a list command resolves to: the given date, or fourteen
/// days before today when none was given.
pub open spec fn resolved_from(today: Date, from: Option<Date>) -> Date {
    match from {
        Some(f) => f,
        None => today.spec_sub_days(14).unwrap(),
    }
}

/// The upper bound a list command resolves to: the given date, or today
/// when none was given.
pub open spec fn resolved_to(today: Date, to: Option<Date>) -> Date {
    match to {
        Some(t) => t,
        None => today,
    }
}

/// The entries inside the listing window, which defaults to the fourteen
/// days before today through today.
pub fn list<'a>(journal: &'a Journal, today: Date, from: Option<Date>, to: Option<Date>) -> (r:
    Result<Vec<&'a JournalEntry>, JournalError>)
    requires
        journal.wf(),
        today.valid(),
        from is None ==> today.spec_sub_days(14) is Some,
    ensures
        r is Ok <==> (journal@.len() == 0 || date_le(
            resolved_from(today, from),
            resolved_to(today, to),
        )),
        (match r {
            Ok(v) => views_of(v@) == range_entries(
                journal@,
                resolved_from(today, from),
                resolved_to(today, to),
            ),
            Err(e) => e == JournalError::InvalidDateRange,
        }),
{
    let f = match from {
        Some(f) => f,
        None => today.checked_sub_days(14).unwrap(),
    };
    let t = match to {
        Some(t) => t,
        None => today,
    };
    journal.get_entries(&f, &t)
}

/// Replaces the configured journal path from the user's text, reporting
/// whether the text was a usable path.
pub fn config(cfg: &mut MoodConfig, file: &str) -> (ok: bool)
    ensures
        ok == valid_path(strip_trailing_newlines(file@)),
        ok ==> final(cfg).journal_path@ == strip_trailing_newlines(file@),
        !ok ==> final(cfg).journal_path@ == old(cfg).journal_path@,
{
    cfg.update_journal_path(file)
}

} // verus!
