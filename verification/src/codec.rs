use vstd::prelude::*;

use crate::date::Date;
use crate::journal::{EntryV, JournalEntry};
use crate::rating::Rating;

verus! {

// The persisted journal is a structured, human-readable text:
//     (data:[(date:"YYYY-MM-DD",mood:Name,note:"..."),...])
// with a four-digit year, two-digit month and day, the mood under its
// symbolic name, and the note quoted with `\` escaping `"` and `\`.
// The persisted configuration is (journal_path:"...") with the same quoting.
pub open spec fn digit_char(n: int) -> char {
    if n == 0 {
        '0'
    } else if n == 1 {
        '1'
    } else if n == 2 {
        '2'
    } else if n == 3 {
        '3'
    } else if n == 4 {
        '4'
    } else if n == 5 {
        '5'
    } else if n == 6 {
        '6'
    } else if n == 7 {
        '7'
    } else if n == 8 {
        '8'
    } else {
        '9'
    }
}

pub open spec fn char_digit(c: char) -> int {
    if c == '0' {
        0
    } else if c == '1' {
        1
    } else if c == '2' {
        2
    } else if c == '3' {
        3
    } else if c == '4' {
        4
    } else if c == '5' {
        5
    } else if c == '6' {
        6
    } else if c == '7' {
        7
    } else if c == '8' {
        8
    } else if c == '9' {
        9
    } else {
        -1
    }
}

pub open spec fn is_digit(c: char) -> bool {
    char_digit(c) >= 0
}

/// The ten characters YYYY-MM-DD of a date.
pub open spec fn ser_date(d: Date) -> Seq<char> {
    seq![
        digit_char(d.year as int / 1000),
        digit_char((d.year as int / 100) % 10),
        digit_char((d.year as int / 10) % 10),
        digit_char(d.year as int % 10),
        '-',
        digit_char(d.month as int / 10),
        digit_char(d.month as int % 10),
        '-',
        digit_char(d.day as int / 10),
        digit_char(d.day as int % 10),
    ]
}

/// The date read from the first ten characters, without a validity check.
pub open spec fn parse_date(s: Seq<char>) -> Option<Date> {
    if s.len() >= 10 && is_digit(s[0]) && is_digit(s[1]) && is_digit(s[2]) && is_digit(s[3])
        && s[4] == '-' && is_digit(s[5]) && is_digit(s[6]) && s[7] == '-' && is_digit(s[8])
        && is_digit(s[9]) {
        let y = char_digit(s[0]) * 1000 + char_digit(s[1]) * 100 + char_digit(s[2]) * 10
            + char_digit(s[3]);
        let m = char_digit(s[5]) * 10 + char_digit(s[6]);
        let d = char_digit(s[8]) * 10 + char_digit(s[9]);
        Some(Date { year: y as u16, month: m as u8, day: d as u8 })
    } else {
        None
    }
}

/// The note's characters with `"` and `\` each preceded by a backslash.
pub open spec fn escape(s: Seq<char>) -> Seq<char>
    decreases s.len(),
{
    if s.len() == 0 {
        Seq::empty()
    } else {
        (if s[0] == '"' || s[0] == '\\' {
            seq!['\\', s[0]]
        } else {
            seq![s[0]]
        }) + escape(s.skip(1))
    }
}

/// The quoted text read up to its closing quote: the unescaped content and
/// what follows the quote.
pub open spec fn parse_string_body(s: Seq<char>) -> Option<(Seq<char>, Seq<char>)>
    decreases s.len(),
{
    if s.len() == 0 {
        None
    } else if s[0] == '"' {
        Some((Seq::empty(), s.skip(1)))
    } else if s[0] == '\\' {
        if s.len() >= 2 && (s[1] == '"' || s[1] == '\\') {
            match parse_string_body(s.skip(2)) {
                Some(p) => Some((seq![s[1]] + p.0, p.1)),
                None => None,
            }
        } else {
            None
        }
    } else {
        match parse_string_body(s.skip(1)) {
            Some(p) => Some((seq![s[0]] + p.0, p.1)),
            None => None,
        }
    }
}

/// The symbolic name of a rating.
pub open spec fn rating_name(m: Rating) -> Seq<char> {
    match m {
        Rating::Awful => seq!['A', 'w', 'f', 'u', 'l'],
        Rating::Bad => seq!['B', 'a', 'd'],
        Rating::Neutral => seq!['N', 'e', 'u', 't', 'r', 'a', 'l'],
        Rating::Good => seq!['G', 'o', 'o', 'd'],
        Rating::Great => seq!['G', 'r', 'e', 'a', 't'],
    }
}

pub open spec fn starts_with(s: Seq<char>, p: Seq<char>) -> bool {
    p.len() <= s.len() && s.take(p.len() as int) == p
}

/// The rating read from a leading symbolic name, and what follows it.
pub open spec fn parse_mood(s: Seq<char>) -> Option<(Rating, Seq<char>)> {
    if starts_with(s, rating_name(Rating::Awful)) {
        Some((Rating::Awful, s.skip(5)))
    } else if starts_with(s, rating_name(Rating::Bad)) {
        Some((Rating::Bad, s.skip(3)))
    } else if starts_with(s, rating_name(Rating::Neutral)) {
        Some((Rating::Neutral, s.skip(7)))
    } else if starts_with(s, rating_name(Rating::Good)) {
        Some((Rating::Good, s.skip(4)))
    } else if starts_with(s, rating_name(Rating::Great)) {
        Some((Rating::Great, s.skip(5)))
    } else {
        None
    }
}

pub open spec fn entry_open() -> Seq<char> {
    seq!['(', 'd', 'a', 't', 'e', ':', '"']
}

pub open spec fn entry_mid1() -> Seq<char> {
    seq!['"', ',', 'm', 'o', 'o', 'd', ':']
}

pub open spec fn entry_mid2() -> Seq<char> {
    seq![',', 'n', 'o', 't', 'e', ':', '"']
}

pub open spec fn entry_close() -> Seq<char> {
    seq![')', ',']
}

pub open spec fn journal_open() -> Seq<char> {
    seq!['(', 'd', 'a', 't', 'a', ':', '[']
}

pub open spec fn journal_close() -> Seq<char> {
    seq![']', ')']
}

/// One serialized entry, with its trailing comma.
pub open spec fn ser_entry(e: EntryV) -> Seq<char> {
    entry_open() + ser_date(e.date) + entry_mid1() + rating_name(e.mood) + entry_mid2() + escape(
        e.note,
    ) + seq!['"'] + entry_close()
}

/// The serialized entries, one after the other.
pub open spec fn ser_entries(es: Seq<EntryV>) -> Seq<char>
    decreases es.len(),
{
    if es.len() == 0 {
        Seq::empty()
    } else {
        ser_entry(es[0]) + ser_entries(es.skip(1))
    }
}

/// The whole serialized journal.
pub open spec fn ser_journal(es: Seq<EntryV>) -> Seq<char> {
    journal_open() + ser_entries(es) + journal_close()
}

/// One entry read from the front, and what follows it; the date must be a
/// real calendar date.
pub open spec fn parse_entry(s: Seq<char>) -> Option<(EntryV, Seq<char>)> {
    if !starts_with(s, entry_open()) {
        None
    } else {
        let s1 = s.skip(7);
        match parse_date(s1) {
            None => None,
            Some(d) => {
                if !d.valid() {
                    None
                } else {
                    let s2 = s1.skip(10);
                    if !starts_with(s2, entry_mid1()) {
                        None
                    } else {
                        let s3 = s2.skip(7);
                        match parse_mood(s3) {
                            None => None,
                            Some(mp) => {
                                let s4 = mp.1;
                                if !starts_with(s4, entry_mid2()) {
                                    None
                                } else {
                                    let s5 = s4.skip(7);
                                    match parse_string_body(s5) {
                                        None => None,
                                        Some(np) => {
                                            let s6 = np.1;
                                            if !starts_with(s6, entry_close()) {
                                                None
                                            } else {
                                                Some(
                                                    (
                                                        EntryV {
                                                            date: d,
                                                            mood: mp.0,
                                                            note: np.0,
                                                        },
                                                        s6.skip(2),
                                                    ),
                                                )
                                            }
                                        },
                                    }
                                }
                            },
                        }
                    }
                }
            },
        }
    }
}

/// The entry list read up to the closing `])`, which must end the text.
pub open spec fn parse_entries(s: Seq<char>) -> Option<Seq<EntryV>>
    decreases s.len(),
{
    if s.len() == 2 && s[0] == ']' && s[1] == ')' {
        Some(Seq::empty())
    } else {
        match parse_entry(s) {
            None => None,
            Some(p) => {
                if p.1.len() < s.len() {
                    match parse_entries(p.1) {
                        None => None,
                        Some(es) => Some(seq![p.0] + es),
                    }
                } else {
                    None
                }
            },
        }
    }
}

/// The whole journal read back from its serialized text.
pub open spec fn parse_journal(s: Seq<char>) -> Option<Seq<EntryV>> {
    if starts_with(s, journal_open()) {
        parse_entries(s.skip(7))
    } else {
        None
    }
}

/// A sequence that disagrees with the pattern at one index does not start
/// with it.
proof fn lemma_not_prefix(s: Seq<char>, p: Seq<char>, i: int)
    requires
        0 <= i < p.len(),
        i < s.len(),
        s[i] != p[i],
    ensures
        !starts_with(s, p),
{
    if p.len() <= s.len() {
        assert(s.take(p.len() as int)[i] == s[i]);
    }
}

/// A concatenation starts with its first part, and skipping it leaves the
/// second.
pub proof fn lemma_prefix_skip(p: Seq<char>, rest: Seq<char>)
    ensures
        starts_with(p + rest, p),
        (p + rest).skip(p.len() as int) == rest,
{
    assert((p + rest).take(p.len() as int) =~= p);
    assert((p + rest).skip(p.len() as int) =~= rest);
}

/// A number up to 9999 is recomposed from its four decimal digits.
proof fn lemma_decompose(y: int)
    requires
        0 <= y <= 9999,
    ensures
        (y / 1000) * 1000 + ((y / 100) % 10) * 100 + ((y / 10) % 10) * 10 + y % 10 == y,
{
    assert(y == (y / 10) * 10 + y % 10);
    assert(y / 10 == ((y / 10) / 10) * 10 + (y / 10) % 10);
    assert((y / 10) / 10 == y / 100) by (nonlinear_arith)
        requires 0 <= y <= 9999,
    ;
    assert(y / 100 == ((y / 100) / 10) * 10 + (y / 100) % 10);
    assert((y / 100) / 10 == y / 1000) by (nonlinear_arith)
        requires 0 <= y <= 9999,
    ;
}

/// A serialized date parses back to the same date.
proof fn lemma_date_round(d: Date, rest: Seq<char>)
    requires
        d.valid(),
    ensures
        parse_date(ser_date(d) + rest) == Some(d),
        (ser_date(d) + rest).skip(10) == rest,
{
    let s = ser_date(d) + rest;
    let y = d.year as int;
    let m = d.month as int;
    let dd = d.day as int;
    assert(s[0] == digit_char(y / 1000));
    assert(s[1] == digit_char((y / 100) % 10));
    assert(s[2] == digit_char((y / 10) % 10));
    assert(s[3] == digit_char(y % 10));
    assert(s[4] == '-');
    assert(s[5] == digit_char(m / 10));
    assert(s[6] == digit_char(m % 10));
    assert(s[7] == '-');
    assert(s[8] == digit_char(dd / 10));
    assert(s[9] == digit_char(dd % 10));
    assert(0 <= y / 1000 <= 9);
    assert(0 <= m / 10 <= 9);
    assert(0 <= dd / 10 <= 9);
    lemma_decompose(y);
    assert(char_digit(s[0]) * 1000 + char_digit(s[1]) * 100 + char_digit(s[2]) * 10 + char_digit(
        s[3],
    ) == y);
    assert(char_digit(s[5]) * 10 + char_digit(s[6]) == m);
    assert(char_digit(s[8]) * 10 + char_digit(s[9]) == dd);
    assert(parse_date(s) == Some(d));
    assert(s.skip(10) =~= rest);
}

/// A serialized rating name parses back to the same rating.
proof fn lemma_mood_round(m: Rating, rest: Seq<char>)
    ensures
        parse_mood(rating_name(m) + rest) == Some((m, rest)),
{
    let s = rating_name(m) + rest;
    lemma_prefix_skip(rating_name(m), rest);
    match m {
        Rating::Awful => {
        },
        Rating::Bad => {
            assert(s[0] == 'B');
            lemma_not_prefix(s, rating_name(Rating::Awful), 0);
        },
        Rating::Neutral => {
            assert(s[0] == 'N');
            lemma_not_prefix(s, rating_name(Rating::Awful), 0);
            lemma_not_prefix(s, rating_name(Rating::Bad), 0);
        },
        Rating::Good => {
            assert(s[0] == 'G');
            lemma_not_prefix(s, rating_name(Rating::Awful), 0);
            lemma_not_prefix(s, rating_name(Rating::Bad), 0);
            lemma_not_prefix(s, rating_name(Rating::Neutral), 0);
        },
        Rating::Great => {
            assert(s[0] == 'G');
            assert(s[1] == 'r');
            lemma_not_prefix(s, rating_name(Rating::Awful), 0);
            lemma_not_prefix(s, rating_name(Rating::Bad), 0);
            lemma_not_prefix(s, rating_name(Rating::Neutral), 0);
            lemma_not_prefix(s, rating_name(Rating::Good), 1);
        },
    }
}

/// An escaped and quoted note parses back to the same characters.
pub proof fn lemma_escape_round(note: Seq<char>, rest: Seq<char>)
    ensures
        parse_string_body(escape(note) + seq!['"'] + rest) == Some((note, rest)),
    decreases note.len(),
{
    let s = escape(note) + seq!['"'] + rest;
    if note.len() == 0 {
        assert(escape(note) =~= Seq::<char>::empty());
        assert(s[0] == '"');
        assert(s.skip(1) =~= rest);
    } else {
        lemma_escape_round(note.skip(1), rest);
        let tail = escape(note.skip(1)) + seq!['"'] + rest;
        if note[0] == '"' || note[0] == '\\' {
            assert(escape(note) == seq!['\\', note[0]] + escape(note.skip(1)));
            assert(s[0] == '\\');
            assert(s[1] == note[0]);
            assert(s.len() >= 2);
            assert(s.skip(2) =~= tail);
            assert(seq![note[0]] + note.skip(1) =~= note);
        } else {
            assert(escape(note) == seq![note[0]] + escape(note.skip(1)));
            assert(s[0] == note[0]);
            assert(s.skip(1) =~= tail);
            assert(seq![note[0]] + note.skip(1) =~= note);
        }
    }
}

/// A serialized entry parses back to the same entry, leaving exactly what
/// followed it.
#[verifier::rlimit(60)]
proof fn lemma_entry_round(e: EntryV, rest: Seq<char>)
    requires
        e.date.valid(),
    ensures
        parse_entry(ser_entry(e) + rest) == Some((e, rest)),
        ser_entry(e).len() >= 3,
{
    let s = ser_entry(e) + rest;
    let c7 = entry_close() + rest;
    let c6 = seq!['"'] + c7;
    let c5 = escape(e.note) + c6;
    let c4 = entry_mid2() + c5;
    let c3 = rating_name(e.mood) + c4;
    let c2 = entry_mid1() + c3;
    let c1 = ser_date(e.date) + c2;
    let c0 = entry_open() + c1;
    assert(s =~= c0);
    lemma_prefix_skip(entry_open(), c1);
    lemma_date_round(e.date, c2);
    lemma_prefix_skip(entry_mid1(), c3);
    lemma_mood_round(e.mood, c4);
    lemma_prefix_skip(entry_mid2(), c5);
    assert(c5 =~= (escape(e.note) + seq!['"']) + c7);
    lemma_escape_round(e.note, c7);
    lemma_prefix_skip(entry_close(), rest);
    assert(parse_entry(s) == Some((e, rest)));
}

/// Serialized entries followed by the closing text parse back to the same
/// entries.
proof fn lemma_entries_round(es: Seq<EntryV>)
    requires
        forall|i: int| 0 <= i < es.len() ==> (#[trigger] es[i]).date.valid(),
    ensures
        parse_entries(ser_entries(es) + journal_close()) == Some(es),
    decreases es.len(),
{
    let s = ser_entries(es) + journal_close();
    if es.len() == 0 {
        assert(s =~= journal_close());
        assert(s[0] == ']' && s[1] == ')');
    } else {
        lemma_entries_round(es.skip(1));
        let rest = ser_entries(es.skip(1)) + journal_close();
        assert(s =~= ser_entry(es[0]) + rest);
        lemma_entry_round(es[0], rest);
        assert(s.len() >= 5);
        assert(seq![es[0]] + es.skip(1) =~= es);
    }
}

/// Relies on str::chars and Iterator::collect: the characters of the
/// string, in order.
#[verifier::external_body]
pub(crate) fn str_to_chars(s: &str) -> (v: Vec<char>)
    ensures
        v@ == s@,
{
    s.chars().collect()
}

/// Relies on String's FromIterator: the string holding exactly these
/// characters, in order.
#[verifier::external_body]
pub(crate) fn chars_to_string(v: &Vec<char>) -> (s: String)
    ensures
        s@ == v@,
{
    v.iter().collect()
}

pub(crate) fn entry_open_vec() -> (v: Vec<char>)
    ensures
        v@ == entry_open(),
{
    let mut v: Vec<char> = Vec::new();
    v.push('(');
    v.push('d');
    v.push('a');
    v.push('t');
    v.push('e');
    v.push(':');
    v.push('"');
    proof {
        assert(v@ =~= entry_open());
    }
    v
}

pub(crate) fn entry_mid1_vec() -> (v: Vec<char>)
    ensures
        v@ == entry_mid1(),
{
    let mut v: Vec<char> = Vec::new();
    v.push('"');
    v.push(',');
    v.push('m');
    v.push('o');
    v.push('o');
    v.push('d');
    v.push(':');
    proof {
        assert(v@ =~= entry_mid1());
    }
    v
}

pub(crate) fn entry_mid2_vec() -> (v: Vec<char>)
    ensures
        v@ == entry_mid2(),
{
    let mut v: Vec<char> = Vec::new();
    v.push(',');
    v.push('n');
    v.push('o');
    v.push('t');
    v.push('e');
    v.push(':');
    v.push('"');
    proof {
        assert(v@ =~= entry_mid2());
    }
    v
}

pub(crate) fn entry_close_vec() -> (v: Vec<char>)
    ensures
        v@ == entry_close(),
{
    let mut v: Vec<char> = Vec::new();
    v.push(')');
    v.push(',');
    proof {
        assert(v@ =~= entry_close());
    }
    v
}

pub(crate) fn journal_open_vec() -> (v: Vec<char>)
    ensures
        v@ == journal_open(),
{
    let mut v: Vec<char> = Vec::new();
    v.push('(');
    v.push('d');
    v.push('a');
    v.push('t');
    v.push('a');
    v.push(':');
    v.push('[');
    proof {
        assert(v@ =~= journal_open());
    }
    v
}

pub(crate) fn journal_close_vec() -> (v: Vec<char>)
    ensures
        v@ == journal_close(),
{
    let mut v: Vec<char> = Vec::new();
    v.push(']');
    v.push(')');
    proof {
        assert(v@ =~= journal_close());
    }
    v
}

pub(crate) fn rating_name_vec(m: &Rating) -> (v: Vec<char>)
    ensures
        v@ == rating_name(*m),
{
    let mut v: Vec<char> = Vec::new();
    match m {
        Rating::Awful => {
            v.push('A');
            v.push('w');
            v.push('f');
            v.push('u');
            v.push('l');
        },
        Rating::Bad => {
            v.push('B');
            v.push('a');
            v.push('d');
        },
        Rating::Neutral => {
            v.push('N');
            v.push('e');
            v.push('u');
            v.push('t');
            v.push('r');
            v.push('a');
            v.push('l');
        },
        Rating::Good => {
            v.push('G');
            v.push('o');
            v.push('o');
            v.push('d');
        },
        Rating::Great => {
            v.push('G');
            v.push('r');
            v.push('e');
            v.push('a');
            v.push('t');
        },
    }
    proof {
        assert(v@ =~= rating_name(*m));
    }
    v
}

/// Whether the text at position `i` starts with the whole pattern.
pub(crate) fn eq_at(s: &Vec<char>, i: usize, p: &Vec<char>) -> (r: bool)
    requires
        i <= s@.len(),
    ensures
        r == starts_with(s@.skip(i as int), p@),
{
    let n: usize = s.len();
    if n - i < p.len() {
        proof {
            assert(s@.skip(i as int).len() < p@.len());
        }
        return false;
    }
    let mut j: usize = 0;
    while j < p.len()
        invariant
            n == s@.len(),
            i <= s@.len(),
            s@.len() - i >= p@.len(),
            j <= p@.len(),
            forall|k: int| 0 <= k < j ==> s@[i + k] == p@[k],
        decreases p@.len() - j,
    {
        if s[i + j] != p[j] {
            proof {
                assert(s@.skip(i as int)[j as int] == s@[i + j]);
                lemma_not_prefix(s@.skip(i as int), p@, j as int);
            }
            return false;
        }
        j = j + 1;
    }
    proof {
        assert(s@.skip(i as int).take(p@.len() as int) =~= p@);
    }
    true
}

fn digit_of(c: char) -> (r: Option<u8>)
    ensures
        (match r {
            Some(n) => char_digit(c) == n as int && n <= 9,
            None => !is_digit(c),
        }),
{
    if c == '0' {
        Some(0)
    } else if c == '1' {
        Some(1)
    } else if c == '2' {
        Some(2)
    } else if c == '3' {
        Some(3)
    } else if c == '4' {
        Some(4)
    } else if c == '5' {
        Some(5)
    } else if c == '6' {
        Some(6)
    } else if c == '7' {
        Some(7)
    } else if c == '8' {
        Some(8)
    } else if c == '9' {
        Some(9)
    } else {
        None
    }
}

fn digit_to_char(n: u8) -> (r: char)
    requires
        n <= 9,
    ensures
        r == digit_char(n as int),
{
    match n {
        0 => '0',
        1 => '1',
        2 => '2',
        3 => '3',
        4 => '4',
        5 => '5',
        6 => '6',
        7 => '7',
        8 => '8',
        _ => '9',
    }
}

/// The date read from the ten characters at position `i`, without a
/// validity check.
pub(crate) fn parse_date_at(s: &Vec<char>, i: usize) -> (r: Option<Date>)
    requires
        i <= s@.len(),
    ensures
        (match r {
            Some(d) => parse_date(s@.skip(i as int)) == Some(d) && i + 10 <= s@.len(),
            None => parse_date(s@.skip(i as int)) is None,
        }),
{
    let ghost u = s@.skip(i as int);
    if s.len() - i < 10 {
        return None;
    }
    proof {
        assert(u[0] == s@[i as int]);
        assert(u[1] == s@[i + 1]);
        assert(u[2] == s@[i + 2]);
        assert(u[3] == s@[i + 3]);
        assert(u[4] == s@[i + 4]);
        assert(u[5] == s@[i + 5]);
        assert(u[6] == s@[i + 6]);
        assert(u[7] == s@[i + 7]);
        assert(u[8] == s@[i + 8]);
        assert(u[9] == s@[i + 9]);
    }
    let d0 = match digit_of(s[i]) {
        Some(n) => n,
        None => {
            return None;
        },
    };
    let d1 = match digit_of(s[i + 1]) {
        Some(n) => n,
        None => {
            return None;
        },
    };
    let d2 = match digit_of(s[i + 2]) {
        Some(n) => n,
        None => {
            return None;
        },
    };
    let d3 = match digit_of(s[i + 3]) {
        Some(n) => n,
        None => {
            return None;
        },
    };
    if s[i + 4] != '-' {
        return None;
    }
    let d5 = match digit_of(s[i + 5]) {
        Some(n) => n,
        None => {
            return None;
        },
    };
    let d6 = match digit_of(s[i + 6]) {
        Some(n) => n,
        None => {
            return None;
        },
    };
    if s[i + 7] != '-' {
        return None;
    }
    let d8 = match digit_of(s[i + 8]) {
        Some(n) => n,
        None => {
            return None;
        },
    };
    let d9 = match digit_of(s[i + 9]) {
        Some(n) => n,
        None => {
            return None;
        },
    };
    let year: u16 = (d0 as u16) * 1000 + (d1 as u16) * 100 + (d2 as u16) * 10 + (d3 as u16);
    let month: u8 = d5 * 10 + d6;
    let day: u8 = d8 * 10 + d9;
    Some(Date { year, month, day })
}

/// The rating read from a symbolic name at position `i`, and the position
/// after it.
pub(crate) fn parse_mood_at(s: &Vec<char>, i: usize) -> (r: Option<(Rating, usize)>)
    requires
        i <= s@.len(),
    ensures
        (match r {
            Some(p) => parse_mood(s@.skip(i as int)) == Some((p.0, s@.skip(p.1 as int))) && i
                <= p.1 <= s@.len(),
            None => parse_mood(s@.skip(i as int)) is None,
        }),
{
    let n: usize = s.len();
    let ghost u = s@.skip(i as int);
    let awful = rating_name_vec(&Rating::Awful);
    if eq_at(s, i, &awful) {
        proof {
            assert(u.skip(5) =~= s@.skip(i + 5));
        }
        return Some((Rating::Awful, i + 5));
    }
    let bad = rating_name_vec(&Rating::Bad);
    if eq_at(s, i, &bad) {
        proof {
            assert(u.skip(3) =~= s@.skip(i + 3));
        }
        return Some((Rating::Bad, i + 3));
    }
    let neutral = rating_name_vec(&Rating::Neutral);
    if eq_at(s, i, &neutral) {
        proof {
            assert(u.skip(7) =~= s@.skip(i + 7));
        }
        return Some((Rating::Neutral, i + 7));
    }
    let good = rating_name_vec(&Rating::Good);
    if eq_at(s, i, &good) {
        proof {
            assert(u.skip(4) =~= s@.skip(i + 4));
        }
        return Some((Rating::Good, i + 4));
    }
    let great = rating_name_vec(&Rating::Great);
    if eq_at(s, i, &great) {
        proof {
            assert(u.skip(5) =~= s@.skip(i + 5));
        }
        return Some((Rating::Great, i + 5));
    }
    None
}

/// The quoted text read from position `i` up to its closing quote: the
/// unescaped content and the position after the quote.
pub(crate) fn parse_string_at(s: &Vec<char>, i: usize) -> (r: Option<(Vec<char>, usize)>)
    requires
        i <= s@.len(),
    ensures
        (match r {
            Some(p) => parse_string_body(s@.skip(i as int)) == Some((p.0@, s@.skip(p.1 as int)))
                && i <= p.1 <= s@.len(),
            None => parse_string_body(s@.skip(i as int)) is None,
        }),
{
    let mut acc: Vec<char> = Vec::new();
    let mut cur: usize = i;
    proof {
        match parse_string_body(s@.skip(cur as int)) {
            Some(p) => {
                assert(acc@ + p.0 =~= p.0);
            },
            None => {
            },
        }
    }
    loop
        invariant
            i <= cur <= s@.len(),
            (match parse_string_body(s@.skip(cur as int)) {
                Some(p) => parse_string_body(s@.skip(i as int)) == Some((acc@ + p.0, p.1)),
                None => parse_string_body(s@.skip(i as int)) is None,
            }),
        decreases s@.len() - cur,
    {
        if cur == s.len() {
            proof {
                assert(s@.skip(cur as int).len() == 0);
            }
            return None;
        }
        let c = s[cur];
        proof {
            assert(s@.skip(cur as int)[0] == c);
        }
        if c == '"' {
            proof {
                assert(s@.skip(cur as int).skip(1) =~= s@.skip(cur + 1));
                assert(acc@ + Seq::<char>::empty() =~= acc@);
            }
            return Some((acc, cur + 1));
        } else if c == '\\' {
            if cur + 1 == s.len() {
                proof {
                    assert(s@.skip(cur as int).len() < 2);
                }
                return None;
            }
            let c2 = s[cur + 1];
            proof {
                assert(s@.skip(cur as int)[1] == c2);
            }
            if c2 == '"' || c2 == '\\' {
                let ghost acc0 = acc@;
                acc.push(c2);
                proof {
                    assert(s@.skip(cur as int).skip(2) =~= s@.skip(cur + 2));
                    match parse_string_body(s@.skip(cur + 2)) {
                        Some(p) => {
                            assert(acc@ + p.0 =~= acc0 + (seq![c2] + p.0));
                        },
                        None => {
                        },
                    }
                }
                cur = cur + 2;
            } else {
                return None;
            }
        } else {
            let ghost acc0 = acc@;
            acc.push(c);
            proof {
                assert(s@.skip(cur as int).skip(1) =~= s@.skip(cur + 1));
                match parse_string_body(s@.skip(cur + 1)) {
                    Some(p) => {
                        assert(acc@ + p.0 =~= acc0 + (seq![c] + p.0));
                    },
                    None => {
                    },
                }
            }
            cur = cur + 1;
        }
    }
}

/// One whole entry read from position `i`, and the position after it.
#[verifier::rlimit(100)]
pub(crate) fn parse_entry_at(s: &Vec<char>, i: usize) -> (r: Option<(JournalEntry, usize)>)
    requires
        i <= s@.len(),
    ensures
        (match r {
            Some(p) => parse_entry(s@.skip(i as int)) == Some((p.0@, s@.skip(p.1 as int))) && i
                < p.1 <= s@.len() && p.0@.date.valid(),
            None => parse_entry(s@.skip(i as int)) is None,
        }),
{
    let n: usize = s.len();
    let ghost u = s@.skip(i as int);
    let open = entry_open_vec();
    if !eq_at(s, i, &open) {
        return None;
    }
    let i1 = i + 7;
    proof {
        assert(u.skip(7) =~= s@.skip(i1 as int));
    }
    let d = match parse_date_at(s, i1) {
        Some(d) => d,
        None => {
            return None;
        },
    };
    if !d.is_valid() {
        return None;
    }
    let i2 = i1 + 10;
    proof {
        assert(s@.skip(i1 as int).skip(10) =~= s@.skip(i2 as int));
    }
    let mid1 = entry_mid1_vec();
    if !eq_at(s, i2, &mid1) {
        return None;
    }
    let i3 = i2 + 7;
    proof {
        assert(s@.skip(i2 as int).skip(7) =~= s@.skip(i3 as int));
    }
    let (m, i4) = match parse_mood_at(s, i3) {
        Some(p) => p,
        None => {
            return None;
        },
    };
    let mid2 = entry_mid2_vec();
    if !eq_at(s, i4, &mid2) {
        return None;
    }
    let i5 = i4 + 7;
    proof {
        assert(s@.skip(i4 as int).skip(7) =~= s@.skip(i5 as int));
    }
    let (content, i6) = match parse_string_at(s, i5) {
        Some(p) => p,
        None => {
            return None;
        },
    };
    let closev = entry_close_vec();
    if !eq_at(s, i6, &closev) {
        return None;
    }
    let j = i6 + 2;
    proof {
        assert(s@.skip(i6 as int).skip(2) =~= s@.skip(j as int));
    }
    let note = chars_to_string(&content);
    let entry = JournalEntry { date: d, mood: m, note };
    proof {
        assert(entry@ == (EntryV { date: d, mood: m, note: content@ }));
        assert(parse_entry(u) == Some((entry@, s@.skip(j as int))));
    }
    Some((entry, j))
}

/// Appends the pattern's characters.
pub(crate) fn push_chars(out: &mut Vec<char>, p: &Vec<char>)
    ensures
        final(out)@ == old(out)@ + p@,
{
    let ghost o0 = out@;
    let mut j: usize = 0;
    while j < p.len()
        invariant
            j <= p@.len(),
            out@ == o0 + p@.take(j as int),
        decreases p@.len() - j,
    {
        let c = p[j];
        out.push(c);
        proof {
            assert(o0 + p@.take(j as int) + seq![c] =~= o0 + p@.take(j + 1));
        }
        j = j + 1;
    }
    proof {
        assert(o0 + p@.take(p@.len() as int) =~= o0 + p@);
    }
}

/// Appends the ten characters YYYY-MM-DD of the date.
pub(crate) fn push_date(out: &mut Vec<char>, d: Date)
    requires
        d.valid(),
    ensures
        final(out)@ == old(out)@ + ser_date(d),
{
    let ghost o0 = out@;
    out.push(digit_to_char((d.year / 1000) as u8));
    out.push(digit_to_char(((d.year / 100) % 10) as u8));
    out.push(digit_to_char(((d.year / 10) % 10) as u8));
    out.push(digit_to_char((d.year % 10) as u8));
    out.push('-');
    out.push(digit_to_char(d.month / 10));
    out.push(digit_to_char(d.month % 10));
    out.push('-');
    out.push(digit_to_char(d.day / 10));
    out.push(digit_to_char(d.day % 10));
    proof {
        assert(out@ =~= o0 + ser_date(d));
    }
}

/// Appending one character extends the escaped text by its escaped form.
proof fn lemma_escape_push(s: Seq<char>, x: char)
    ensures
        escape(s.push(x)) == escape(s) + (if x == '"' || x == '\\' {
            seq!['\\', x]
        } else {
            seq![x]
        }),
    decreases s.len(),
{
    let enc = if x == '"' || x == '\\' {
        seq!['\\', x]
    } else {
        seq![x]
    };
    if s.len() == 0 {
        assert(s.push(x)[0] == x);
        assert(s.push(x).skip(1) =~= Seq::<char>::empty());
        assert(escape(Seq::<char>::empty()) == Seq::<char>::empty());
        assert(escape(s.push(x)) =~= escape(s) + enc);
    } else {
        assert(s.push(x)[0] == s[0]);
        assert(s.push(x).skip(1) =~= s.skip(1).push(x));
        lemma_escape_push(s.skip(1), x);
        assert(escape(s.push(x)) =~= escape(s) + enc);
    }
}

/// Appends the escaped form of the content.
pub(crate) fn push_escaped(out: &mut Vec<char>, content: &Vec<char>)
    ensures
        final(out)@ == old(out)@ + escape(content@),
{
    let ghost o0 = out@;
    let mut j: usize = 0;
    proof {
        assert(content@.take(0) =~= Seq::<char>::empty());
        assert(o0 + escape(content@.take(0)) =~= o0);
    }
    while j < content.len()
        invariant
            j <= content@.len(),
            out@ == o0 + escape(content@.take(j as int)),
        decreases content@.len() - j,
    {
        let ghost before = out@;
        let c = content[j];
        if c == '"' || c == '\\' {
            out.push('\\');
            out.push(c);
            proof {
                assert(out@ =~= before + seq!['\\', c]);
            }
        } else {
            out.push(c);
            proof {
                assert(out@ =~= before + seq![c]);
            }
        }
        proof {
            assert(content@.take(j + 1) =~= content@.take(j as int).push(c));
            lemma_escape_push(content@.take(j as int), c);
            assert(out@ =~= o0 + escape(content@.take(j + 1)));
        }
        j = j + 1;
    }
    proof {
        assert(content@.take(content@.len() as int) =~= content@);
    }
}

/// Appends one whole serialized entry.
#[verifier::rlimit(100)]
pub(crate) fn push_entry(out: &mut Vec<char>, e: &JournalEntry)
    requires
        e@.date.valid(),
    ensures
        final(out)@ == old(out)@ + ser_entry(e@),
{
    let ghost o0 = out@;
    let open = entry_open_vec();
    push_chars(out, &open);
    push_date(out, e.date);
    let mid1 = entry_mid1_vec();
    push_chars(out, &mid1);
    let name = rating_name_vec(&e.mood);
    push_chars(out, &name);
    let mid2 = entry_mid2_vec();
    push_chars(out, &mid2);
    let content = str_to_chars(e.note.as_str());
    push_escaped(out, &content);
    out.push('"');
    out.push(')');
    out.push(',');
    proof {
        assert(out@ =~= o0 + ser_entry(e@));
    }
}

/// Appending one entry extends the serialized entries by its serialized
/// form.
pub proof fn lemma_ser_entries_push(es: Seq<EntryV>, e: EntryV)
    ensures
        ser_entries(es.push(e)) == ser_entries(es) + ser_entry(e),
    decreases es.len(),
{
    if es.len() == 0 {
        assert(es.push(e)[0] == e);
        assert(es.push(e).skip(1) =~= Seq::<EntryV>::empty());
        assert(ser_entries(Seq::<EntryV>::empty()) == Seq::<char>::empty());
        assert(ser_entries(es.push(e)) =~= ser_entries(es) + ser_entry(e));
    } else {
        assert(es.push(e)[0] == es[0]);
        assert(es.push(e).skip(1) =~= es.skip(1).push(e));
        lemma_ser_entries_push(es.skip(1), e);
        assert(ser_entries(es.push(e)) =~= ser_entries(es) + ser_entry(e));
    }
}

/// Law: any journal value whose dates are real calendar dates, serialized
/// and parsed back, yields the same entries in the same order.
pub proof fn lemma_journal_round_trip(es: Seq<EntryV>)
    requires
        forall|i: int| 0 <= i < es.len() ==> (#[trigger] es[i]).date.valid(),
    ensures
        parse_journal(ser_journal(es)) == Some(es),
{
    let s = ser_journal(es);
    let t = ser_entries(es) + journal_close();
    assert(s =~= journal_open() + t);
    lemma_prefix_skip(journal_open(), t);
    assert(parse_journal(s) == parse_entries(t));
    lemma_entries_round(es);
}

} // verus!
