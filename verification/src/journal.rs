use vstd::prelude::*;

use crate::codec::{
    eq_at, journal_close_vec, journal_open_vec, parse_entries, parse_entry_at, parse_journal,
    push_chars, push_entry, ser_entries, ser_journal, chars_to_string, str_to_chars,
    lemma_ser_entries_push,
};
use crate::date::{date_le, date_lt, Date};
use crate::error::MoodError;
use crate::rating::Rating;

verus! {

/// The error of a range query whose bounds are reversed.
#[derive(Debug, PartialEq, Eq, Structural)]
pub enum JournalError {
    InvalidDateRange,
}

/// One day's record: the date, the mood, and a free-text note (which may be
/// empty).
#[derive(Debug, PartialEq)]
pub struct JournalEntry {
    pub date: Date,
    pub mood: Rating,
    pub note: String,
}

/// The mathematical value of an entry: its note as a character sequence.
pub struct EntryV {
    pub date: Date,
    pub mood: Rating,
    pub note: Seq<char>,
}

impl View for JournalEntry {
    type V = EntryV;

    open spec fn view(&self) -> EntryV {
        EntryV { date: self.date, mood: self.mood, note: self.note@ }
    }
}

impl JournalEntry {
    /// An entry is well formed when its date is a real calendar date.
    pub open spec fn wf(self) -> bool {
        self@.date.valid()
    }

    pub fn new(date: Date, mood: Rating, note: String) -> (r: JournalEntry)
        ensures
            r@ == (EntryV { date, mood, note: note@ }),
    {
        JournalEntry { date, mood, note }
    }
}

impl core::convert::From<(Date, Rating, String)> for JournalEntry {
    fn from(parts: (Date, Rating, String)) -> JournalEntry {
        JournalEntry { date: parts.0, mood: parts.1, note: parts.2 }
    }
}

impl vstd::std_specs::convert::FromSpecImpl<(Date, Rating, String)> for JournalEntry {
    open spec fn obeys_from_spec() -> bool {
        true
    }

    open spec fn from_spec(parts: (Date, Rating, String)) -> JournalEntry {
        JournalEntry { date: parts.0, mood: parts.1, note: parts.2 }
    }
}

impl Clone for JournalEntry {
    fn clone(&self) -> (r: Self)
        ensures
            r@ == self@,
    {
        JournalEntry { date: self.date, mood: self.mood, note: self.note.clone() }
    }
}

/// Entries strictly ascend by date, so no date occurs twice.
pub open spec fn sorted_by_date(s: Seq<EntryV>) -> bool {
    forall|i: int, j: int| 0 <= i < j < s.len() ==> date_lt(s[i].date, s[j].date)
}

/// Every entry carries a real calendar date.
pub open spec fn entries_wf(s: Seq<EntryV>) -> bool {
    forall|i: int| 0 <= i < s.len() ==> (#[trigger] s[i]).date.valid()
}

/// The first entry carrying the given date, scanning front to back.
pub open spec fn lookup(s: Seq<EntryV>, d: Date) -> Option<EntryV>
    decreases s.len(),
{
    if s.len() == 0 {
        None
    } else if s[0].date == d {
        Some(s[0])
    } else {
        lookup(s.skip(1), d)
    }
}

/// The sequence after an insert-or-replace keyed by the entry's date: a
/// present date is overwritten in place, an absent one is inserted where it
/// keeps the ascending order.
pub open spec fn upsert(s: Seq<EntryV>, e: EntryV) -> Seq<EntryV>
    decreases s.len(),
{
    if s.len() == 0 {
        seq![e]
    } else if date_lt(e.date, s[0].date) {
        seq![e] + s
    } else if e.date == s[0].date {
        seq![e] + s.skip(1)
    } else {
        seq![s[0]] + upsert(s.skip(1), e)
    }
}

/// Whether the entry's date falls inside the inclusive range.
pub open spec fn in_range(e: EntryV, from: Date, to: Date) -> bool {
    date_le(from, e.date) && date_le(e.date, to)
}

/// The subsequence of entries whose dates fall inside the inclusive range,
/// in their original order.
pub open spec fn range_entries(s: Seq<EntryV>, from: Date, to: Date) -> Seq<EntryV>
    decreases s.len(),
{
    if s.len() == 0 {
        Seq::empty()
    } else if in_range(s[0], from, to) {
        seq![s[0]] + range_entries(s.skip(1), from, to)
    } else {
        range_entries(s.skip(1), from, to)
    }
}

/// An ordered collection of journal entries, strictly sorted by date, with
/// at most one entry per date.
#[derive(Debug)]
pub struct Journal {
    data: Vec<JournalEntry>,
}

/// The entry values that a sequence of entries stands for.
pub open spec fn entry_views(s: Seq<JournalEntry>) -> Seq<EntryV> {
    s.map_values(|e: JournalEntry| e@)
}

impl View for Journal {
    type V = Seq<EntryV>;

    closed spec fn view(&self) -> Seq<EntryV> {
        entry_views(self.data@)
    }
}

impl Default for Journal {
    fn default() -> (r: Journal)
        ensures
            r@ == Seq::<EntryV>::empty(),
            r.wf(),
    {
        Journal::new()
    }
}

impl Journal {
    /// The journal's invariant: strictly ascending dates, all of them real.
    pub open spec fn wf(self) -> bool {
        sorted_by_date(self@) && entries_wf(self@)
    }

    pub fn new() -> (r: Journal)
        ensures
            r@ == Seq::<EntryV>::empty(),
            r.wf(),
    {
        let r = Journal { data: Vec::new() };
        proof {
            assert(r@ =~= Seq::<EntryV>::empty());
        }
        r
    }

    pub fn len(&self) -> (r: usize)
        ensures
            r == self@.len(),
    {
        self.data.len()
    }

    pub fn is_empty(&self) -> (r: bool)
        ensures
            r == (self@.len() == 0),
    {
        self.len() == 0
    }

    /// The position of the date in the sorted entries: `Ok` with its index
    /// when present, `Err` with the insertion point that keeps the order
    /// when absent.
    fn find_index(&self, d: &Date) -> (r: Result<usize, usize>)
        requires
            self.wf(),
        ensures
            (match r {
                Ok(i) => 0 <= i < self@.len() && self@[i as int].date == *d,
                Err(i) => 0 <= i <= self@.len() && (forall|k: int|
                    0 <= k < i ==> date_lt(#[trigger] self@[k].date, *d)) && (forall|k: int|
                    i <= k < self@.len() ==> date_lt(*d, #[trigger] self@[k].date)),
            }),
    {
        let mut lo: usize = 0;
        let mut hi: usize = self.data.len();
        while lo < hi
            invariant
                self.wf(),
                lo <= hi <= self@.len(),
                forall|k: int| 0 <= k < lo ==> date_lt(#[trigger] self@[k].date, *d),
                forall|k: int| hi <= k < self@.len() ==> date_lt(*d, #[trigger] self@[k].date),
            decreases hi - lo,
        {
            let mid = lo + (hi - lo) / 2;
            let probe = self.data[mid].date;
            if probe.before(d) {
                proof {
                    assert forall|k: int| 0 <= k < mid + 1 implies date_lt(
                        #[trigger] self@[k].date,
                        *d,
                    ) by {
                        if k < mid {
                            assert(date_lt(self@[k].date, self@[mid as int].date));
                        }
                    }
                }
                lo = mid + 1;
            } else if d.before(&probe) {
                proof {
                    assert forall|k: int| mid <= k < self@.len() implies date_lt(
                        *d,
                        #[trigger] self@[k].date,
                    ) by {
                        if k > mid {
                            assert(date_lt(self@[mid as int].date, self@[k].date));
                        }
                    }
                }
                hi = mid;
            } else {
                proof {
                    assert(probe == *d);
                }
                return Ok(mid);
            }
        }
        Err(lo)
    }

    /// The entry recorded for the given date, if there is one.
    pub fn get(&self, date: &Date) -> (r: Option<&JournalEntry>)
        requires
            self.wf(),
        ensures
            (match r {
                Some(e) => lookup(self@, *date) == Some(e@),
                None => lookup(self@, *date) is None,
            }),
    {
        match self.find_index(date) {
            Ok(i) => {
                proof {
                    lemma_lookup_present(self@, *date, i as int);
                }
                Some(&self.data[i])
            },
            Err(_) => {
                proof {
                    assert(forall|k: int| 0 <= k < self@.len() ==> self@[k].date != *date);
                    lemma_lookup_absent(self@, *date);
                }
                None
            },
        }
    }

    /// Insert-or-replace keyed by the entry's date: a present date has its
    /// entry replaced wholesale and returned, an absent one has the entry
    /// inserted at the position that keeps the ascending order.
    pub fn add_entry(&mut self, entry: JournalEntry) -> (prev: Option<JournalEntry>)
        requires
            old(self).wf(),
            entry.wf(),
        ensures
            final(self).wf(),
            final(self)@ == upsert(old(self)@, entry@),
            (match prev {
                Some(p) => lookup(old(self)@, entry@.date) == Some(p@),
                None => lookup(old(self)@, entry@.date) is None,
            }),
    {
        let ghost s0 = self@;
        let ghost ev = entry@;
        proof {
            lemma_upsert_sorted(s0, ev);
            lemma_upsert_elems(s0, ev);
        }
        match self.find_index(&entry.date) {
            Ok(i) => {
                proof {
                    lemma_upsert_found(s0, ev, i as int);
                    lemma_lookup_present(s0, ev.date, i as int);
                }
                let prev = self.data[i].clone();
                self.data[i] = entry;
                proof {
                    assert(self@ =~= s0.update(i as int, ev));
                }
                Some(prev)
            },
            Err(i) => {
                proof {
                    lemma_upsert_new(s0, ev, i as int);
                    assert forall|k: int| 0 <= k < s0.len() implies (#[trigger] s0[k]).date
                        != ev.date by {
                        if k < i {
                            assert(date_lt(s0[k].date, ev.date));
                        } else {
                            assert(date_lt(ev.date, s0[k].date));
                        }
                    }
                    lemma_lookup_absent(s0, ev.date);
                }
                self.data.insert(i, entry);
                proof {
                    assert(self@ =~= s0.insert(i as int, ev));
                }
                None
            },
        }
    }

    /// All entries whose dates fall inside the inclusive range, in ascending
    /// date order. A reversed range fails with `InvalidDateRange`, except on
    /// an empty journal, which always yields an empty result: emptiness is
    /// checked before range validity.
    pub fn get_entries<'a>(&'a self, from: &Date, to: &Date) -> (r: Result<
        Vec<&'a JournalEntry>,
        JournalError,
    >)
        requires
            self.wf(),
        ensures
            r is Ok <==> (self@.len() == 0 || date_le(*from, *to)),
            (match r {
                Ok(v) => views_of(v@) == range_entries(self@, *from, *to),
                Err(e) => e == JournalError::InvalidDateRange,
            }),
    {
        if self.is_empty() {
            let v: Vec<&'a JournalEntry> = Vec::new();
            proof {
                assert(views_of(v@) =~= range_entries(self@, *from, *to));
            }
            return Ok(v);
        }
        if to.before(from) {
            return Err(JournalError::InvalidDateRange);
        }
        let mut v: Vec<&'a JournalEntry> = Vec::new();
        let ghost s = self@;
        proof {
            assert(views_of(v@) =~= range_entries(s.take(0), *from, *to));
        }
        let n = self.data.len();
        let mut i: usize = 0;
        while i < n
            invariant
                self.wf(),
                n == self@.len(),
                s == self@,
                i <= n,
                views_of(v@) == range_entries(s.take(i as int), *from, *to),
            decreases n - i,
        {
            let ghost v0 = v@;
            let e = &self.data[i];
            if from.on_or_before(&e.date) && e.date.on_or_before(to) {
                v.push(e);
            }
            proof {
                assert(s.take(i + 1) =~= s.take(i as int).push(s[i as int]));
                lemma_range_push(s.take(i as int), *from, *to, s[i as int]);
                if in_range(s[i as int], *from, *to) {
                    assert(views_of(v@) =~= views_of(v0).push(s[i as int]));
                    assert(views_of(v@) =~= range_entries(s.take(i + 1), *from, *to));
                } else {
                    assert(v@ == v0);
                    assert(range_entries(s.take(i + 1), *from, *to) =~= range_entries(
                        s.take(i as int),
                        *from,
                        *to,
                    ));
                }
            }
            i = i + 1;
        }
        proof {
            assert(s.take(n as int) =~= s);
        }
        Ok(v)
    }

    /// The journal's persisted text form.
    pub fn serialize(&self) -> (r: String)
        requires
            self.wf(),
        ensures
            r@ == ser_journal(self@),
    {
        let mut out: Vec<char> = Vec::new();
        let openv = journal_open_vec();
        push_chars(&mut out, &openv);
        proof {
            assert(self@.take(0) =~= Seq::<EntryV>::empty());
            assert(ser_entries(self@.take(0)) == Seq::<char>::empty());
            assert(out@ =~= crate::codec::journal_open() + ser_entries(self@.take(0)));
        }
        let n = self.data.len();
        let mut i: usize = 0;
        while i < n
            invariant
                self.wf(),
                n == self@.len(),
                i <= n,
                out@ == crate::codec::journal_open() + ser_entries(self@.take(i as int)),
            decreases n - i,
        {
            let e = &self.data[i];
            proof {
                assert(e@ == self@[i as int]);
            }
            push_entry(&mut out, e);
            proof {
                lemma_ser_entries_push(self@.take(i as int), self@[i as int]);
                assert(self@.take(i + 1) =~= self@.take(i as int).push(self@[i as int]));
                assert(out@ =~= crate::codec::journal_open() + ser_entries(self@.take(i + 1)));
            }
            i = i + 1;
        }
        let closev = journal_close_vec();
        push_chars(&mut out, &closev);
        proof {
            assert(self@.take(n as int) =~= self@);
            assert(out@ =~= ser_journal(self@));
        }
        chars_to_string(&out)
    }

    /// The journal read back from its persisted text form. Succeeds exactly
    /// on a well-formed text whose entries ascend strictly by date; any
    /// other text fails as a journal file error.
    pub fn deserialize(text: &str) -> (r: Result<Journal, MoodError>)
        ensures
            r is Ok <==> (parse_journal(text@) matches Some(es) && sorted_by_date(es)),
            (match r {
                Ok(j) => parse_journal(text@) == Some(j@) && j.wf(),
                Err(e) => e matches MoodError::JournalFileError(_),
            }),
    {
        let v = str_to_chars(text);
        let openv = journal_open_vec();
        proof {
            assert(v@.skip(0) =~= v@);
        }
        if !eq_at(&v, 0, &openv) {
            return Err(MoodError::JournalFileError("could not parse the journal file".to_owned()));
        }
        let n = v.len();
        let mut acc: Vec<JournalEntry> = Vec::new();
        let mut cur: usize = 7;
        proof {
            assert(entry_views(acc@) =~= Seq::<EntryV>::empty());
            match parse_entries(v@.skip(7)) {
                Some(es) => {
                    assert(entry_views(acc@) + es =~= es);
                },
                None => {
                },
            }
        }
        loop
            invariant
                7 <= cur <= n,
                n == v@.len(),
                v@ == text@,
                crate::codec::starts_with(v@, crate::codec::journal_open()),
                entries_wf(entry_views(acc@)),
                (match parse_entries(v@.skip(cur as int)) {
                    Some(es) => parse_entries(v@.skip(7)) == Some(entry_views(acc@) + es),
                    None => parse_entries(v@.skip(7)) is None,
                }),
            decreases n - cur,
        {
            if n - cur == 2 && v[cur] == ']' && v[cur + 1] == ')' {
                proof {
                    assert(v@.skip(cur as int).len() == 2);
                    assert(v@.skip(cur as int)[0] == ']');
                    assert(v@.skip(cur as int)[1] == ')');
                    assert(parse_entries(v@.skip(cur as int)) == Some(Seq::<EntryV>::empty()));
                    assert(entry_views(acc@) + Seq::<EntryV>::empty() =~= entry_views(acc@));
                    assert(parse_journal(text@) == Some(entry_views(acc@)));
                }
                if is_strictly_sorted(&acc) {
                    let j = Journal { data: acc };
                    return Ok(j);
                } else {
                    return Err(
                        MoodError::JournalFileError(
                            "the journal file entries are not strictly ascending by date".to_owned(
                            ),
                        ),
                    );
                }
            }
            proof {
                if v@.skip(cur as int).len() == 2 {
                    assert(v@.skip(cur as int)[0] == v@[cur as int]);
                    assert(v@.skip(cur as int)[1] == v@[cur + 1]);
                }
            }
            match parse_entry_at(&v, cur) {
                Some(p) => {
                    let (e, j) = p;
                    let ghost acc0 = acc@;
                    acc.push(e);
                    proof {
                        assert(entry_views(acc@) =~= entry_views(acc0).push(e@));
                        match parse_entries(v@.skip(j as int)) {
                            Some(es) => {
                                assert(parse_entries(v@.skip(cur as int)) == Some(seq![e@] + es));
                                assert(entry_views(acc0) + (seq![e@] + es) =~= entry_views(acc@)
                                    + es);
                            },
                            None => {
                                assert(parse_entries(v@.skip(cur as int)) is None);
                            },
                        }
                    }
                    cur = j;
                },
                None => {
                    proof {
                        assert(parse_entries(v@.skip(cur as int)) is None);
                    }
                    return Err(
                        MoodError::JournalFileError("could not parse the journal file".to_owned()),
                    );
                },
            }
        }
    }

    /// The journal at process start: the persisted text when the journal
    /// file exists, an empty journal when it does not.
    pub fn init(contents: Option<&str>) -> (r: Result<Journal, MoodError>)
        ensures
            (match contents {
                None => r matches Ok(j) && j@ == Seq::<EntryV>::empty() && j.wf(),
                Some(text) => {
                    &&& (r is Ok <==> (parse_journal(text@) matches Some(es) && sorted_by_date(
                        es,
                    )))
                    &&& (match r {
                        Ok(j) => parse_journal(text@) == Some(j@) && j.wf(),
                        Err(e) => e matches MoodError::JournalFileError(_),
                    })
                },
            }),
    {
        match contents {
            None => Ok(Journal::new()),
            Some(text) => Journal::deserialize(text),
        }
    }
}

/// A strictly ascending pair of neighbours at every position makes the
/// whole sequence strictly ascending.
proof fn lemma_chain(s: Seq<EntryV>, i: int, j: int)
    requires
        forall|k: int| 0 < k < s.len() ==> date_lt(s[k - 1].date, (#[trigger] s[k]).date),
        0 <= i < j < s.len(),
    ensures
        date_lt(s[i].date, s[j].date),
    decreases j - i,
{
    if j == i + 1 {
        assert(date_lt(s[j - 1].date, s[j].date));
    } else {
        lemma_chain(s, i, j - 1);
        assert(date_lt(s[j - 1].date, s[j].date));
    }
}

#[verifier::rlimit(100)]
fn is_strictly_sorted(v: &Vec<JournalEntry>) -> (r: bool)
    ensures
        r == sorted_by_date(entry_views(v@)),
{
    let ghost s = entry_views(v@);
    let n = v.len();
    if n == 0 {
        return true;
    }
    let mut i: usize = 1;
    while i < n
        invariant
            1 <= i <= n,
            n == v@.len(),
            s == entry_views(v@),
            forall|k: int| 0 < k < i ==> date_lt(s[k - 1].date, (#[trigger] s[k]).date),
        decreases n - i,
    {
        let before = v[i - 1].date.before(&v[i].date);
        proof {
            assert(s[i - 1].date == v@[i - 1]@.date);
            assert(s[i as int].date == v@[i as int]@.date);
        }
        if !before {
            proof {
                assert(!date_lt(s[i - 1].date, s[i as int].date));
            }
            return false;
        }
        i = i + 1;
    }
    proof {
        assert forall|x: int, y: int| 0 <= x < y < s.len() implies date_lt(
            s[x].date,
            s[y].date,
        ) by {
            lemma_chain(s, x, y);
        }
    }
    true
}

/// The entry values that a sequence of borrowed entries stands for.
pub open spec fn views_of(v: Seq<&JournalEntry>) -> Seq<EntryV> {
    Seq::new(v.len(), |i: int| v[i]@)
}

/// Appending one entry extends the in-range subsequence by that entry
/// exactly when its date falls inside the range.
proof fn lemma_range_push(s: Seq<EntryV>, from: Date, to: Date, x: EntryV)
    ensures
        range_entries(s.push(x), from, to) == range_entries(s, from, to) + (if in_range(
            x,
            from,
            to,
        ) {
            seq![x]
        } else {
            Seq::<EntryV>::empty()
        }),
    decreases s.len(),
{
    let sp = s.push(x);
    if s.len() == 0 {
        assert(sp[0] == x);
        assert(sp.skip(1) =~= Seq::<EntryV>::empty());
        assert(range_entries(Seq::<EntryV>::empty(), from, to) == Seq::<EntryV>::empty());
        assert(range_entries(s, from, to) == Seq::<EntryV>::empty());
        if in_range(x, from, to) {
            assert(range_entries(sp, from, to) == seq![sp[0]] + range_entries(
                sp.skip(1),
                from,
                to,
            ));
            assert(range_entries(sp, from, to) =~= range_entries(s, from, to) + seq![x]);
        } else {
            assert(range_entries(sp, from, to) == range_entries(sp.skip(1), from, to));
            assert(range_entries(sp, from, to) =~= range_entries(s, from, to));
        }
    } else {
        assert(sp[0] == s[0]);
        assert(sp.skip(1) =~= s.skip(1).push(x));
        lemma_range_push(s.skip(1), from, to, x);
        if in_range(s[0], from, to) {
            if in_range(x, from, to) {
                assert(range_entries(sp, from, to) =~= range_entries(s, from, to) + seq![x]);
            } else {
                assert(range_entries(sp, from, to) =~= range_entries(s, from, to));
            }
        }
    }
}

/// Every element of the in-range subsequence comes from the original
/// sequence.
proof fn lemma_range_elems(s: Seq<EntryV>, from: Date, to: Date)
    ensures
        forall|k: int|
            0 <= k < range_entries(s, from, to).len() ==> s.contains(
                #[trigger] range_entries(s, from, to)[k],
            ) && in_range(range_entries(s, from, to)[k], from, to),
    decreases s.len(),
{
    let r = range_entries(s, from, to);
    if s.len() == 0 {
    } else {
        lemma_range_elems(s.skip(1), from, to);
        let t = range_entries(s.skip(1), from, to);
        assert forall|k: int| 0 <= k < r.len() implies s.contains(#[trigger] r[k]) && in_range(
            r[k],
            from,
            to,
        ) by {
            let off: int = if in_range(s[0], from, to) {
                1
            } else {
                0
            };
            if k < off {
                assert(r[0] == s[0]);
                assert(s.contains(s[0]));
            } else {
                assert(r[k] == t[k - off]);
                let j = choose|j: int| 0 <= j < s.skip(1).len() && s.skip(1)[j] == t[k - off];
                assert(s[j + 1] == t[k - off]);
                assert(s.contains(s[j + 1]));
            }
        }
    }
}

/// Law: a range query on a sorted journal yields its entries still in
/// strictly ascending date order.
pub proof fn lemma_range_sorted(s: Seq<EntryV>, from: Date, to: Date)
    requires
        sorted_by_date(s),
    ensures
        sorted_by_date(range_entries(s, from, to)),
    decreases s.len(),
{
    let r = range_entries(s, from, to);
    if s.len() == 0 {
    } else {
        lemma_sorted_skip(s);
        lemma_range_sorted(s.skip(1), from, to);
        lemma_range_elems(s.skip(1), from, to);
        let t = range_entries(s.skip(1), from, to);
        if in_range(s[0], from, to) {
            assert forall|i: int, j: int| 0 <= i < j < r.len() implies date_lt(
                r[i].date,
                r[j].date,
            ) by {
                assert(r[j] == t[j - 1]);
                if i == 0 {
                    assert(r[0] == s[0]);
                    let m = choose|m: int| 0 <= m < s.skip(1).len() && s.skip(1)[m] == t[j - 1];
                    assert(s[m + 1] == t[j - 1]);
                    assert(date_lt(s[0].date, s[m + 1].date));
                } else {
                    assert(r[i] == t[i - 1]);
                }
            }
        }
    }
}

/// Law: every entry of a sorted journal whose date falls inside the range
/// appears in the range query's result.
pub proof fn lemma_range_complete(s: Seq<EntryV>, from: Date, to: Date, i: int)
    requires
        0 <= i < s.len(),
        in_range(s[i], from, to),
    ensures
        range_entries(s, from, to).contains(s[i]),
    decreases s.len(),
{
    let r = range_entries(s, from, to);
    if i == 0 {
        assert(r[0] == s[0]);
        assert(r.contains(r[0]));
    } else {
        lemma_range_complete(s.skip(1), from, to, i - 1);
        let t = range_entries(s.skip(1), from, to);
        let j = choose|j: int| 0 <= j < t.len() && t[j] == s.skip(1)[i - 1];
        let off: int = if in_range(s[0], from, to) {
            1
        } else {
            0
        };
        assert(r[j + off] == t[j]);
        assert(s.skip(1)[i - 1] == s[i]);
        assert(r.contains(r[j + off]));
    }
}

proof fn lemma_sorted_skip(s: Seq<EntryV>)
    requires
        sorted_by_date(s),
        s.len() > 0,
    ensures
        sorted_by_date(s.skip(1)),
{
    assert forall|x: int, y: int| 0 <= x < y < s.skip(1).len() implies date_lt(
        #[trigger] s.skip(1)[x].date,
        #[trigger] s.skip(1)[y].date,
    ) by {
        assert(s.skip(1)[x] == s[x + 1]);
        assert(s.skip(1)[y] == s[y + 1]);
    }
}

/// Every element of an upsert's result is the new entry or one of the old
/// ones.
proof fn lemma_upsert_elems(s: Seq<EntryV>, e: EntryV)
    ensures
        forall|k: int|
            0 <= k < upsert(s, e).len() ==> (#[trigger] upsert(s, e)[k] == e || s.contains(
                upsert(s, e)[k],
            )),
    decreases s.len(),
{
    let r = upsert(s, e);
    if s.len() == 0 {
    } else if date_lt(e.date, s[0].date) {
        assert forall|k: int| 0 <= k < r.len() implies (#[trigger] r[k] == e || s.contains(
            r[k],
        )) by {
            if k > 0 {
                assert(r[k] == s[k - 1]);
            }
        }
    } else if e.date == s[0].date {
        assert forall|k: int| 0 <= k < r.len() implies (#[trigger] r[k] == e || s.contains(
            r[k],
        )) by {
            if k > 0 {
                assert(r[k] == s.skip(1)[k - 1]);
                assert(r[k] == s[k]);
            }
        }
    } else {
        lemma_upsert_elems(s.skip(1), e);
        let t = upsert(s.skip(1), e);
        assert forall|k: int| 0 <= k < r.len() implies (#[trigger] r[k] == e || s.contains(
            r[k],
        )) by {
            if k == 0 {
                assert(r[0] == s[0]);
                assert(s.contains(s[0]));
            } else {
                assert(r[k] == t[k - 1]);
                if t[k - 1] == e {
                } else {
                    let j = choose|j: int| 0 <= j < s.skip(1).len() && s.skip(1)[j] == t[k - 1];
                    assert(s[j + 1] == t[k - 1]);
                    assert(s.contains(s[j + 1]));
                }
            }
        }
    }
}

/// Law: an upsert keeps the dates strictly ascending, so after any sequence
/// of upserts the entries remain sorted with no duplicate dates.
pub proof fn lemma_upsert_sorted(s: Seq<EntryV>, e: EntryV)
    requires
        sorted_by_date(s),
    ensures
        sorted_by_date(upsert(s, e)),
    decreases s.len(),
{
    let r = upsert(s, e);
    if s.len() == 0 {
    } else if date_lt(e.date, s[0].date) {
        assert forall|i: int, j: int| 0 <= i < j < r.len() implies date_lt(
            r[i].date,
            r[j].date,
        ) by {
            assert(r[j] == s[j - 1]);
            if i == 0 {
                if j > 1 {
                    assert(date_lt(s[0].date, s[j - 1].date));
                }
            } else {
                assert(r[i] == s[i - 1]);
            }
        }
    } else if e.date == s[0].date {
        assert forall|i: int, j: int| 0 <= i < j < r.len() implies date_lt(
            r[i].date,
            r[j].date,
        ) by {
            assert(r[j] == s.skip(1)[j - 1]);
            assert(r[j] == s[j]);
            if i > 0 {
                assert(r[i] == s[i]);
            }
        }
    } else {
        assert(date_lt(s[0].date, e.date));
        lemma_sorted_skip(s);
        lemma_upsert_sorted(s.skip(1), e);
        lemma_upsert_elems(s.skip(1), e);
        let t = upsert(s.skip(1), e);
        assert forall|i: int, j: int| 0 <= i < j < r.len() implies date_lt(
            r[i].date,
            r[j].date,
        ) by {
            assert(r[j] == t[j - 1]);
            if i == 0 {
                assert(r[0] == s[0]);
                if t[j - 1] == e {
                } else {
                    let m = choose|m: int|
                        0 <= m < s.skip(1).len() && s.skip(1)[m] == t[j - 1];
                    assert(t[j - 1] == s[m + 1]);
                    assert(date_lt(s[0].date, s[m + 1].date));
                }
            } else {
                assert(r[i] == t[i - 1]);
            }
        }
    }
}

/// Law: an upsert grows the journal by one entry when its date was absent
/// and keeps the length when it was present.
pub proof fn lemma_upsert_len(s: Seq<EntryV>, e: EntryV)
    requires
        sorted_by_date(s),
    ensures
        upsert(s, e).len() == s.len() + (if lookup(s, e.date) is Some {
            0int
        } else {
            1int
        }),
    decreases s.len(),
{
    if s.len() == 0 {
    } else if date_lt(e.date, s[0].date) {
        assert forall|k: int| 0 <= k < s.len() implies (#[trigger] s[k]).date != e.date by {
            if k > 0 {
                assert(date_lt(s[0].date, s[k].date));
            }
        }
        lemma_lookup_absent(s, e.date);
    } else if e.date == s[0].date {
    } else {
        lemma_sorted_skip(s);
        lemma_upsert_len(s.skip(1), e);
    }
}

/// Law: after an upsert, the upserted date maps to the new entry and every
/// other date maps to what it mapped to before.
pub proof fn lemma_upsert_lookup(s: Seq<EntryV>, e: EntryV)
    requires
        sorted_by_date(s),
    ensures
        lookup(upsert(s, e), e.date) == Some(e),
        forall|d: Date| d != e.date ==> lookup(upsert(s, e), d) == lookup(s, d),
    decreases s.len(),
{
    let r = upsert(s, e);
    if s.len() == 0 {
        assert(r == seq![e]);
        assert(r[0] == e);
        assert forall|d: Date| d != e.date implies lookup(r, d) == lookup(s, d) by {
            assert(r.skip(1) =~= Seq::<EntryV>::empty());
            assert(lookup(r, d) == lookup(r.skip(1), d));
        }
    } else if date_lt(e.date, s[0].date) {
        assert(r[0] == e);
        assert forall|d: Date| d != e.date implies lookup(r, d) == lookup(s, d) by {
            assert(r.skip(1) =~= s);
            assert(lookup(r, d) == lookup(r.skip(1), d));
        }
    } else if e.date == s[0].date {
        assert(r[0] == e);
        assert forall|d: Date| d != e.date implies lookup(r, d) == lookup(s, d) by {
            assert(r.skip(1) =~= s.skip(1));
            assert(lookup(r, d) == lookup(r.skip(1), d));
            assert(lookup(s, d) == lookup(s.skip(1), d));
        }
    } else {
        lemma_sorted_skip(s);
        lemma_upsert_lookup(s.skip(1), e);
        let t = upsert(s.skip(1), e);
        assert(r.skip(1) =~= t);
        assert(r[0] == s[0]);
        assert(lookup(r, e.date) == Some(e));
        assert forall|d: Date| d != e.date implies lookup(r, d) == lookup(s, d) by {
            if d == s[0].date {
                assert(lookup(r, d) == Some(r[0]));
                assert(lookup(s, d) == Some(s[0]));
            } else {
                assert(lookup(r, d) == lookup(r.skip(1), d));
                assert(lookup(r, d) == lookup(t, d));
                assert(lookup(s, d) == lookup(s.skip(1), d));
            }
        }
    }
}

/// Law: upserting twice with the same date is the same as the second upsert
/// alone, and the second upsert finds the first entry as the previous one.
pub proof fn lemma_upsert_same_date(s: Seq<EntryV>, e1: EntryV, e2: EntryV)
    requires
        sorted_by_date(s),
        e1.date == e2.date,
    ensures
        upsert(upsert(s, e1), e2) == upsert(s, e2),
        lookup(upsert(s, e1), e2.date) == Some(e1),
    decreases s.len(),
{
    lemma_upsert_lookup(s, e1);
    let u1 = upsert(s, e1);
    if s.len() == 0 {
        assert(u1 == seq![e1]);
        assert(upsert(u1, e2) == seq![e2] + u1.skip(1));
        assert(upsert(u1, e2) =~= seq![e2]);
        assert(upsert(s, e2) == seq![e2]);
    } else if date_lt(e1.date, s[0].date) {
        assert(u1 == seq![e1] + s);
        assert(u1[0] == e1);
        assert(upsert(u1, e2) == seq![e2] + u1.skip(1));
        assert(u1.skip(1) =~= s);
        assert(upsert(s, e2) == seq![e2] + s);
        assert(upsert(u1, e2) =~= upsert(s, e2));
    } else if e1.date == s[0].date {
        assert(u1 == seq![e1] + s.skip(1));
        assert(u1[0] == e1);
        assert(upsert(u1, e2) == seq![e2] + u1.skip(1));
        assert(u1.skip(1) =~= s.skip(1));
        assert(upsert(s, e2) == seq![e2] + s.skip(1));
        assert(upsert(u1, e2) =~= upsert(s, e2));
    } else {
        assert(date_lt(s[0].date, e1.date));
        lemma_sorted_skip(s);
        lemma_upsert_same_date(s.skip(1), e1, e2);
        let t1 = upsert(s.skip(1), e1);
        assert(u1 == seq![s[0]] + t1);
        assert(u1[0] == s[0]);
        assert(upsert(u1, e2) == seq![s[0]] + upsert(u1.skip(1), e2));
        assert(u1.skip(1) =~= t1);
        assert(upsert(s, e2) == seq![s[0]] + upsert(s.skip(1), e2));
    }
}

/// When the date is already present at index `i`, an upsert overwrites that
/// index in place.
proof fn lemma_upsert_found(s: Seq<EntryV>, e: EntryV, i: int)
    requires
        sorted_by_date(s),
        0 <= i < s.len(),
        s[i].date == e.date,
    ensures
        upsert(s, e) == s.update(i, e),
    decreases s.len(),
{
    if i == 0 {
        assert(upsert(s, e) == seq![e] + s.skip(1));
        assert(upsert(s, e) =~= s.update(0, e));
    } else {
        assert(date_lt(s[0].date, s[i].date));
        lemma_sorted_skip(s);
        lemma_upsert_found(s.skip(1), e, i - 1);
        assert(upsert(s, e) == seq![s[0]] + s.skip(1).update(i - 1, e));
        assert forall|k: int| 0 <= k < s.len() implies (seq![s[0]] + s.skip(1).update(
            i - 1,
            e,
        ))[k] == s.update(i, e)[k] by {
            if k > 0 {
                if k == i {
                    assert(s.skip(1).update(i - 1, e)[k - 1] == e);
                } else {
                    assert(s.skip(1).update(i - 1, e)[k - 1] == s.skip(1)[k - 1]);
                }
            }
        }
        assert(upsert(s, e) =~= s.update(i, e));
    }
}

/// When the date is absent and `i` is its sorted insertion point, an upsert
/// inserts the entry at `i`.
proof fn lemma_upsert_new(s: Seq<EntryV>, e: EntryV, i: int)
    requires
        sorted_by_date(s),
        0 <= i <= s.len(),
        forall|k: int| 0 <= k < i ==> date_lt(#[trigger] s[k].date, e.date),
        forall|k: int| i <= k < s.len() ==> date_lt(e.date, #[trigger] s[k].date),
    ensures
        upsert(s, e) == s.insert(i, e),
    decreases s.len(),
{
    if s.len() == 0 {
        assert(upsert(s, e) =~= s.insert(0, e));
    } else if i == 0 {
        assert(date_lt(e.date, s[0].date));
        assert(upsert(s, e) == seq![e] + s);
        assert(upsert(s, e) =~= s.insert(0, e));
    } else {
        assert(date_lt(s[0].date, e.date));
        lemma_sorted_skip(s);
        assert forall|k: int| 0 <= k < i - 1 implies date_lt(
            #[trigger] s.skip(1)[k].date,
            e.date,
        ) by {
            assert(s.skip(1)[k] == s[k + 1]);
        }
        assert forall|k: int| i - 1 <= k < s.skip(1).len() implies date_lt(
            e.date,
            #[trigger] s.skip(1)[k].date,
        ) by {
            assert(s.skip(1)[k] == s[k + 1]);
        }
        lemma_upsert_new(s.skip(1), e, i - 1);
        assert(upsert(s, e) == seq![s[0]] + s.skip(1).insert(i - 1, e));
        assert forall|k: int| 0 <= k < s.len() + 1 implies (seq![s[0]] + s.skip(1).insert(
            i - 1,
            e,
        ))[k] == s.insert(i, e)[k] by {
            if k > 0 {
                assert((seq![s[0]] + s.skip(1).insert(i - 1, e))[k] == s.skip(1).insert(
                    i - 1,
                    e,
                )[k - 1]);
                if k < i {
                    assert(s.skip(1).insert(i - 1, e)[k - 1] == s.skip(1)[k - 1]);
                } else if k == i {
                    assert(s.skip(1).insert(i - 1, e)[k - 1] == e);
                } else {
                    assert(s.skip(1).insert(i - 1, e)[k - 1] == s.skip(1)[k - 2]);
                }
            }
        }
        assert(upsert(s, e) =~= s.insert(i, e));
    }
}

/// Law: in a journal with strictly ascending dates, looking up the date of
/// any entry yields exactly that entry.
pub proof fn lemma_lookup_present(s: Seq<EntryV>, d: Date, i: int)
    requires
        sorted_by_date(s),
        0 <= i < s.len(),
        s[i].date == d,
    ensures
        lookup(s, d) == Some(s[i]),
    decreases s.len(),
{
    if i == 0 {
    } else {
        assert(date_lt(s[0].date, d));
        assert(sorted_by_date(s.skip(1))) by {
            assert(forall|x: int, y: int|
                0 <= x < y < s.skip(1).len() ==> date_lt(
                    #[trigger] s.skip(1)[x].date,
                    #[trigger] s.skip(1)[y].date,
                ));
        }
        lemma_lookup_present(s.skip(1), d, i - 1);
    }
}

/// Law: looking up a date that no entry carries yields nothing.
pub proof fn lemma_lookup_absent(s: Seq<EntryV>, d: Date)
    requires
        forall|i: int| 0 <= i < s.len() ==> (#[trigger] s[i]).date != d,
    ensures
        lookup(s, d) is None,
    decreases s.len(),
{
    if s.len() == 0 {
    } else {
        lemma_lookup_absent(s.skip(1), d);
    }
}

} // verus!
