//! The library's data: comment kinds, calendar days, debt items and scan
//! summaries.
use vstd::prelude::*;

use crate::text::str_equals;

verus! {

// ---------------------------------------------------------------------------
// Case mapping (std)
// ---------------------------------------------------------------------------

/// What `str::to_uppercase` gives for a string.
pub uninterp spec fn str_upper(s: Seq<char>) -> Seq<char>;

/// What `str::to_lowercase` gives for a string.
pub uninterp spec fn str_lower(s: Seq<char>) -> Seq<char>;

pub open spec fn is_ascii_char(c: char) -> bool {
    (c as u32) < 128
}

pub open spec fn all_ascii(s: Seq<char>) -> bool {
    forall|i: int| 0 <= i < s.len() ==> #[trigger] is_ascii_char(s[i])
}

/// ASCII letters `a`..`z` turned to `A`..`Z`, every other character kept.
pub open spec fn ascii_upper(s: Seq<char>) -> Seq<char> {
    Seq::new(
        s.len(),
        |i: int|
            if 'a' <= s[i] && s[i] <= 'z' {
                ((s[i] as u32) - 32) as char
            } else {
                s[i]
            },
    )
}

/// ASCII letters `A`..`Z` turned to `a`..`z`, every other character kept.
pub open spec fn ascii_lower(s: Seq<char>) -> Seq<char> {
    Seq::new(
        s.len(),
        |i: int|
            if 'A' <= s[i] && s[i] <= 'Z' {
                ((s[i] as u32) + 32) as char
            } else {
                s[i]
            },
    )
}

/// Calls `str::to_uppercase`.  Its result is named `str_upper`; on a string
/// of ASCII characters the Unicode mapping is the ASCII one, which is the one
/// fact stated besides the name.
#[verifier::external_body]
pub(crate) fn to_uppercase(s: &str) -> (res: String)
    ensures
        res@ == str_upper(s@),
        all_ascii(s@) ==> res@ == ascii_upper(s@),
{
    s.to_uppercase()
}

/// Calls `str::to_lowercase`.  Its result is named `str_lower`; on a string
/// of ASCII characters the Unicode mapping is the ASCII one, which is the one
/// fact stated besides the name.
#[verifier::external_body]
pub(crate) fn to_lowercase(s: &str) -> (res: String)
    ensures
        res@ == str_lower(s@),
        all_ascii(s@) ==> res@ == ascii_lower(s@),
{
    s.to_lowercase()
}

// ---------------------------------------------------------------------------
// Comment kinds
// ---------------------------------------------------------------------------

/// The kind of code debt comment found.
#[derive(Debug, Clone, Copy, PartialEq, Eq, Hash, Structural)]
pub enum CommentType {
    Todo,
    Fixme,
    Hack,
    Bug,
    Xxx,
}

/// The marker word of each kind.
pub open spec fn label_of(t: CommentType) -> Seq<char> {
    match t {
        CommentType::Todo => "TODO"@,
        CommentType::Fixme => "FIXME"@,
        CommentType::Hack => "HACK"@,
        CommentType::Bug => "BUG"@,
        CommentType::Xxx => "XXX"@,
    }
}

/// The kind whose marker word is exactly `u`.
pub open spec fn kind_of_upper(u: Seq<char>) -> Option<CommentType> {
    if u == "TODO"@ {
        Some(CommentType::Todo)
    } else if u == "FIXME"@ {
        Some(CommentType::Fixme)
    } else if u == "HACK"@ {
        Some(CommentType::Hack)
    } else if u == "BUG"@ {
        Some(CommentType::Bug)
    } else if u == "XXX"@ {
        Some(CommentType::Xxx)
    } else {
        None
    }
}

/// The kind named by `s` in any case: the one whose marker word is the
/// upper-case form of `s`.
pub open spec fn kind_of(s: Seq<char>) -> Option<CommentType> {
    kind_of_upper(str_upper(s))
}

pub open spec fn all_kinds() -> Seq<CommentType> {
    seq![
        CommentType::Todo,
        CommentType::Fixme,
        CommentType::Hack,
        CommentType::Bug,
        CommentType::Xxx,
    ]
}

impl CommentType {
    /// The kind whose marker word is `s` in any case (`"todo"`, `"Fixme"`).
    pub fn from_str(s: &str) -> (res: Option<Self>)
        ensures
            res == kind_of(s@),
            all_ascii(s@) ==> res == kind_of_upper(ascii_upper(s@)),
    {
        let upper = to_uppercase(s);
        Self::from_upper(upper.as_str())
    }

    /// The kind whose marker word is exactly `u`.
    pub fn from_upper(u: &str) -> (res: Option<Self>)
        ensures
            res == kind_of_upper(u@),
    {
        if str_equals(u, "TODO") {
            Some(CommentType::Todo)
        } else if str_equals(u, "FIXME") {
            Some(CommentType::Fixme)
        } else if str_equals(u, "HACK") {
            Some(CommentType::Hack)
        } else if str_equals(u, "BUG") {
            Some(CommentType::Bug)
        } else if str_equals(u, "XXX") {
            Some(CommentType::Xxx)
        } else {
            None
        }
    }

    /// The marker word of this kind.
    pub fn label(&self) -> (res: &'static str)
        ensures
            res@ == label_of(*self),
    {
        match self {
            CommentType::Todo => "TODO",
            CommentType::Fixme => "FIXME",
            CommentType::Hack => "HACK",
            CommentType::Bug => "BUG",
            CommentType::Xxx => "XXX",
        }
    }

    /// Every kind, in the order TODO, FIXME, HACK, BUG, XXX.
    pub fn all() -> (res: Vec<Self>)
        ensures
            res@ == all_kinds(),
    {
        vec![
            CommentType::Todo,
            CommentType::Fixme,
            CommentType::Hack,
            CommentType::Bug,
            CommentType::Xxx,
        ]
    }
}

/// Reading a kind's own marker word gives the kind back, in upper case and
/// after ASCII upper-casing (which is what `from_str` applies to ASCII input).
pub proof fn lemma_label_round_trip(t: CommentType)
    ensures
        all_ascii(label_of(t)),
        kind_of_upper(label_of(t)) == Some(t),
        kind_of_upper(ascii_upper(label_of(t))) == Some(t),
{
    reveal_strlit("TODO");
    reveal_strlit("FIXME");
    reveal_strlit("HACK");
    reveal_strlit("BUG");
    reveal_strlit("XXX");
    let l = label_of(t);
    assert(ascii_upper(l) =~= l);
    match t {
        CommentType::Todo => {},
        CommentType::Fixme => {
            assert("TODO"@.len() != l.len());
        },
        CommentType::Hack => {
            assert("TODO"@[0] != l[0]);
            assert("FIXME"@.len() != l.len());
        },
        CommentType::Bug => {
            assert("TODO"@.len() != l.len());
            assert("FIXME"@.len() != l.len());
            assert("HACK"@.len() != l.len());
        },
        CommentType::Xxx => {
            assert("TODO"@.len() != l.len());
            assert("FIXME"@.len() != l.len());
            assert("HACK"@.len() != l.len());
            assert("BUG"@[0] != l[0]);
        },
    }
}

/// The kinds have distinct marker words, and `all` lists each kind once.
pub proof fn lemma_kinds_distinct()
    ensures
        forall|a: CommentType, b: CommentType| label_of(a) == label_of(b) ==> a == b,
        forall|t: CommentType| #[trigger] all_kinds().contains(t),
        forall|i: int, j: int|
            0 <= i < j < all_kinds().len() ==> all_kinds()[i] != all_kinds()[j],
{
    assert forall|a: CommentType, b: CommentType| label_of(a) == label_of(b) implies a == b by {
        lemma_label_round_trip(a);
        lemma_label_round_trip(b);
    }
    assert forall|t: CommentType| #[trigger] all_kinds().contains(t) by {
        match t {
            CommentType::Todo => assert(all_kinds()[0] == t),
            CommentType::Fixme => assert(all_kinds()[1] == t),
            CommentType::Hack => assert(all_kinds()[2] == t),
            CommentType::Bug => assert(all_kinds()[3] == t),
            CommentType::Xxx => assert(all_kinds()[4] == t),
        }
    }
}

// ---------------------------------------------------------------------------
// Calendar days
// ---------------------------------------------------------------------------

/// A day of the proleptic Gregorian calendar, counted as chrono's
/// `num_days_from_ce` counts it: 0001-01-01 is day 1.
#[derive(Debug, Clone, Copy, PartialEq, Eq, Hash, Structural)]
pub struct Date {
    pub days_from_ce: i32,
}

/// Day 1970-01-01.
pub open spec fn unix_epoch_day() -> int {
    719_163
}

/// The first and last days that chrono's dates can hold
/// (years -262143 to 262142).
pub open spec fn first_day() -> int {
    -95_746_129
}

pub open spec fn last_day() -> int {
    95_745_399
}

/// The UTC day of a Unix timestamp, when chrono can hold it.
pub open spec fn timestamp_date(ts: i64) -> Option<Date> {
    let day = ts as int / 86_400 + unix_epoch_day();
    if first_day() <= day <= last_day() {
        Some(Date { days_from_ce: day as i32 })
    } else {
        None
    }
}

/// Calls `chrono::DateTime::from_timestamp(ts, 0)` and takes the day of the
/// result (`date_naive`) as its number of days from the common era.  The
/// source computes the day as `ts.div_euclid(86_400) + 719_163` and returns
/// `None` exactly when that day lies outside the years chrono supports.
#[verifier::external_body]
pub(crate) fn date_from_timestamp(ts: i64) -> (res: Option<Date>)
    ensures
        res == timestamp_date(ts),
{
    match chrono::DateTime::from_timestamp(ts, 0) {
        Some(dt) => Some(Date { days_from_ce: chrono::Datelike::num_days_from_ce(&dt.date_naive()) }),
        None => None,
    }
}

/// The number of whole days from `earlier` to `later`, as chrono's date
/// subtraction followed by `num_days` gives it.
pub open spec fn days_between(later: Date, earlier: Date) -> int {
    later.days_from_ce - earlier.days_from_ce
}

impl Date {
    /// Whole days from `earlier` to `self` (negative when `earlier` is later).
    pub fn days_since(&self, earlier: &Date) -> (res: i64)
        ensures
            res == days_between(*self, *earlier),
    {
        self.days_from_ce as i64 - earlier.days_from_ce as i64
    }
}

// ---------------------------------------------------------------------------
// Debt items and summaries
// ---------------------------------------------------------------------------

/// A single code debt hit with blame information.
#[derive(Debug, Clone)]
pub struct DebtItem {
    pub file: String,
    pub line: usize,
    pub comment_type: CommentType,
    pub text: String,
    pub author: Option<String>,
    pub date: Option<Date>,
    pub days_ago: Option<i64>,
}

/// Summary statistics for a scan.
#[derive(Debug, Clone)]
pub struct ScanSummary {
    pub total: usize,
    pub by_type: Vec<(String, usize)>,
    pub by_author: Vec<(String, usize)>,
    pub oldest_days: Option<i64>,
    pub newest_days: Option<i64>,
}

} // verus!
