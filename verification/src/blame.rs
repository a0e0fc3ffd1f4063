//! Reading `git blame --porcelain` output, and putting what it says onto
//! debt items.
//!
//! In porcelain output the first line of each blamed line is a header,
//! `<40-hex-digit hash> <orig-line> <final-line> [<num-lines>]`.  The first
//! time a commit appears its header is followed by `author ...`,
//! `author-time ...` and other lines; later headers of the same commit come
//! alone, so a commit's author and date are remembered by hash.
use vstd::prelude::*;
use std::collections::HashMap;

use crate::text::{
    chars_equal, is_hex, is_hex_char, lines, parse_i64, parse_i64_spec, parse_usize,
    parse_usize_spec, skip_chars, split_lines, split_words, starts_with, starts_with_str, words,
};
use crate::types::{date_from_timestamp, days_between, timestamp_date, Date, DebtItem};

verus! {

broadcast use vstd::std_specs::hash::group_hash_axioms;

/// Who last touched a line, and on which day.
#[derive(Debug)]
pub struct BlameInfo {
    pub author: String,
    pub date: Date,
}

/// A remembered commit: its hash, author and day.
struct CommitEntry {
    hash: Vec<char>,
    author: Vec<char>,
    date: Date,
}

/// What has been read of the porcelain output so far.
pub struct BlameState {
    /// Final line number to author and day.
    pub result: Map<usize, (Seq<char>, Date)>,
    /// Commits seen with full headers, in the order first seen.
    pub cache: Seq<(Seq<char>, Seq<char>, Date)>,
    pub hash: Option<Seq<char>>,
    pub line: Option<usize>,
    pub author: Option<Seq<char>>,
    pub date: Option<Date>,
}

pub open spec fn initial_state() -> BlameState {
    BlameState {
        result: Map::empty(),
        cache: Seq::empty(),
        hash: None,
        line: None,
        author: None,
        date: None,
    }
}

/// The author and day remembered for a commit hash.
pub open spec fn cache_find(c: Seq<(Seq<char>, Seq<char>, Date)>, h: Seq<char>) -> Option<
    (Seq<char>, Date),
>
    decreases c.len(),
{
    if c.len() == 0 {
        None
    } else {
        match cache_find(c.drop_last(), h) {
            Some(x) => Some(x),
            None => if c.last().0 == h {
                Some((c.last().1, c.last().2))
            } else {
                None
            },
        }
    }
}

/// What is remembered for a hash comes from an entry with that very hash:
/// the first such entry; nothing is found exactly when no entry has it.
pub proof fn lemma_cache_find_by_hash(c: Seq<(Seq<char>, Seq<char>, Date)>, h: Seq<char>)
    ensures
        cache_find(c, h) is None <==> forall|i: int| 0 <= i < c.len() ==> (#[trigger] c[i]).0 != h,
        cache_find(c, h) is Some ==> exists|i: int|
            0 <= i < c.len() && (#[trigger] c[i]).0 == h && cache_find(c, h)->0 == (c[i].1, c[i].2)
                && forall|j: int| 0 <= j < i ==> (#[trigger] c[j]).0 != h,
    decreases c.len(),
{
    if c.len() > 0 {
        let p = c.drop_last();
        lemma_cache_find_by_hash(p, h);
        assert forall|i: int| 0 <= i < p.len() implies p[i] == c[i] by {}
        if cache_find(p, h) is Some {
            let i = choose|i: int|
                0 <= i < p.len() && (#[trigger] p[i]).0 == h && cache_find(p, h)->0 == (
                    p[i].1,
                    p[i].2,
                ) && forall|j: int| 0 <= j < i ==> (#[trigger] p[j]).0 != h;
            assert(c[i] == p[i]);
            assert forall|j: int| 0 <= j < i implies (#[trigger] c[j]).0 != h by {
                assert(c[j] == p[j]);
            }
        } else {
            if c.last().0 == h {
                assert(c[c.len() - 1].0 == h);
                assert forall|j: int| 0 <= j < c.len() - 1 implies (#[trigger] c[j]).0 != h by {
                    assert(c[j] == p[j]);
                }
            } else {
                assert forall|i: int| 0 <= i < c.len() implies (#[trigger] c[i]).0 != h by {
                    if i < c.len() - 1 {
                        assert(c[i] == p[i]);
                    }
                }
            }
        }
    }
}

/// A header line: at least 40 characters, the first 40 hexadecimal digits.
pub open spec fn is_header(l: Seq<char>) -> bool {
    l.len() >= 40 && forall|i: int| 0 <= i < 40 ==> #[trigger] is_hex(l[i])
}

/// The author and day for the entry under way: its own headers when both
/// were read, else what is remembered for its commit.
pub open spec fn entry_info(st: BlameState, h: Seq<char>) -> Option<(Seq<char>, Date)> {
    match (st.author, st.date) {
        (Some(a), Some(d)) => Some((a, d)),
        _ => cache_find(st.cache, h),
    }
}

/// Records the entry under way, if it has a line number, a hash and an
/// author and day.  Its commit is remembered if it was not yet.
pub open spec fn finish_entry(st: BlameState) -> BlameState {
    match (st.line, st.hash) {
        (Some(l), Some(h)) => match entry_info(st, h) {
            Some(info) => BlameState {
                result: st.result.insert(l, info),
                cache: if cache_find(st.cache, h) is Some {
                    st.cache
                } else {
                    st.cache.push((h, info.0, info.1))
                },
                ..st
            },
            None => st,
        },
        _ => st,
    }
}

/// Finishing an entry with a line number and a hash records that line with
/// the author and day read under its own header when both were read, and
/// otherwise with what is remembered for its commit hash (nothing when
/// nothing is).  Once it is recorded, its commit is remembered: with what
/// was remembered before if anything was, else with the recorded author and
/// day.
pub proof fn lemma_finish_entry_records(st: BlameState)
    requires
        st.line is Some,
        st.hash is Some,
    ensures
        ({
            let l = st.line->0;
            let h = st.hash->0;
            let fin = finish_entry(st);
            &&& (st.author is Some && st.date is Some) ==> {
                &&& fin.result == st.result.insert(l, (st.author->0, st.date->0))
                &&& cache_find(fin.cache, h) == if cache_find(st.cache, h) is Some {
                    cache_find(st.cache, h)
                } else {
                    Some((st.author->0, st.date->0))
                }
            }
            &&& !(st.author is Some && st.date is Some) ==> {
                &&& fin.cache == st.cache
                &&& fin.result == match cache_find(st.cache, h) {
                    Some(info) => st.result.insert(l, info),
                    None => st.result,
                }
            }
        }),
{
    let h = st.hash->0;
    if st.author is Some && st.date is Some && cache_find(st.cache, h) is None {
        let e = (h, st.author->0, st.date->0);
        assert(st.cache.push(e).drop_last() =~= st.cache);
    }
}

/// Reads one line of porcelain output.
pub open spec fn blame_step(st: BlameState, l: Seq<char>) -> BlameState {
    if is_header(l) {
        let st1 = finish_entry(st);
        let ws = words(l);
        let st2 = if ws.len() >= 3 {
            BlameState { hash: Some(ws[0]), line: parse_usize_spec(ws[2]), ..st1 }
        } else {
            st1
        };
        BlameState { author: None, date: None, ..st2 }
    } else if starts_with(l, "author "@) {
        BlameState { author: Some(l.skip(7)), ..st }
    } else if starts_with(l, "author-time "@) {
        match parse_i64_spec(l.skip(12)) {
            Some(ts) => match timestamp_date(ts) {
                Some(d) => BlameState { date: Some(d), ..st },
                None => st,
            },
            None => st,
        }
    } else {
        st
    }
}

/// Once a commit is remembered, what is remembered for it never changes: a
/// later line of the same commit with no author and time of its own gets the
/// author and day first read for the commit.
pub proof fn lemma_commit_memory_persists(st: BlameState, l: Seq<char>, h: Seq<char>)
    requires
        cache_find(st.cache, h) is Some,
    ensures
        cache_find(blame_step(st, l).cache, h) == cache_find(st.cache, h),
        cache_find(finish_entry(st).cache, h) == cache_find(st.cache, h),
        (st.line is Some && st.hash == Some(h) && (st.author is None || st.date is None))
            ==> finish_entry(st).result == st.result.insert(st.line->0, cache_find(st.cache, h)->0),
{
    let f = finish_entry(st);
    if let (Some(_), Some(h2)) = (st.line, st.hash) {
        if entry_info(st, h2) is Some && cache_find(st.cache, h2) is None {
            let info = entry_info(st, h2)->0;
            let e = (h2, info.0, info.1);
            assert(st.cache.push(e).drop_last() =~= st.cache);
        }
    }
}

/// The state after reading the given lines.
pub open spec fn blame_run(ls: Seq<Seq<char>>) -> BlameState
    decreases ls.len(),
{
    if ls.len() == 0 {
        initial_state()
    } else {
        blame_step(blame_run(ls.drop_last()), ls.last())
    }
}

/// Final line number to author and day, for a whole porcelain output.
pub open spec fn porcelain_blame(output: Seq<char>) -> Map<usize, (Seq<char>, Date)> {
    finish_entry(blame_run(lines(output))).result
}

/// The map holds exactly the entries of `m`, authors by their characters.
pub open spec fn blame_map_matches(
    r: Map<usize, BlameInfo>,
    m: Map<usize, (Seq<char>, Date)>,
) -> bool {
    &&& r.dom() == m.dom()
    &&& forall|k: usize| #[trigger]
        r.contains_key(k) ==> r[k].author@ == m[k].0 && r[k].date == m[k].1
}

spec fn opt_view(o: Option<Vec<char>>) -> Option<Seq<char>> {
    match o {
        Some(v) => Some(v@),
        None => None,
    }
}

spec fn cache_view(c: Seq<CommitEntry>) -> Seq<(Seq<char>, Seq<char>, Date)> {
    Seq::new(c.len(), |i: int| (c[i].hash@, c[i].author@, c[i].date))
}

/// The exec state stands for the spec state.
spec fn state_matches(
    result: Map<usize, BlameInfo>,
    cache: Seq<CommitEntry>,
    hash: Option<Vec<char>>,
    line: Option<usize>,
    author: Option<Vec<char>>,
    date: Option<Date>,
    st: BlameState,
) -> bool {
    &&& blame_map_matches(result, st.result)
    &&& cache_view(cache) == st.cache
    &&& opt_view(hash) == st.hash
    &&& line == st.line
    &&& opt_view(author) == st.author
    &&& date == st.date
}

fn copy_chars(v: &Vec<char>) -> (res: Vec<char>)
    ensures
        res@ == v@,
{
    skip_chars(v.as_slice(), 0)
}

fn find_commit(cache: &Vec<CommitEntry>, h: &Vec<char>) -> (res: Option<(Vec<char>, Date)>)
    ensures
        match res {
            Some((a, d)) => cache_find(cache_view(cache@), h@) == Some((a@, d)),
            None => cache_find(cache_view(cache@), h@) is None,
        },
{
    let mut i: usize = 0;
    while i < cache.len()
        invariant
            i <= cache@.len(),
            cache_find(cache_view(cache@).take(i as int), h@) is None,
        decreases cache@.len() - i,
    {
        assert(cache_view(cache@).take(i + 1).drop_last() =~= cache_view(cache@).take(i as int));
        if chars_equal(cache[i].hash.as_slice(), h.as_slice()) {
            proof {
                lemma_cache_find_prefix(cache_view(cache@), h@, i + 1);
            }
            return Some((copy_chars(&cache[i].author), cache[i].date));
        }
        i = i + 1;
    }
    assert(cache_view(cache@).take(i as int) =~= cache_view(cache@));
    None
}

/// A commit found in a prefix of the cache is what the whole cache finds.
proof fn lemma_cache_find_prefix(c: Seq<(Seq<char>, Seq<char>, Date)>, h: Seq<char>, k: int)
    requires
        0 <= k <= c.len(),
        cache_find(c.take(k), h) is Some,
    ensures
        cache_find(c, h) == cache_find(c.take(k), h),
    decreases c.len() - k,
{
    if k < c.len() {
        assert(c.take(k + 1).drop_last() =~= c.take(k));
        lemma_cache_find_prefix(c, h, k + 1);
    } else {
        assert(c.take(k) =~= c);
    }
}

/// Records the entry under way (see `finish_entry`).
fn finish_entry_exec(
    result: &mut HashMap<usize, BlameInfo>,
    cache: &mut Vec<CommitEntry>,
    hash: &Option<Vec<char>>,
    line: Option<usize>,
    author: &Option<Vec<char>>,
    date: Option<Date>,
    Ghost(st): Ghost<BlameState>,
)
    requires
        state_matches(old(result)@, old(cache)@, *hash, line, *author, date, st),
    ensures
        blame_map_matches(final(result)@, finish_entry(st).result),
        cache_view(final(cache)@) == finish_entry(st).cache,
{
    match (line, hash) {
        (Some(l), Some(h)) => {
            let found = find_commit(cache, h);
            let info: Option<(Vec<char>, Date)> = match (author, date) {
                (Some(a), Some(d)) => Some((copy_chars(a), d)),
                _ => match &found {
                    Some((a, d)) => Some((copy_chars(a), *d)),
                    None => None,
                },
            };
            match info {
                Some((a, d)) => {
                    if found.is_none() {
                        cache.push(CommitEntry { hash: copy_chars(h), author: copy_chars(&a), date: d });
                        assert(cache_view(cache@) =~= cache_view(old(cache)@).push((h@, a@, d)));
                    }
                    let name = crate::text::string_of(a.as_slice());
                    result.insert(l, BlameInfo { author: name, date: d });
                },
                None => {},
            }
        },
        _ => {},
    }
}

/// Whether a line is a porcelain header line.
fn is_header_exec(l: &Vec<char>) -> (res: bool)
    ensures
        res == is_header(l@),
{
    if l.len() < 40 {
        return false;
    }
    let mut i: usize = 0;
    while i < 40
        invariant
            i <= 40 <= l@.len(),
            forall|k: int| 0 <= k < i ==> #[trigger] is_hex(l@[k]),
        decreases 40 - i,
    {
        if !is_hex_char(l[i]) {
            return false;
        }
        i = i + 1;
    }
    true
}

/// Parses porcelain blame output into a map from final line number to
/// author and day.
///
/// The first header of a commit is followed by its author and author time;
/// later headers of the same commit take what was remembered for it.  A
/// header whose line number does not parse records nothing.
pub fn parse_porcelain_blame(output: &str) -> (res: Result<HashMap<usize, BlameInfo>, String>)
    ensures
        res is Ok,
        res matches Ok(m) ==> blame_map_matches(m@, porcelain_blame(output@)),
{
    let ls = split_lines(output);
    let ghost sl = lines(output@);
    assert(ls@.len() == sl.len());
    let mut result: HashMap<usize, BlameInfo> = HashMap::new();
    let mut cache: Vec<CommitEntry> = Vec::new();
    let mut hash: Option<Vec<char>> = None;
    let mut line: Option<usize> = None;
    let mut author: Option<Vec<char>> = None;
    let mut date: Option<Date> = None;
    proof {
        reveal_strlit("author ");
        reveal_strlit("author-time ");
    }
    assert(cache_view(cache@) =~= Seq::empty());
    let mut i: usize = 0;
    while i < ls.len()
        invariant
            i <= ls@.len() == sl.len(),
            sl == lines(output@),
            forall|k: int| 0 <= k < ls@.len() ==> #[trigger] ls@[k]@ == sl[k],
            "author "@.len() == 7,
            "author-time "@.len() == 12,
            state_matches(
                result@,
                cache@,
                hash,
                line,
                author,
                date,
                blame_run(sl.take(i as int)),
            ),
        decreases ls@.len() - i,
    {
        let ghost st = blame_run(sl.take(i as int));
        assert(sl.take(i + 1).drop_last() =~= sl.take(i as int));
        assert(sl.take(i + 1).last() == ls@[i as int]@);
        let l = &ls[i];
        if is_header_exec(l) {
            finish_entry_exec(&mut result, &mut cache, &hash, line, &author, date, Ghost(st));
            let ws = split_words(l.as_slice());
            if ws.len() >= 3 {
                hash = Some(copy_chars(&ws[0]));
                line = parse_usize(ws[2].as_slice());
            }
            author = None;
            date = None;
        } else if starts_with_str(l.as_slice(), "author ") {
            author = Some(skip_chars(l.as_slice(), 7));
        } else if starts_with_str(l.as_slice(), "author-time ") {
            let rest = skip_chars(l.as_slice(), 12);
            match parse_i64(rest.as_slice()) {
                Some(ts) => match date_from_timestamp(ts) {
                    Some(d) => {
                        date = Some(d);
                    },
                    None => {},
                },
                None => {},
            }
        }
        i = i + 1;
    }
    assert(sl.take(i as int) =~= sl);
    let ghost st = blame_run(sl);
    finish_entry_exec(&mut result, &mut cache, &hash, line, &author, date, Ghost(st));
    Ok(result)
}

// ---------------------------------------------------------------------------
// Putting blame onto items
// ---------------------------------------------------------------------------

/// The distinct values of `s`, in order of first appearance.
pub open spec fn distinct_in_order(s: Seq<Seq<char>>) -> Seq<Seq<char>>
    decreases s.len(),
{
    if s.len() == 0 {
        Seq::empty()
    } else {
        let u = distinct_in_order(s.drop_last());
        if u.contains(s.last()) {
            u
        } else {
            u.push(s.last())
        }
    }
}

/// The file of each item.
pub open spec fn item_files(items: Seq<DebtItem>) -> Seq<Seq<char>> {
    Seq::new(items.len(), |i: int| items[i].file@)
}

fn contains_string(v: &Vec<String>, s: &String) -> (res: bool)
    ensures
        res == crate::text::views(v@).contains(s@),
{
    let mut i: usize = 0;
    while i < v.len()
        invariant
            i <= v@.len(),
            forall|k: int| 0 <= k < i ==> v@[k]@ != s@,
        decreases v@.len() - i,
    {
        if v[i] == *s {
            assert(crate::text::views(v@)[i as int] == s@);
            return true;
        }
        i = i + 1;
    }
    false
}

/// The files that the items name, each once, in order of first appearance:
/// the files on which to run `git blame`.
pub fn blame_files(items: &Vec<DebtItem>) -> (res: Vec<String>)
    ensures
        crate::text::views(res@) == distinct_in_order(item_files(items@)),
{
    let mut out: Vec<String> = Vec::new();
    let mut i: usize = 0;
    while i < items.len()
        invariant
            i <= items@.len(),
            crate::text::views(out@) == distinct_in_order(item_files(items@).take(i as int)),
        decreases items@.len() - i,
    {
        assert(item_files(items@).take(i + 1).drop_last() =~= item_files(items@).take(i as int));
        let f = &items[i].file;
        if !contains_string(&out, f) {
            out.push(f.clone());
            assert(crate::text::views(out@) =~= distinct_in_order(item_files(items@).take(i as int)).push(f@));
        }
        i = i + 1;
    }
    assert(item_files(items@).take(i as int) =~= item_files(items@));
    out
}

/// Every file is listed once, and each item's file is listed.
pub proof fn lemma_blame_files_cover(s: Seq<Seq<char>>)
    ensures
        forall|i: int| 0 <= i < s.len() ==> distinct_in_order(s).contains(#[trigger] s[i]),
        forall|i: int, j: int|
            0 <= i < j < distinct_in_order(s).len() ==> distinct_in_order(s)[i]
                != distinct_in_order(s)[j],
        forall|x: Seq<char>| distinct_in_order(s).contains(x) ==> s.contains(x),
    decreases s.len(),
{
    if s.len() > 0 {
        let p = s.drop_last();
        lemma_blame_files_cover(p);
        let u = distinct_in_order(p);
        assert forall|i: int| 0 <= i < s.len() implies distinct_in_order(s).contains(
            #[trigger] s[i],
        ) by {
            if i < s.len() - 1 {
                assert(p[i] == s[i]);
                assert(u.contains(p[i]));
                if !u.contains(s.last()) {
                    let k = choose|k: int| 0 <= k < u.len() && u[k] == p[i];
                    assert(u.push(s.last())[k] == s[i]);
                }
            } else {
                if !u.contains(s.last()) {
                    assert(u.push(s.last())[u.len() as int] == s[i]);
                }
            }
        }
        assert forall|x: Seq<char>| distinct_in_order(s).contains(x) implies s.contains(x) by {
            if u.contains(x) {
                assert(p.contains(x));
                let k = choose|k: int| 0 <= k < p.len() && p[k] == x;
                assert(s[k] == x);
            } else {
                assert(s[s.len() - 1] == x);
            }
        }
    }
}

/// Item `it` after the blame of `file` has been put onto it: when the item
/// is in that file and the blame names its line, it takes that author and
/// day, and its age in days up to `today`.
pub open spec fn blamed_item(
    it: DebtItem,
    file: Seq<char>,
    blame: Map<usize, BlameInfo>,
    today: Date,
) -> DebtItem {
    if it.file@ == file && blame.contains_key(it.line) {
        DebtItem {
            author: Some(blame[it.line].author),
            date: Some(blame[it.line].date),
            days_ago: Some(days_between(today, blame[it.line].date) as i64),
            ..it
        }
    } else {
        it
    }
}

/// Puts the blame of one file onto the items of that file.
pub fn apply_blame(
    items: &mut Vec<DebtItem>,
    file: &str,
    blame: &HashMap<usize, BlameInfo>,
    today: Date,
)
    ensures
        final(items)@.len() == old(items)@.len(),
        forall|i: int|
            0 <= i < old(items)@.len() ==> #[trigger] final(items)@[i] == blamed_item(
                old(items)@[i],
                file@,
                blame@,
                today,
            ),
{
    let n = items.len();
    let mut target = String::new();
    crate::text::push_str(&mut target, file);
    assert(target@ =~= file@);
    let mut i: usize = 0;
    while i < n
        invariant
            n == items@.len() == old(items)@.len(),
            target@ == file@,
            i <= n,
            forall|k: int| 0 <= k < i ==> #[trigger] items@[k] == blamed_item(
                old(items)@[k],
                file@,
                blame@,
                today,
            ),
            forall|k: int| i <= k < n ==> #[trigger] items@[k] == old(items)@[k],
        decreases n - i,
    {
        if items[i].file == target {
            let line = items[i].line;
            match blame.get(&line) {
                Some(info) => {
                    let days = today.days_since(&info.date);
                    items[i].author = Some(info.author.clone());
                    items[i].date = Some(info.date);
                    items[i].days_ago = Some(days);
                },
                None => {},
            }
        }
        i = i + 1;
    }
}

} // verus!
