//! Finding debt comments in file contents, and turning hits into items.
//!
//! Walking directories and reading files is done by the caller; this module
//! takes the text of a file and its path relative to the scanned root.
use vstd::prelude::*;

use crate::text::{chars_of, lines, push_str, split_lines, string_of, trim, trim_chars};
use crate::types::{kind_of, label_of, CommentType, DebtItem};

verus! {

#[verifier::external_type_specification]
#[verifier::external_body]
pub struct ExRegex(regex::Regex);

#[verifier::external_type_specification]
#[verifier::external_body]
pub struct ExRegexError(regex::Error);

/// The pattern of a debt comment: one of the marker words as a whole word,
/// in any case, then any colons and whitespace, then the rest of the line.
pub open spec fn debt_pattern_text() -> Seq<char> {
    "(?i)\\b(TODO|FIXME|HACK|BUG|XXX)\\b[:\\s]*(.*)"@
}

/// `\b`: the zero-width assertion that matches only between a word
/// character (letter, digit or underscore) and a non-word character or an
/// end of the text.
pub open spec fn word_boundary() -> Seq<char> {
    seq!['\\', 'b']
}

/// The marker words of the five kinds, separated by `|`.
pub open spec fn marker_alternatives() -> Seq<char> {
    label_of(CommentType::Todo) + seq!['|'] + label_of(CommentType::Fixme) + seq!['|'] + label_of(
        CommentType::Hack,
    ) + seq!['|'] + label_of(CommentType::Bug) + seq!['|'] + label_of(CommentType::Xxx)
}

/// The shape of the debt comment pattern: case-insensitive (`(?i)`), the
/// group of the five marker words with a word boundary directly before it
/// and directly after it, so that a marker is found only as a whole word
/// (not `bug` inside `Debug`); then any run of colons and whitespace, and
/// the rest of the line as the second group.
pub proof fn lemma_debt_pattern_shape()
    ensures
        debt_pattern_text() == seq!['(', '?', 'i', ')'] + word_boundary() + seq!['(']
            + marker_alternatives() + seq![')'] + word_boundary() + seq![
            '[',
            ':',
            '\\',
            's',
            ']',
            '*',
            '(',
            '.',
            '*',
            ')',
        ],
{
    reveal_strlit("(?i)\\b(TODO|FIXME|HACK|BUG|XXX)\\b[:\\s]*(.*)");
    reveal_strlit("TODO");
    reveal_strlit("FIXME");
    reveal_strlit("HACK");
    reveal_strlit("BUG");
    reveal_strlit("XXX");
    assert(debt_pattern_text() =~= seq!['(', '?', 'i', ')'] + word_boundary() + seq!['(']
        + marker_alternatives() + seq![')'] + word_boundary() + seq![
        '[',
        ':',
        '\\',
        's',
        ']',
        '*',
        '(',
        '.',
        '*',
        ')',
    ]);
}

/// The capture groups 1 and 2 of each successive match that the `regex`
/// crate's `Regex::captures_iter` finds for a pattern in a haystack.
pub uninterp spec fn regex_captures(pattern: Seq<char>, haystack: Seq<char>) -> Seq<
    (Option<Seq<char>>, Option<Seq<char>>),
>;

/// Whether the `regex` crate's `Regex::new` accepts a pattern.
pub uninterp spec fn regex_compiles(pattern: Seq<char>) -> bool;

/// A compiled regex together with the pattern text it was compiled from,
/// which is its view.  Only `compile_pattern` builds one.
pub struct DebtPattern {
    re: regex::Regex,
    source: String,
}

impl View for DebtPattern {
    type V = Seq<char>;

    closed spec fn view(&self) -> Seq<char> {
        self.source@
    }
}

/// Calls `regex::Regex::new` and keeps the compiled regex together with the
/// pattern text it was compiled from, so that a `DebtPattern`'s view is
/// always the text of its own regex.  Whether compiling succeeds depends on
/// the pattern alone, and is named `regex_compiles`.
#[verifier::external_body]
fn compile_pattern(pattern: &str) -> (res: Result<DebtPattern, regex::Error>)
    ensures
        res is Ok <==> regex_compiles(pattern@),
        res matches Ok(p) ==> p@ == pattern@,
{
    match regex::Regex::new(pattern) {
        Ok(re) => Ok(DebtPattern { re, source: pattern.to_string() }),
        Err(e) => Err(e),
    }
}

/// Renders a `regex::Error` with its `Display` impl.  Nothing is stated of
/// the message.
#[verifier::external_body]
fn regex_error_text(e: &regex::Error) -> (res: String) {
    format!("{}", e)
}

/// Calls `Regex::captures_iter` on one line and keeps, for each match, the
/// text of capture groups 1 and 2 (`None` for a group that did not take
/// part).  The result is named `regex_captures` of the pattern's text and
/// the line.
#[verifier::external_body]
fn pattern_captures(p: &DebtPattern, line: &str) -> (res: Vec<(Option<String>, Option<String>)>)
    ensures
        capture_views(res@) == regex_captures(p@, line@),
{
    let mut out = Vec::new();
    for c in p.re.captures_iter(line) {
        let tag = c.get(1).map(|m| m.as_str().to_string());
        let rest = c.get(2).map(|m| m.as_str().to_string());
        out.push((tag, rest));
    }
    out
}

pub open spec fn opt_str_view(o: Option<String>) -> Option<Seq<char>> {
    match o {
        Some(s) => Some(s@),
        None => None,
    }
}

pub open spec fn capture_views(v: Seq<(Option<String>, Option<String>)>) -> Seq<
    (Option<Seq<char>>, Option<Seq<char>>),
> {
    Seq::new(v.len(), |i: int| (opt_str_view(v[i].0), opt_str_view(v[i].1)))
}

impl DebtPattern {
    /// Compiles the debt comment pattern.
    pub fn new() -> (res: Result<DebtPattern, String>)
        ensures
            res is Ok <==> regex_compiles(debt_pattern_text()),
            res matches Ok(p) ==> p@ == debt_pattern_text(),
            res matches Err(msg) ==> crate::text::starts_with(msg@, "Failed to compile regex: "@),
    {
        let text = "(?i)\\b(TODO|FIXME|HACK|BUG|XXX)\\b[:\\s]*(.*)";
        let ghost spec_text = debt_pattern_text();
        assert(text@ == spec_text);
        match compile_pattern(text) {
            Ok(p) => Ok(p),
            Err(e) => {
                let mut msg = String::new();
                push_str(&mut msg, "Failed to compile regex: ");
                let detail = regex_error_text(&e);
                push_str(&mut msg, detail.as_str());
                assert(msg@.take("Failed to compile regex: "@.len() as int) =~= "Failed to compile regex: "@);
                Err(msg)
            },
        }
    }
}

/// A match found in a file before blame enrichment.
#[derive(Debug, Clone)]
pub struct RawHit {
    pub file: String,
    pub line: usize,
    pub comment_type: CommentType,
    pub text: String,
}

/// Result of scanning a directory: hits plus the files that could not be
/// read, each with the reason.
#[derive(Debug)]
pub struct ScanResult {
    pub hits: Vec<RawHit>,
    pub skipped: Vec<(String, String)>,
}

impl Default for ScanResult {
    fn default() -> (res: Self)
        ensures
            res.hits@.len() == 0,
            res.skipped@.len() == 0,
    {
        ScanResult { hits: Vec::new(), skipped: Vec::new() }
    }
}

/// A hit as plain values: file, line, kind and text.
pub open spec fn hit_view(h: RawHit) -> (Seq<char>, usize, CommentType, Seq<char>) {
    (h.file@, h.line, h.comment_type, h.text@)
}

pub open spec fn hit_views(v: Seq<RawHit>) -> Seq<(Seq<char>, usize, CommentType, Seq<char>)> {
    Seq::new(v.len(), |i: int| hit_view(v[i]))
}

/// The hits that the captures of one line give: a capture whose first group
/// names a kind (in any case) is a hit, with the second group, trimmed, as
/// its text.
pub open spec fn capture_hits(
    file: Seq<char>,
    line: usize,
    caps: Seq<(Option<Seq<char>>, Option<Seq<char>>)>,
) -> Seq<(Seq<char>, usize, CommentType, Seq<char>)>
    decreases caps.len(),
{
    if caps.len() == 0 {
        Seq::empty()
    } else {
        let rest = capture_hits(file, line, caps.drop_last());
        match caps.last().0 {
            Some(tag) => match kind_of(tag) {
                Some(t) => rest.push(
                    (
                        file,
                        line,
                        t,
                        match caps.last().1 {
                            Some(x) => trim(x),
                            None => Seq::empty(),
                        },
                    ),
                ),
                None => rest,
            },
            None => rest,
        }
    }
}

/// The hits of a file's lines; line numbers start at 1.
pub open spec fn lines_hits(file: Seq<char>, ls: Seq<Seq<char>>, pattern: Seq<char>) -> Seq<
    (Seq<char>, usize, CommentType, Seq<char>),
>
    decreases ls.len(),
{
    if ls.len() == 0 {
        Seq::empty()
    } else {
        lines_hits(file, ls.drop_last(), pattern) + capture_hits(
            file,
            ls.len() as usize,
            regex_captures(pattern, ls.last()),
        )
    }
}

/// Turns the captures of one line into hits.
pub fn hits_from_captures(
    file: &str,
    line: usize,
    caps: Vec<(Option<String>, Option<String>)>,
) -> (res: Vec<RawHit>)
    ensures
        hit_views(res@) == capture_hits(file@, line, capture_views(caps@)),
{
    let mut out: Vec<RawHit> = Vec::new();
    let ghost cv = capture_views(caps@);
    let mut i: usize = 0;
    while i < caps.len()
        invariant
            i <= caps@.len(),
            cv == capture_views(caps@),
            hit_views(out@) == capture_hits(file@, line, cv.take(i as int)),
        decreases caps@.len() - i,
    {
        assert(cv.take(i + 1).drop_last() =~= cv.take(i as int));
        assert(cv.take(i + 1).last() == cv[i as int]);
        match &caps[i].0 {
            Some(tag) => match CommentType::from_str(tag.as_str()) {
                Some(t) => {
                    let text: Vec<char> = match &caps[i].1 {
                        Some(x) => {
                            let xc = chars_of(x.as_str());
                            trim_chars(xc.as_slice())
                        },
                        None => Vec::new(),
                    };
                    let mut f = String::new();
                    push_str(&mut f, file);
                    let hit = RawHit {
                        file: f,
                        line,
                        comment_type: t,
                        text: string_of(text.as_slice()),
                    };
                    let ghost before = out@;
                    out.push(hit);
                    assert(hit_views(out@) =~= hit_views(before).push(hit_view(hit)));
                },
                None => {},
            },
            None => {},
        }
        i = i + 1;
    }
    assert(cv.take(i as int) =~= cv);
    out
}

/// Finds the debt comments in the text of one file: every line is matched
/// against the pattern, line numbers start at 1.
pub fn scan_content(content: &str, file: &str, pattern: &DebtPattern) -> (res: Vec<RawHit>)
    ensures
        hit_views(res@) == lines_hits(file@, lines(content@), pattern@),
{
    let ls = split_lines(content);
    let ghost sl = lines(content@);
    let mut out: Vec<RawHit> = Vec::new();
    let mut i: usize = 0;
    while i < ls.len()
        invariant
            i <= ls@.len() == sl.len(),
            forall|k: int| 0 <= k < ls@.len() ==> #[trigger] ls@[k]@ == sl[k],
            hit_views(out@) == lines_hits(file@, sl.take(i as int), pattern@),
        decreases ls@.len() - i,
    {
        assert(sl.take(i + 1).drop_last() =~= sl.take(i as int));
        assert(sl.take(i + 1).last() == ls@[i as int]@);
        let line = string_of(ls[i].as_slice());
        let caps = pattern_captures(pattern, line.as_str());
        let mut found = hits_from_captures(file, i + 1, caps);
        let ghost before = out@;
        let ghost fv = found@;
        out.append(&mut found);
        assert(hit_views(out@) =~= hit_views(before) + hit_views(fv));
        i = i + 1;
    }
    assert(sl.take(i as int) =~= sl);
    out
}

/// The item made of a hit: same file, line, kind and text, and no blame
/// information.
pub open spec fn item_of_hit(it: DebtItem, h: RawHit) -> bool {
    &&& it.file@ == h.file@
    &&& it.line == h.line
    &&& it.comment_type == h.comment_type
    &&& it.text@ == h.text@
    &&& it.author is None
    &&& it.date is None
    &&& it.days_ago is None
}

/// Converts raw hits to debt items, with no blame information yet.
pub fn hits_to_items(hits: Vec<RawHit>) -> (res: Vec<DebtItem>)
    ensures
        res@.len() == hits@.len(),
        forall|i: int| 0 <= i < hits@.len() ==> item_of_hit(#[trigger] res@[i], hits@[i]),
{
    let mut out: Vec<DebtItem> = Vec::new();
    let ghost all = hits@;
    for h in iter: hits
        invariant
            iter.seq() == all,
            out@.len() == iter.index(),
            forall|i: int| 0 <= i < iter.index() ==> item_of_hit(#[trigger] out@[i], all[i]),
    {
        let ghost k = iter.index();
        let ghost hh = h;
        out.push(
            DebtItem {
                file: h.file,
                line: h.line,
                comment_type: h.comment_type,
                text: h.text,
                author: None,
                date: None,
                days_ago: None,
            },
        );
        assert(item_of_hit(out@[k as int], hh));
    }
    out
}

} // verus!
