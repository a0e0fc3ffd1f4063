//! Reports: the terminal table, Markdown, and the summary by kind and author.
use vstd::prelude::*;
use colored::Colorize;

use crate::text::{
    chars_of, decimal, join_lines, join_with_newlines, pad_right, push_decimal, push_padded,
    push_signed, push_str, signed_decimal, starts_with, views, lemma_views_push,
};
use crate::types::{label_of, DebtItem, ScanSummary};

verus! {

// ---------------------------------------------------------------------------
// Truncation
// ---------------------------------------------------------------------------

/// The ellipsis that marks a cut.
pub open spec fn ellipsis() -> char {
    '\u{2026}'
}

/// `s` cut to at most `max` characters, the last kept one replaced by `…`
/// when something was cut.
pub open spec fn truncated(s: Seq<char>, max: nat) -> Seq<char> {
    if s.len() <= max {
        s
    } else {
        s.take(if max >= 1 {
            max - 1
        } else {
            0
        }).push(ellipsis())
    }
}

/// `s` cut from the front to at most `max` characters, `…` before the kept
/// tail when something was cut.
pub open spec fn truncated_end(s: Seq<char>, max: nat) -> Seq<char> {
    if s.len() <= max {
        s
    } else {
        seq![ellipsis()] + s.skip(
            s.len() - if max >= 1 {
                max - 1
            } else {
                0
            },
        )
    }
}

/// Cuts `s` to at most `max_chars` characters (Unicode scalar values, not
/// bytes), ending it with `…` when something was cut.
pub fn truncate_chars(s: &str, max_chars: usize) -> (res: String)
    ensures
        res@ == truncated(s@, max_chars as nat),
{
    let cs = chars_of(s);
    if cs.len() <= max_chars {
        return crate::text::string_of(cs.as_slice());
    }
    let keep: usize = if max_chars >= 1 {
        max_chars - 1
    } else {
        0
    };
    let mut out = String::new();
    let mut i: usize = 0;
    while i < keep
        invariant
            i <= keep < cs@.len(),
            out@ == cs@.take(i as int),
        decreases keep - i,
    {
        out.push(cs[i]);
        i = i + 1;
        assert(out@ =~= cs@.take(i as int));
    }
    out.push('\u{2026}');
    out
}

/// Cuts `s` from the front to at most `max_chars` characters, keeping its
/// tail (the file name of a path) and putting `…` before it.
pub fn truncate_chars_end(s: &str, max_chars: usize) -> (res: String)
    ensures
        res@ == truncated_end(s@, max_chars as nat),
{
    let cs = chars_of(s);
    let n = cs.len();
    if n <= max_chars {
        return crate::text::string_of(cs.as_slice());
    }
    let keep: usize = if max_chars >= 1 {
        max_chars - 1
    } else {
        0
    };
    let skip = n - keep;
    let mut out = String::new();
    out.push('\u{2026}');
    let mut i: usize = skip;
    while i < n
        invariant
            skip <= i <= n == cs@.len(),
            out@ == seq!['\u{2026}'] + cs@.subrange(skip as int, i as int),
        decreases n - i,
    {
        out.push(cs[i]);
        i = i + 1;
        assert(out@ =~= seq!['\u{2026}'] + cs@.subrange(skip as int, i as int));
    }
    assert(cs@.subrange(skip as int, n as int) =~= cs@.skip(skip as int));
    out
}

/// A cut string has at most the given number of characters (at least one
/// when the input was not empty), and an uncut one is the input.
pub proof fn lemma_truncated_len(s: Seq<char>, max: nat)
    ensures
        max >= 1 ==> truncated(s, max).len() == if s.len() <= max {
            s.len()
        } else {
            max
        },
        max >= 1 ==> truncated_end(s, max).len() == if s.len() <= max {
            s.len()
        } else {
            max
        },
        s.len() <= max ==> truncated(s, max) == s && truncated_end(s, max) == s,
        s.len() > max ==> truncated(s, max).last() == ellipsis() && truncated_end(s, max)[0]
            == ellipsis(),
{
}

// ---------------------------------------------------------------------------
// Colors
// ---------------------------------------------------------------------------

/// The colors that rows of old debt are printed in.
#[derive(Debug, Clone, Copy, PartialEq, Eq, Structural)]
pub enum RowColor {
    Red,
    Yellow,
}

pub open spec fn color_start(c: RowColor) -> Seq<char> {
    match c {
        RowColor::Red => "\x1b[31m"@,
        RowColor::Yellow => "\x1b[33m"@,
    }
}

pub open spec fn color_reset() -> Seq<char> {
    "\x1b[0m"@
}

/// `s` with `start` put back after each reset sequence in it (matches
/// taken left to right, without overlap), so that an inner reset does not
/// end the outer color.
pub open spec fn reopened(s: Seq<char>, start: Seq<char>) -> Seq<char>
    decreases s.len(),
{
    if s.len() == 0 {
        Seq::empty()
    } else if starts_with(s, color_reset()) && color_reset().len() > 0 {
        color_reset() + start + reopened(s.skip(color_reset().len() as int), start)
    } else {
        seq![s[0]] + reopened(s.skip(1), start)
    }
}

/// A row as printed: in its color when colors are on and the row has one,
/// as `start + row (inner resets re-opened) + reset`; else unchanged.
pub open spec fn painted_row(row: Seq<char>, c: Option<RowColor>, colors: bool) -> Seq<char> {
    match c {
        Some(c) => if colors {
            color_start(c) + reopened(row, color_start(c)) + color_reset()
        } else {
            row
        },
        None => row,
    }
}

/// Reads colored's own decision whether to color output: its manual
/// override when one is set, else `CLICOLOR_FORCE`/`NO_COLOR`, else
/// `CLICOLOR` and whether stdout is a terminal.  It depends on the
/// environment, so nothing is stated of it.
#[verifier::external_body]
fn colors_enabled() -> (res: bool) {
    colored::control::SHOULD_COLORIZE.should_colorize()
}

/// Calls colored's `Colorize::red` on the row and renders the result with
/// `to_string`, with colored's manual override set to `on` during the call
/// and unset after it.  The source then writes `ESC[31m`, the row with
/// `ESC[31m` put back after each inner `ESC[0m`, and `ESC[0m` when `on`, and
/// the row alone when not.  This holds while no other thread sets colored's
/// override at the same time.
#[verifier::external_body]
fn paint_red(row: &str, on: bool) -> (res: String)
    ensures
        res@ == painted_row(row@, Some(RowColor::Red), on),
{
    colored::control::set_override(on);
    let s = row.red().to_string();
    colored::control::unset_override();
    s
}

/// Calls colored's `Colorize::yellow` on the row and renders the result with
/// `to_string`, with colored's manual override set to `on` during the call
/// and unset after it: `ESC[33m`, the row with `ESC[33m` put back after each
/// inner `ESC[0m`, and `ESC[0m` when `on`; the row alone when not.  This
/// holds while no other thread sets colored's override at the same time.
#[verifier::external_body]
fn paint_yellow(row: &str, on: bool) -> (res: String)
    ensures
        res@ == painted_row(row@, Some(RowColor::Yellow), on),
{
    colored::control::set_override(on);
    let s = row.yellow().to_string();
    colored::control::unset_override();
    s
}

// ---------------------------------------------------------------------------
// The terminal table
// ---------------------------------------------------------------------------

pub open spec fn author_or_unknown(it: DebtItem) -> Seq<char> {
    match it.author {
        Some(a) => a@,
        None => "unknown"@,
    }
}

/// The age column: `12d ago`, or `unknown`.
pub open spec fn table_age(it: DebtItem) -> Seq<char> {
    match it.days_ago {
        Some(d) => signed_decimal(d as int) + "d ago"@,
        None => "unknown"@,
    }
}

pub open spec fn sp() -> Seq<char> {
    seq![' ']
}

pub open spec fn table_header() -> Seq<char> {
    pad_right("TYPE"@, 6) + sp() + pad_right("FILE"@, 40) + sp() + pad_right("LINE"@, 6) + sp()
        + pad_right("AUTHOR"@, 20) + sp() + pad_right("AGE"@, 12) + sp() + "TEXT"@
}

pub open spec fn dashes(n: nat) -> Seq<char> {
    Seq::new(n, |i: int| '-')
}

/// One row of the table, before coloring: kind, file (its tail, at most 38
/// characters), line, author (at most 18), age and text (at most 50), in
/// columns of 6, 40, 6, 20 and 12 characters.
pub open spec fn table_row(it: DebtItem) -> Seq<char> {
    pad_right(label_of(it.comment_type), 6) + sp() + pad_right(truncated_end(it.file@, 38), 40)
        + sp() + pad_right(decimal(it.line as nat), 6) + sp() + pad_right(
        truncated(author_or_unknown(it), 18),
        20,
    ) + sp() + pad_right(table_age(it), 12) + sp() + truncated(it.text@, 50)
}

/// Rows older than 90 days are red, older than 30 days yellow.
pub open spec fn row_color(it: DebtItem) -> Option<RowColor> {
    match it.days_ago {
        Some(d) => if d > 90 {
            Some(RowColor::Red)
        } else if d > 30 {
            Some(RowColor::Yellow)
        } else {
            None
        },
        None => None,
    }
}

pub open spec fn table_total(n: nat) -> Seq<char> {
    "Total: "@ + decimal(n) + " items"@
}

/// The table's lines around its rows.
pub open spec fn table_lines(rows: Seq<Seq<char>>, n: nat) -> Seq<Seq<char>> {
    seq![table_header(), dashes(110)] + rows + seq![Seq::empty(), table_total(n)]
}

/// The text of one table row, before coloring.
fn table_row_exec(it: &DebtItem) -> (res: String)
    ensures
        res@ == table_row(*it),
{
    let mut row = String::new();
    let label = chars_of(it.comment_type.label());
    push_padded(&mut row, label.as_slice(), 6);
    row.push(' ');
    let file = truncate_chars_end(it.file.as_str(), 38);
    let file_cs = chars_of(file.as_str());
    push_padded(&mut row, file_cs.as_slice(), 40);
    row.push(' ');
    let mut line = String::new();
    push_decimal(&mut line, it.line as u64);
    let line_cs = chars_of(line.as_str());
    push_padded(&mut row, line_cs.as_slice(), 6);
    row.push(' ');
    let author: &str = match &it.author {
        Some(a) => a.as_str(),
        None => "unknown",
    };
    let author_t = truncate_chars(author, 18);
    let author_cs = chars_of(author_t.as_str());
    push_padded(&mut row, author_cs.as_slice(), 20);
    row.push(' ');
    let mut age = String::new();
    match it.days_ago {
        Some(d) => {
            push_signed(&mut age, d);
            push_str(&mut age, "d ago");
        },
        None => {
            push_str(&mut age, "unknown");
        },
    }
    let age_cs = chars_of(age.as_str());
    push_padded(&mut row, age_cs.as_slice(), 12);
    row.push(' ');
    let text = truncate_chars(it.text.as_str(), 50);
    push_str(&mut row, text.as_str());
    assert(row@ =~= table_row(*it));
    row
}

fn table_header_exec() -> (res: String)
    ensures
        res@ == table_header(),
{
    let mut h = String::new();
    let c = chars_of("TYPE");
    push_padded(&mut h, c.as_slice(), 6);
    h.push(' ');
    let c = chars_of("FILE");
    push_padded(&mut h, c.as_slice(), 40);
    h.push(' ');
    let c = chars_of("LINE");
    push_padded(&mut h, c.as_slice(), 6);
    h.push(' ');
    let c = chars_of("AUTHOR");
    push_padded(&mut h, c.as_slice(), 20);
    h.push(' ');
    let c = chars_of("AGE");
    push_padded(&mut h, c.as_slice(), 12);
    h.push(' ');
    push_str(&mut h, "TEXT");
    assert(h@ =~= table_header());
    h
}

/// The whole table: with no items, a sentence saying so; else the header,
/// a rule, one row per item (colored when `colors` is on), a blank line and
/// the total.
pub open spec fn table_text(items: Seq<DebtItem>, colors: bool) -> Seq<char> {
    if items.len() == 0 {
        "No code debt found. Clean codebase!"@
    } else {
        join_lines(
            table_lines(
                Seq::new(
                    items.len(),
                    |i: int| painted_row(table_row(items[i]), row_color(items[i]), colors),
                ),
                items.len(),
            ),
        )
    }
}

/// Formats items as a terminal table, coloring rows older than 90 days red
/// and rows older than 30 days yellow when `colors` is on.
pub fn format_table_colored(items: &[DebtItem], colors: bool) -> (res: String)
    ensures
        res@ == table_text(items@, colors),
{
    if items.len() == 0 {
        let mut s = String::new();
        push_str(&mut s, "No code debt found. Clean codebase!");
        assert(s@ =~= "No code debt found. Clean codebase!"@);
        return s;
    }
    let ghost rows_all = Seq::new(
        items@.len(),
        |i: int| painted_row(table_row(items@[i]), row_color(items@[i]), colors),
    );
    let mut lines: Vec<String> = Vec::new();
    lines.push(table_header_exec());
    let mut rule = String::new();
    crate::text::push_repeat(&mut rule, '-', 110);
    assert(rule@ =~= dashes(110));
    lines.push(rule);
    let mut i: usize = 0;
    while i < items.len()
        invariant
            i <= items@.len(),
            rows_all.len() == items@.len(),
            forall|k: int|
                0 <= k < items@.len() ==> #[trigger] rows_all[k] == painted_row(
                    table_row(items@[k]),
                    row_color(items@[k]),
                    colors,
                ),
            views(lines@) == seq![table_header(), dashes(110)] + rows_all.take(i as int),
        decreases items@.len() - i,
    {
        let it = &items[i];
        let row = table_row_exec(it);
        let colored_row = match it.days_ago {
            Some(d) => {
                if !colors {
                    row
                } else if d > 90 {
                    paint_red(row.as_str(), true)
                } else if d > 30 {
                    paint_yellow(row.as_str(), true)
                } else {
                    row
                }
            },
            None => row,
        };
        assert(colored_row@ == rows_all[i as int]);
        proof {
            lemma_views_push(lines@, colored_row);
        }
        lines.push(colored_row);
        i = i + 1;
        assert(views(lines@) =~= seq![table_header(), dashes(110)] + rows_all.take(i as int));
    }
    assert(rows_all.take(i as int) =~= rows_all);
    lines.push(String::new());
    let mut total = String::new();
    push_str(&mut total, "Total: ");
    push_decimal(&mut total, items.len() as u64);
    push_str(&mut total, " items");
    lines.push(total);
    assert(views(lines@) =~= table_lines(rows_all, items@.len()));
    join_with_newlines(&lines)
}

/// Formats items as a colored terminal table: a header, a rule, one row per
/// item, a blank line and the total.  With no items it says so instead.
/// Whether rows are colored is colored's own decision, read from the
/// environment.
pub fn format_table(items: &[DebtItem]) -> (res: String)
    ensures
        res@ == table_text(items@, true) || res@ == table_text(items@, false),
{
    let colors = colors_enabled();
    format_table_colored(items, colors)
}

// ---------------------------------------------------------------------------
// Markdown
// ---------------------------------------------------------------------------

/// The age column of the Markdown table: `12d`, or `?`.
pub open spec fn md_age(it: DebtItem) -> Seq<char> {
    match it.days_ago {
        Some(d) => signed_decimal(d as int) + "d"@,
        None => "?"@,
    }
}

pub open spec fn md_row(it: DebtItem) -> Seq<char> {
    "| "@ + label_of(it.comment_type) + " | "@ + it.file@ + " | "@ + decimal(it.line as nat)
        + " | "@ + author_or_unknown(it) + " | "@ + md_age(it) + " | "@ + it.text@ + " |"@
}

pub open spec fn md_lines(items: Seq<DebtItem>) -> Seq<Seq<char>> {
    seq!["| Type | File | Line | Author | Age | Text |"@, "|------|------|------|--------|-----|------|"@]
        + Seq::new(items.len(), |i: int| md_row(items[i])) + seq![
        Seq::empty(),
        "**Total: "@ + decimal(items.len()) + " items**"@,
    ]
}

fn md_row_exec(it: &DebtItem) -> (res: String)
    ensures
        res@ == md_row(*it),
{
    let mut s = String::new();
    push_str(&mut s, "| ");
    push_str(&mut s, it.comment_type.label());
    push_str(&mut s, " | ");
    push_str(&mut s, it.file.as_str());
    push_str(&mut s, " | ");
    push_decimal(&mut s, it.line as u64);
    push_str(&mut s, " | ");
    match &it.author {
        Some(a) => push_str(&mut s, a.as_str()),
        None => push_str(&mut s, "unknown"),
    }
    push_str(&mut s, " | ");
    match it.days_ago {
        Some(d) => {
            push_signed(&mut s, d);
            push_str(&mut s, "d");
        },
        None => push_str(&mut s, "?"),
    }
    push_str(&mut s, " | ");
    push_str(&mut s, it.text.as_str());
    push_str(&mut s, " |");
    assert(s@ =~= md_row(*it));
    s
}

fn string_from(t: &str) -> (res: String)
    ensures
        res@ == t@,
{
    let mut s = String::new();
    push_str(&mut s, t);
    assert(s@ =~= t@);
    s
}

/// Formats items as a Markdown table with a total line; with no items it
/// says so instead.
pub fn format_markdown(items: &[DebtItem]) -> (res: String)
    ensures
        items@.len() == 0 ==> res@ == "No code debt found."@,
        items@.len() > 0 ==> res@ == join_lines(md_lines(items@)),
{
    if items.len() == 0 {
        return string_from("No code debt found.");
    }
    let mut lines: Vec<String> = Vec::new();
    lines.push(string_from("| Type | File | Line | Author | Age | Text |"));
    lines.push(string_from("|------|------|------|--------|-----|------|"));
    let mut i: usize = 0;
    while i < items.len()
        invariant
            i <= items@.len(),
            views(lines@) == seq![
                "| Type | File | Line | Author | Age | Text |"@,
                "|------|------|------|--------|-----|------|"@,
            ] + Seq::new(i as nat, |k: int| md_row(items@[k])),
        decreases items@.len() - i,
    {
        let r = md_row_exec(&items[i]);
        proof {
            lemma_views_push(lines@, r);
        }
        lines.push(r);
        i = i + 1;
        assert(views(lines@) =~= seq![
            "| Type | File | Line | Author | Age | Text |"@,
            "|------|------|------|--------|-----|------|"@,
        ] + Seq::new(i as nat, |k: int| md_row(items@[k])));
    }
    lines.push(String::new());
    let mut total = String::new();
    push_str(&mut total, "**Total: ");
    push_decimal(&mut total, items.len() as u64);
    push_str(&mut total, " items**");
    lines.push(total);
    assert(views(lines@) =~= md_lines(items@));
    join_with_newlines(&lines)
}

// ---------------------------------------------------------------------------
// Summary
// ---------------------------------------------------------------------------

/// Where `k` first stands in a list of counts.
pub open spec fn key_index(t: Seq<(Seq<char>, nat)>, k: Seq<char>) -> Option<int>
    decreases t.len(),
{
    if t.len() == 0 {
        None
    } else {
        match key_index(t.drop_last(), k) {
            Some(i) => Some(i),
            None => if t.last().0 == k {
                Some(t.len() - 1)
            } else {
                None
            },
        }
    }
}

/// One more occurrence of `k`.
pub open spec fn tally_add(t: Seq<(Seq<char>, nat)>, k: Seq<char>) -> Seq<(Seq<char>, nat)> {
    match key_index(t, k) {
        Some(i) => t.update(i, (k, t[i].1 + 1)),
        None => t.push((k, 1nat)),
    }
}

/// How often each key occurs, keys in order of first occurrence.
pub open spec fn tally(keys: Seq<Seq<char>>) -> Seq<(Seq<char>, nat)>
    decreases keys.len(),
{
    if keys.len() == 0 {
        Seq::empty()
    } else {
        tally_add(tally(keys.drop_last()), keys.last())
    }
}

/// `x` put after every entry counted at least as often.
pub open spec fn insert_by_count(s: Seq<(Seq<char>, nat)>, x: (Seq<char>, nat)) -> Seq<
    (Seq<char>, nat),
>
    decreases s.len(),
{
    if s.len() == 0 {
        seq![x]
    } else if s.last().1 >= x.1 {
        s.push(x)
    } else {
        insert_by_count(s.drop_last(), x).push(s.last())
    }
}

/// Counts, most frequent first; equal counts keep their order (a stable
/// sort by descending count).
pub open spec fn by_count(s: Seq<(Seq<char>, nat)>) -> Seq<(Seq<char>, nat)>
    decreases s.len(),
{
    if s.len() == 0 {
        Seq::empty()
    } else {
        insert_by_count(by_count(s.drop_last()), s.last())
    }
}

pub open spec fn type_keys(items: Seq<DebtItem>) -> Seq<Seq<char>> {
    Seq::new(items.len(), |i: int| label_of(items[i].comment_type))
}

pub open spec fn author_keys(items: Seq<DebtItem>) -> Seq<Seq<char>> {
    Seq::new(items.len(), |i: int| author_or_unknown(items[i]))
}

/// The largest known age.
pub open spec fn oldest(items: Seq<DebtItem>) -> Option<i64>
    decreases items.len(),
{
    if items.len() == 0 {
        None
    } else {
        let rest = oldest(items.drop_last());
        match items.last().days_ago {
            Some(d) => match rest {
                Some(o) => Some(if o >= d {
                    o
                } else {
                    d
                }),
                None => Some(d),
            },
            None => rest,
        }
    }
}

/// The smallest known age.
pub open spec fn newest(items: Seq<DebtItem>) -> Option<i64>
    decreases items.len(),
{
    if items.len() == 0 {
        None
    } else {
        let rest = newest(items.drop_last());
        match items.last().days_ago {
            Some(d) => match rest {
                Some(o) => Some(if o <= d {
                    o
                } else {
                    d
                }),
                None => Some(d),
            },
            None => rest,
        }
    }
}

pub open spec fn pair_views(v: Seq<(String, usize)>) -> Seq<(Seq<char>, nat)> {
    Seq::new(v.len(), |i: int| (v[i].0@, v[i].1 as nat))
}

fn tally_exec(keys: &Vec<String>) -> (res: Vec<(String, usize)>)
    ensures
        pair_views(res@) == tally(views(keys@)),
{
    let mut t: Vec<(String, usize)> = Vec::new();
    let mut i: usize = 0;
    while i < keys.len()
        invariant
            i <= keys@.len(),
            pair_views(t@) == tally(views(keys@).take(i as int)),
            forall|j: int| 0 <= j < t@.len() ==> #[trigger] t@[j].1 <= i,
        decreases keys@.len() - i,
    {
        let ghost pv = pair_views(t@);
        let k = &keys[i];
        assert(views(keys@).take(i + 1).drop_last() =~= views(keys@).take(i as int));
        assert(views(keys@).take(i + 1).last() == k@);
        let found = find_key(&t, k);
        if let Some(j) = found {
            proof {
                lemma_key_index_valid(pv, k@);
            }
            let c = t[j].1;
            t[j].1 = c + 1;
            assert(pair_views(t@) =~= pv.update(j as int, (k@, pv[j as int].1 + 1)));
        } else {
            t.push((k.clone(), 1));
            assert(pair_views(t@) =~= pv.push((k@, 1nat)));
        }
        i = i + 1;
    }
    assert(views(keys@).take(i as int) =~= views(keys@));
    t
}

fn find_key(t: &Vec<(String, usize)>, k: &String) -> (res: Option<usize>)
    ensures
        match res {
            Some(j) => j < t@.len() && key_index(pair_views(t@), k@) == Some(j as int),
            None => key_index(pair_views(t@), k@) is None,
        },
{
    let ghost pv = pair_views(t@);
    let mut j: usize = 0;
    while j < t.len()
        invariant
            j <= t@.len(),
            pv == pair_views(t@),
            key_index(pv.take(j as int), k@) is None,
        decreases t@.len() - j,
    {
        assert(pv.take(j + 1).drop_last() =~= pv.take(j as int));
        if t[j].0 == *k {
            proof {
                lemma_key_index_prefix(pv, k@, j + 1);
            }
            return Some(j);
        }
        j = j + 1;
    }
    assert(pv.take(j as int) =~= pv);
    None
}

proof fn lemma_key_index_valid(t: Seq<(Seq<char>, nat)>, k: Seq<char>)
    ensures
        key_index(t, k) matches Some(i) ==> 0 <= i < t.len() && t[i].0 == k,
        key_index(t, k) is None ==> forall|i: int| 0 <= i < t.len() ==> t[i].0 != k,
    decreases t.len(),
{
    if t.len() > 0 {
        lemma_key_index_valid(t.drop_last(), k);
        assert forall|i: int| 0 <= i < t.len() - 1 implies t[i] == t.drop_last()[i] by {}
    }
}

proof fn lemma_key_index_prefix(t: Seq<(Seq<char>, nat)>, k: Seq<char>, n: int)
    requires
        0 <= n <= t.len(),
        key_index(t.take(n), k) is Some,
    ensures
        key_index(t, k) == key_index(t.take(n), k),
    decreases t.len() - n,
{
    if n < t.len() {
        assert(t.take(n + 1).drop_last() =~= t.take(n));
        lemma_key_index_prefix(t, k, n + 1);
    } else {
        assert(t.take(n) =~= t);
    }
}

proof fn lemma_count_step(p: Seq<(Seq<char>, nat)>, x: (Seq<char>, nat), j: int)
    requires
        0 <= j < p.len(),
        p[j].1 < x.1,
    ensures
        insert_by_count(p.take(j + 1), x) + p.skip(j + 1) == insert_by_count(p.take(j), x) + p.skip(
            j,
        ),
{
    assert(p.take(j + 1).drop_last() =~= p.take(j));
    assert(insert_by_count(p.take(j), x).push(p[j]) + p.skip(j + 1) =~= insert_by_count(
        p.take(j),
        x,
    ) + p.skip(j));
}

proof fn lemma_count_insert_len(s: Seq<(Seq<char>, nat)>, x: (Seq<char>, nat))
    ensures
        insert_by_count(s, x).len() == s.len() + 1,
    decreases s.len(),
{
    if s.len() > 0 {
        lemma_count_insert_len(s.drop_last(), x);
    }
}

proof fn lemma_by_count_len(s: Seq<(Seq<char>, nat)>)
    ensures
        by_count(s).len() == s.len(),
    decreases s.len(),
{
    if s.len() > 0 {
        lemma_by_count_len(s.drop_last());
        lemma_count_insert_len(by_count(s.drop_last()), s.last());
    }
}

/// Orders counts most frequent first, stably.
fn sort_by_count(v: &mut Vec<(String, usize)>)
    ensures
        pair_views(final(v)@) == by_count(pair_views(old(v)@)),
{
    let ghost orig = pair_views(v@);
    let n = v.len();
    if n == 0 {
        assert(orig =~= Seq::<(Seq<char>, nat)>::empty());
        return;
    }
    assert(by_count(orig.take(1).drop_last()) =~= Seq::<(Seq<char>, nat)>::empty());
    assert(by_count(orig.take(1)) =~= orig.take(1));
    assert(pair_views(v@) =~= orig.take(1) + orig.skip(1));
    let mut i: usize = 1;
    while i < n
        invariant
            1 <= i <= n == v@.len() == orig.len(),
            pair_views(v@) == by_count(orig.take(i as int)) + orig.skip(i as int),
        decreases n - i,
    {
        let ghost p = by_count(orig.take(i as int));
        let ghost x = orig[i as int];
        assert(orig.take(i + 1).drop_last() =~= orig.take(i as int));
        assert(p.len() == i) by {
            lemma_by_count_len(orig.take(i as int));
        }
        let mut j: usize = i;
        assert(pair_views(v@) =~= p.take(j as int) + seq![x] + p.skip(j as int) + orig.skip(i + 1));
        assert(insert_by_count(p, x) + p.skip(i as int) =~= insert_by_count(p.take(i as int), x)
            + p.skip(i as int)) by {
            assert(p.take(i as int) =~= p);
        }
        while j > 0 && v[j - 1].1 < v[j].1
            invariant
                0 <= j <= i < n == v@.len() == orig.len(),
                p.len() == i,
                pair_views(v@) == p.take(j as int) + seq![x] + p.skip(j as int) + orig.skip(i + 1),
                insert_by_count(p, x) + p.skip(i as int) == insert_by_count(p.take(j as int), x)
                    + p.skip(j as int),
            decreases j,
        {
            assert(pair_views(v@)[j - 1] == p[j - 1]);
            assert(pair_views(v@)[j as int] == x);
            proof {
                lemma_count_step(p, x, j - 1);
            }
            let ghost before = pair_views(v@);
            v.swap(j - 1, j);
            assert(pair_views(v@) =~= before.update(j - 1, before[j as int]).update(
                j as int,
                before[j - 1],
            ));
            j = j - 1;
            assert(pair_views(v@) =~= p.take(j as int) + seq![x] + p.skip(j as int) + orig.skip(
                i + 1,
            ));
        }
        assert(insert_by_count(p.take(j as int), x) =~= p.take(j as int).push(x)) by {
            if j > 0 {
                assert(pair_views(v@)[j - 1] == p[j - 1]);
                assert(pair_views(v@)[j as int] == x);
            }
        }
        assert(pair_views(v@) =~= insert_by_count(p, x) + orig.skip(i + 1));
        i = i + 1;
    }
    assert(orig.take(n as int) =~= orig);
    assert(pair_views(v@) =~= by_count(orig));
}

/// Builds the summary of a list of items: the total, counts by kind and by
/// author (unknown authors counted as `unknown`), most frequent first, and
/// the largest and smallest known ages.
pub fn build_summary(items: &[DebtItem]) -> (res: ScanSummary)
    ensures
        res.total == items@.len(),
        pair_views(res.by_type@) == by_count(tally(type_keys(items@))),
        pair_views(res.by_author@) == by_count(tally(author_keys(items@))),
        res.oldest_days == oldest(items@),
        res.newest_days == newest(items@),
{
    let mut type_names: Vec<String> = Vec::new();
    let mut author_names: Vec<String> = Vec::new();
    let mut old_d: Option<i64> = None;
    let mut new_d: Option<i64> = None;
    let mut i: usize = 0;
    while i < items.len()
        invariant
            i <= items@.len(),
            views(type_names@) == type_keys(items@).take(i as int),
            views(author_names@) == author_keys(items@).take(i as int),
            old_d == oldest(items@.take(i as int)),
            new_d == newest(items@.take(i as int)),
        decreases items@.len() - i,
    {
        let it = &items[i];
        assert(items@.take(i + 1).drop_last() =~= items@.take(i as int));
        let t = string_from(it.comment_type.label());
        proof {
            lemma_views_push(type_names@, t);
        }
        type_names.push(t);
        let a = match &it.author {
            Some(a) => a.clone(),
            None => string_from("unknown"),
        };
        proof {
            lemma_views_push(author_names@, a);
        }
        author_names.push(a);
        match it.days_ago {
            Some(d) => {
                old_d = match old_d {
                    Some(o) => Some(if o >= d {
                        o
                    } else {
                        d
                    }),
                    None => Some(d),
                };
                new_d = match new_d {
                    Some(o) => Some(if o <= d {
                        o
                    } else {
                        d
                    }),
                    None => Some(d),
                };
            },
            None => {},
        }
        i = i + 1;
        assert(views(type_names@) =~= type_keys(items@).take(i as int));
        assert(views(author_names@) =~= author_keys(items@).take(i as int));
    }
    assert(items@.take(i as int) =~= items@);
    assert(type_keys(items@).take(i as int) =~= type_keys(items@));
    assert(author_keys(items@).take(i as int) =~= author_keys(items@));
    let mut by_type = tally_exec(&type_names);
    sort_by_count(&mut by_type);
    let mut by_author = tally_exec(&author_names);
    sort_by_count(&mut by_author);
    ScanSummary {
        total: items.len(),
        by_type,
        by_author,
        oldest_days: old_d,
        newest_days: new_d,
    }
}

/// The lines of the summary report.
pub open spec fn summary_lines(s: ScanSummary) -> Seq<Seq<char>> {
    let head = seq!["Code Debt Summary: "@ + decimal(s.total as nat) + " total items"@, Seq::empty()];
    let types = if s.by_type@.len() > 0 {
        seq!["By Type:"@] + Seq::new(
            s.by_type@.len(),
            |i: int| "  "@ + pad_right(s.by_type@[i].0@, 8) + " "@ + decimal(s.by_type@[i].1 as nat),
        ) + seq![Seq::empty()]
    } else {
        Seq::empty()
    };
    let authors = if s.by_author@.len() > 0 {
        seq!["By Author:"@] + Seq::new(
            s.by_author@.len(),
            |i: int|
                "  "@ + pad_right(s.by_author@[i].0@, 20) + " "@ + decimal(
                    s.by_author@[i].1 as nat,
                ),
        ) + seq![Seq::empty()]
    } else {
        Seq::empty()
    };
    let range = match (s.oldest_days, s.newest_days) {
        (Some(o), Some(n)) => seq![
            "Age range: "@ + signed_decimal(n as int) + "d - "@ + signed_decimal(o as int) + "d"@,
        ],
        _ => Seq::empty(),
    };
    head + types + authors + range
}

fn count_line(name: &String, count: usize, width: usize) -> (res: String)
    ensures
        res@ == "  "@ + pad_right(name@, width as nat) + " "@ + decimal(count as nat),
{
    let mut s = String::new();
    push_str(&mut s, "  ");
    let cs = chars_of(name.as_str());
    push_padded(&mut s, cs.as_slice(), width);
    push_str(&mut s, " ");
    push_decimal(&mut s, count as u64);
    assert(s@ =~= "  "@ + pad_right(name@, width as nat) + " "@ + decimal(count as nat));
    s
}

/// The lines for one list of counts: its title, one line per entry, a blank.
fn push_count_section(
    lines: &mut Vec<String>,
    title: &str,
    counts: &Vec<(String, usize)>,
    width: usize,
)
    requires
        counts@.len() > 0,
    ensures
        views(final(lines)@) == views(old(lines)@) + (seq![title@] + Seq::new(
            counts@.len(),
            |i: int| "  "@ + pad_right(counts@[i].0@, width as nat) + " "@ + decimal(
                counts@[i].1 as nat,
            ),
        ) + seq![Seq::<char>::empty()]),
{
    let ghost start = views(lines@);
    let t = string_from(title);
    proof {
        lemma_views_push(lines@, t);
    }
    lines.push(t);
    let mut i: usize = 0;
    while i < counts.len()
        invariant
            i <= counts@.len(),
            views(lines@) == start + seq![title@] + Seq::new(
                i as nat,
                |k: int| "  "@ + pad_right(counts@[k].0@, width as nat) + " "@ + decimal(
                    counts@[k].1 as nat,
                ),
            ),
        decreases counts@.len() - i,
    {
        let l = count_line(&counts[i].0, counts[i].1, width);
        proof {
            lemma_views_push(lines@, l);
        }
        lines.push(l);
        i = i + 1;
        assert(views(lines@) =~= start + seq![title@] + Seq::new(
            i as nat,
            |k: int| "  "@ + pad_right(counts@[k].0@, width as nat) + " "@ + decimal(
                counts@[k].1 as nat,
            ),
        ));
    }
    let e = String::new();
    proof {
        lemma_views_push(lines@, e);
    }
    lines.push(e);
    assert(views(lines@) =~= start + (seq![title@] + Seq::new(
        counts@.len(),
        |i: int| "  "@ + pad_right(counts@[i].0@, width as nat) + " "@ + decimal(
            counts@[i].1 as nat,
        ),
    ) + seq![Seq::<char>::empty()]));
}

/// Formats a summary for the terminal: the total, the counts by kind and by
/// author when there are any, and the range of ages when one is known.
pub fn format_summary(summary: &ScanSummary) -> (res: String)
    ensures
        res@ == join_lines(summary_lines(*summary)),
{
    let mut lines: Vec<String> = Vec::new();
    let mut head = String::new();
    push_str(&mut head, "Code Debt Summary: ");
    push_decimal(&mut head, summary.total as u64);
    push_str(&mut head, " total items");
    lines.push(head);
    lines.push(String::new());
    assert(views(lines@) =~= seq![
        "Code Debt Summary: "@ + decimal(summary.total as nat) + " total items"@,
        Seq::<char>::empty(),
    ]);
    if summary.by_type.len() > 0 {
        push_count_section(&mut lines, "By Type:", &summary.by_type, 8);
    }
    if summary.by_author.len() > 0 {
        push_count_section(&mut lines, "By Author:", &summary.by_author, 20);
    }
    match (summary.oldest_days, summary.newest_days) {
        (Some(o), Some(n)) => {
            let mut r = String::new();
            push_str(&mut r, "Age range: ");
            push_signed(&mut r, n);
            push_str(&mut r, "d - ");
            push_signed(&mut r, o);
            push_str(&mut r, "d");
            proof {
                lemma_views_push(lines@, r);
            }
            lines.push(r);
        },
        _ => {},
    }
    assert(views(lines@) =~= summary_lines(*summary));
    join_with_newlines(&lines)
}

// ---------------------------------------------------------------------------
// Laws of the summary
// ---------------------------------------------------------------------------

/// The sum of the counts.
pub open spec fn total_count(t: Seq<(Seq<char>, nat)>) -> nat
    decreases t.len(),
{
    if t.len() == 0 {
        0
    } else {
        total_count(t.drop_last()) + t.last().1
    }
}

pub open spec fn is_by_count(t: Seq<(Seq<char>, nat)>) -> bool {
    forall|i: int, j: int| 0 <= i < j < t.len() ==> t[i].1 >= t[j].1
}

proof fn lemma_total_update(t: Seq<(Seq<char>, nat)>, i: int, v: (Seq<char>, nat))
    requires
        0 <= i < t.len(),
    ensures
        total_count(t.update(i, v)) + t[i].1 == total_count(t) + v.1,
    decreases t.len(),
{
    if i < t.len() - 1 {
        lemma_total_update(t.drop_last(), i, v);
        assert(t.update(i, v).drop_last() =~= t.drop_last().update(i, v));
    } else {
        assert(t.update(i, v).drop_last() =~= t.drop_last());
    }
}

proof fn lemma_tally_total(keys: Seq<Seq<char>>)
    ensures
        total_count(tally(keys)) == keys.len(),
    decreases keys.len(),
{
    if keys.len() > 0 {
        let t = tally(keys.drop_last());
        lemma_tally_total(keys.drop_last());
        lemma_key_index_valid(t, keys.last());
        match key_index(t, keys.last()) {
            Some(i) => {
                lemma_total_update(t, i, (keys.last(), t[i].1 + 1));
            },
            None => {
                assert(t.push((keys.last(), 1nat)).drop_last() =~= t);
            },
        }
    }
}

proof fn lemma_insert_count_laws(s: Seq<(Seq<char>, nat)>, x: (Seq<char>, nat))
    requires
        is_by_count(s),
    ensures
        total_count(insert_by_count(s, x)) == total_count(s) + x.1,
        is_by_count(insert_by_count(s, x)),
        forall|i: int|
            0 <= i < insert_by_count(s, x).len() ==> (#[trigger] insert_by_count(s, x)[i].1 == x.1
                || exists|k: int| 0 <= k < s.len() && s[k].1 == insert_by_count(s, x)[i].1),
    decreases s.len(),
{
    if s.len() == 0 {
        assert(seq![x].drop_last() =~= Seq::<(Seq<char>, nat)>::empty());
        assert(total_count(Seq::<(Seq<char>, nat)>::empty()) == 0);
        assert(seq![x].last() == x);
        assert(total_count(seq![x]) == x.1);
    } else if s.last().1 >= x.1 {
        assert(s.push(x).drop_last() =~= s);
        assert forall|i: int| 0 <= i < s.push(x).len() implies (#[trigger] s.push(x)[i].1 == x.1
            || exists|k: int| 0 <= k < s.len() && s[k].1 == s.push(x)[i].1) by {
            if i < s.len() {
                assert(s.push(x)[i] == s[i]);
            }
        }
    } else {
        let p = s.drop_last();
        let y = s.last();
        assert(is_by_count(p));
        lemma_insert_count_laws(p, x);
        let q = insert_by_count(p, x);
        lemma_count_insert_len(p, x);
        assert(q.push(y).drop_last() =~= q);
        assert(total_count(q.push(y)) == total_count(q) + y.1);
        assert(total_count(s) == total_count(p) + y.1);
        assert forall|i: int| 0 <= i < q.len() implies #[trigger] q[i].1 >= y.1 by {
            if q[i].1 != x.1 {
                let k = choose|k: int| 0 <= k < p.len() && p[k].1 == q[i].1;
                assert(s[k] == p[k]);
            }
        }
        assert(is_by_count(q.push(y)));
        assert forall|i: int| 0 <= i < q.push(y).len() implies (#[trigger] q.push(y)[i].1 == x.1
            || exists|k: int| 0 <= k < s.len() && s[k].1 == q.push(y)[i].1) by {
            if i < q.len() {
                if q[i].1 != x.1 {
                    let k = choose|k: int| 0 <= k < p.len() && p[k].1 == q[i].1;
                    assert(s[k] == p[k]);
                }
            } else {
                assert(s[s.len() - 1] == y);
            }
        }
    }
}

/// Ordering by count keeps the sum and puts larger counts first.
pub proof fn lemma_by_count_laws(s: Seq<(Seq<char>, nat)>)
    ensures
        total_count(by_count(s)) == total_count(s),
        is_by_count(by_count(s)),
        by_count(s).len() == s.len(),
    decreases s.len(),
{
    lemma_by_count_len(s);
    if s.len() > 0 {
        lemma_by_count_laws(s.drop_last());
        lemma_insert_count_laws(by_count(s.drop_last()), s.last());
    }
}

/// Tallied keys are distinct, every key is tallied, and each count is the
/// number of times its key occurs.
pub open spec fn occurrences(keys: Seq<Seq<char>>, k: Seq<char>) -> nat
    decreases keys.len(),
{
    if keys.len() == 0 {
        0
    } else {
        occurrences(keys.drop_last(), k) + if keys.last() == k {
            1nat
        } else {
            0nat
        }
    }
}

pub proof fn lemma_tally_counts(keys: Seq<Seq<char>>)
    ensures
        forall|i: int, j: int|
            0 <= i < j < tally(keys).len() ==> tally(keys)[i].0 != tally(keys)[j].0,
        forall|i: int|
            0 <= i < tally(keys).len() ==> #[trigger] tally(keys)[i].1 == occurrences(
                keys,
                tally(keys)[i].0,
            ),
        forall|k: Seq<char>|
            occurrences(keys, k) > 0 ==> (#[trigger] key_index(tally(keys), k)) is Some,
    decreases keys.len(),
{
    if keys.len() > 0 {
        let p = keys.drop_last();
        let x = keys.last();
        let t = tally(p);
        lemma_tally_counts(p);
        lemma_key_index_valid(t, x);
        let n = tally(keys);
        match key_index(t, x) {
            Some(ix) => {
                assert(n == t.update(ix, (x, t[ix].1 + 1)));
                assert forall|k: Seq<char>| occurrences(keys, k) > 0 implies (#[trigger] key_index(
                    n,
                    k,
                )) is Some by {
                    lemma_key_index_valid(n, k);
                    if k == x {
                        assert(n[ix].0 == k);
                    } else {
                        assert(occurrences(p, k) > 0);
                        lemma_key_index_valid(t, k);
                        let j = key_index(t, k)->0;
                        assert(n[j].0 == k);
                    }
                }
            },
            None => {
                assert(n == t.push((x, 1nat)));
                assert(occurrences(p, x) == 0) by {
                    if occurrences(p, x) > 0 {
                        assert(key_index(t, x) is Some);
                    }
                }
                assert forall|k: Seq<char>| occurrences(keys, k) > 0 implies (#[trigger] key_index(
                    n,
                    k,
                )) is Some by {
                    lemma_key_index_valid(n, k);
                    if k == x {
                        assert(n[t.len() as int].0 == k);
                    } else {
                        assert(occurrences(p, k) > 0);
                        lemma_key_index_valid(t, k);
                        let j = key_index(t, k)->0;
                        assert(n[j].0 == k);
                    }
                }
            },
        }
    }
}

/// The summary's counts by kind and by author each add up to the total and
/// come most frequent first, and its oldest age is at least its newest.
pub proof fn lemma_summary_laws(items: Seq<DebtItem>)
    ensures
        total_count(by_count(tally(type_keys(items)))) == items.len(),
        total_count(by_count(tally(author_keys(items)))) == items.len(),
        is_by_count(by_count(tally(type_keys(items)))),
        is_by_count(by_count(tally(author_keys(items)))),
        by_count(tally(type_keys(items))).to_multiset() == tally(type_keys(items)).to_multiset(),
        by_count(tally(author_keys(items))).to_multiset() == tally(
            author_keys(items),
        ).to_multiset(),
        oldest(items) is Some <==> newest(items) is Some,
        oldest(items) is Some <==> exists|i: int|
            0 <= i < items.len() && (#[trigger] items[i]).days_ago is Some,
        (oldest(items) is Some && newest(items) is Some) ==> newest(items)->0 <= oldest(items)->0,
        forall|i: int|
            0 <= i < items.len() && (#[trigger] items[i]).days_ago is Some ==> {
                &&& oldest(items)->0 >= items[i].days_ago->0
                &&& newest(items)->0 <= items[i].days_ago->0
            },
{
    lemma_tally_total(type_keys(items));
    lemma_tally_total(author_keys(items));
    lemma_by_count_laws(tally(type_keys(items)));
    lemma_by_count_laws(tally(author_keys(items)));
    lemma_by_count_permutation(tally(type_keys(items)));
    lemma_by_count_permutation(tally(author_keys(items)));
    lemma_age_bounds(items);
}

proof fn lemma_age_bounds(items: Seq<DebtItem>)
    ensures
        oldest(items) is Some <==> newest(items) is Some,
        oldest(items) is Some <==> exists|i: int|
            0 <= i < items.len() && (#[trigger] items[i]).days_ago is Some,
        (oldest(items) is Some && newest(items) is Some) ==> newest(items)->0 <= oldest(items)->0,
        forall|i: int|
            0 <= i < items.len() && (#[trigger] items[i]).days_ago is Some ==> {
                &&& oldest(items)->0 >= items[i].days_ago->0
                &&& newest(items)->0 <= items[i].days_ago->0
            },
    decreases items.len(),
{
    if items.len() > 0 {
        let p = items.drop_last();
        lemma_age_bounds(p);
        assert forall|i: int| 0 <= i < items.len() - 1 implies items[i] == p[i] by {}
        if exists|i: int| 0 <= i < p.len() && (#[trigger] p[i]).days_ago is Some {
            let i = choose|i: int| 0 <= i < p.len() && (#[trigger] p[i]).days_ago is Some;
            assert(items[i] == p[i]);
        }
        if exists|i: int| 0 <= i < items.len() && (#[trigger] items[i]).days_ago is Some {
            let i = choose|i: int| 0 <= i < items.len() && (#[trigger] items[i]).days_ago is Some;
            if i < items.len() - 1 {
                assert(p[i] == items[i]);
            }
        }
    }
}

proof fn lemma_insert_count_multiset(s: Seq<(Seq<char>, nat)>, x: (Seq<char>, nat))
    ensures
        insert_by_count(s, x).to_multiset() == s.to_multiset().insert(x),
    decreases s.len(),
{
    broadcast use vstd::seq_lib::group_to_multiset_ensures;

    if s.len() == 0 {
        assert(seq![x] =~= Seq::<(Seq<char>, nat)>::empty().push(x));
    } else if s.last().1 >= x.1 {
    } else {
        let p = s.drop_last();
        lemma_insert_count_multiset(p, x);
        assert(s =~= p.push(s.last()));
    }
}

/// Ordering by count keeps exactly the entries it is given: the result is a
/// permutation of its input.
pub proof fn lemma_by_count_permutation(s: Seq<(Seq<char>, nat)>)
    ensures
        by_count(s).to_multiset() == s.to_multiset(),
    decreases s.len(),
{
    broadcast use vstd::seq_lib::group_to_multiset_ensures;

    if s.len() > 0 {
        lemma_by_count_permutation(s.drop_last());
        lemma_insert_count_multiset(by_count(s.drop_last()), s.last());
        assert(s =~= s.drop_last().push(s.last()));
    }
}

// ---------------------------------------------------------------------------
// Laws of the rows
// ---------------------------------------------------------------------------

/// The Markdown row of an item: kind, file, line, author, age and text
/// between bars; its age column shows the age in days read back exactly,
/// followed by `d`, and shows `?` exactly when the age is unknown; its line
/// column reads back as the item's line.
pub proof fn lemma_markdown_row(it: DebtItem)
    ensures
        md_row(it) == "| "@ + label_of(it.comment_type) + " | "@ + it.file@ + " | "@ + decimal(
            it.line as nat,
        ) + " | "@ + author_or_unknown(it) + " | "@ + md_age(it) + " | "@ + it.text@ + " |"@,
        crate::text::parse_usize_spec(decimal(it.line as nat)) == Some(it.line),
        it.days_ago matches Some(d) ==> md_age(it).len() > 1 && md_age(it).last() == 'd'
            && crate::text::parse_i64_spec(md_age(it).drop_last()) == Some(d),
        (md_age(it) == "?"@) <==> it.days_ago is None,
{
    reveal_strlit("d");
    reveal_strlit("?");
    crate::text::lemma_decimal_parses(it.line);
    match it.days_ago {
        Some(d) => {
            crate::text::lemma_signed_decimal_parses(d);
            crate::text::lemma_decimal_digits(if d < 0 {
                (0 - d) as nat
            } else {
                d as nat
            });
            let sd = signed_decimal(d as int);
            assert(sd.len() > 0);
            assert((sd + "d"@).drop_last() =~= sd);
            assert((sd + "d"@).len() != "?"@.len() || (sd + "d"@).last() != "?"@.last());
        },
        None => {},
    }
}

/// The table's age column: for a known age, the age in days read back
/// exactly, followed by `d ago`; `unknown` otherwise.
pub proof fn lemma_table_age(it: DebtItem)
    ensures
        it.days_ago matches Some(d) ==> {
            &&& table_age(it).len() > 5
            &&& table_age(it).skip(table_age(it).len() - 5) == "d ago"@
            &&& crate::text::parse_i64_spec(table_age(it).take(table_age(it).len() - 5)) == Some(d)
        },
        it.days_ago is None ==> table_age(it) == "unknown"@,
{
    reveal_strlit("d ago");
    match it.days_ago {
        Some(d) => {
            crate::text::lemma_signed_decimal_parses(d);
            let sd = signed_decimal(d as int);
            let t = sd + "d ago"@;
            assert(t.take(t.len() - 5) =~= sd);
            assert(t.skip(t.len() - 5) =~= "d ago"@);
        },
        None => {},
    }
}

/// The file column of a table row: the row starts with the kind padded to
/// 6 characters and a space, then the file padded to 40 characters; a file
/// path of at most 38 characters is shown whole, a longer one as `…`
/// followed by its last 37 characters, so that the file name at its end
/// stays visible.
pub proof fn lemma_table_file_column(it: DebtItem)
    ensures
        ({
            let f = it.file@;
            let shown = if f.len() <= 38 {
                f
            } else {
                seq!['\u{2026}'] + f.subrange(f.len() - 37, f.len() as int)
            };
            &&& table_row(it).take(47) == pad_right(label_of(it.comment_type), 6) + seq![' ']
                + pad_right(shown, 40)
            &&& shown.len() <= 38
            &&& f.len() > 0 ==> shown.last() == f.last()
        }),
{
    reveal_strlit("TODO");
    reveal_strlit("FIXME");
    reveal_strlit("HACK");
    reveal_strlit("BUG");
    reveal_strlit("XXX");
    let f = it.file@;
    let shown = if f.len() <= 38 {
        f
    } else {
        seq!['\u{2026}'] + f.subrange(f.len() - 37, f.len() as int)
    };
    assert(truncated_end(f, 38) =~= shown);
    let head = pad_right(label_of(it.comment_type), 6) + sp() + pad_right(shown, 40);
    assert(label_of(it.comment_type).len() <= 6);
    assert(pad_right(label_of(it.comment_type), 6).len() == 6);
    assert(pad_right(shown, 40).len() == 40);
    assert(head.len() == 47);
    let r = table_row(it);
    assert(r == head + (sp() + pad_right(decimal(it.line as nat), 6) + sp() + pad_right(
        truncated(author_or_unknown(it), 18),
        20,
    ) + sp() + pad_right(table_age(it), 12) + sp() + truncated(it.text@, 50)));
    assert(r.take(47) =~= head);
}

} // verus!
