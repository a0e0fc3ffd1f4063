//! The command line's options and the decisions taken from them: which
//! filters apply, which report is printed, and when the CI gate fails.
use vstd::prelude::*;

use crate::filter::Filters;
use crate::text::{push_decimal, push_signed, push_str, signed_decimal, decimal, views};
use crate::types::{kind_of, CommentType, DebtItem};

verus! {

/// The options of a run.
#[derive(Debug, Clone)]
pub struct Cli {
    /// Directory to scan.
    pub path: String,
    /// Comment kinds to keep, by name (`todo`, `fixme`, ...).
    pub types: Option<Vec<String>>,
    /// Author to keep (case-insensitive substring).
    pub author: Option<String>,
    /// Keep only items strictly older than this many days.
    pub older_than: Option<i64>,
    /// Print JSON.
    pub json: bool,
    /// Print Markdown.
    pub md: bool,
    /// Print the summary only.
    pub summary: bool,
    /// Fail when an item is at least this many days old.
    pub fail_on: Option<i64>,
    /// Do not run git blame.
    pub no_blame: bool,
    /// Report progress on stderr.
    pub verbose: bool,
    /// Print nothing when the CI gate is set.
    pub quiet: bool,
}

/// The kinds named in a list; names that are no kind are left out.
pub open spec fn kinds_named(names: Seq<Seq<char>>) -> Seq<CommentType>
    decreases names.len(),
{
    if names.len() == 0 {
        Seq::empty()
    } else {
        match kind_of(names.last()) {
            Some(t) => kinds_named(names.drop_last()).push(t),
            None => kinds_named(names.drop_last()),
        }
    }
}

/// The kinds named in a list, in order; unknown names are left out.
pub fn parse_type_filter(names: &Vec<String>) -> (res: Vec<CommentType>)
    ensures
        res@ == kinds_named(views(names@)),
{
    let mut out: Vec<CommentType> = Vec::new();
    let mut i: usize = 0;
    while i < names.len()
        invariant
            i <= names@.len(),
            out@ == kinds_named(views(names@).take(i as int)),
        decreases names@.len() - i,
    {
        assert(views(names@).take(i + 1).drop_last() =~= views(names@).take(i as int));
        match CommentType::from_str(names[i].as_str()) {
            Some(t) => out.push(t),
            None => {},
        }
        i = i + 1;
    }
    assert(views(names@).take(i as int) =~= views(names@));
    out
}

/// The filters that the options ask for.
pub fn filters_from_cli(cli: &Cli) -> (res: Filters)
    ensures
        match cli.types {
            Some(names) => res.types matches Some(ts) && ts@ == kinds_named(views(names@)),
            None => res.types is None,
        },
        match cli.author {
            Some(a) => res.author matches Some(b) && b@ == a@,
            None => res.author is None,
        },
        res.older_than == cli.older_than,
{
    let types = match &cli.types {
        Some(names) => Some(parse_type_filter(names)),
        None => None,
    };
    let author = match &cli.author {
        Some(a) => Some(a.clone()),
        None => None,
    };
    Filters { types, author, older_than: cli.older_than }
}

/// An item reaches the `--fail-on` threshold when its age is known and at least
/// `max_days`.
pub open spec fn too_old(it: DebtItem, max_days: i64) -> bool {
    it.days_ago matches Some(d) && d >= max_days
}

/// How many items reach the `--fail-on` threshold.
pub open spec fn count_too_old(items: Seq<DebtItem>, max_days: i64) -> nat
    decreases items.len(),
{
    if items.len() == 0 {
        0
    } else {
        count_too_old(items.drop_last(), max_days) + if too_old(items.last(), max_days) {
            1nat
        } else {
            0nat
        }
    }
}

/// A failed CI gate: the threshold and how many items reach it.
#[derive(Debug, Clone, Copy, PartialEq, Eq, Structural)]
pub struct GateFailure {
    pub max_days: i64,
    pub count: usize,
}

proof fn lemma_count_too_old(items: Seq<DebtItem>, m: i64)
    ensures
        count_too_old(items, m) <= items.len(),
        count_too_old(items, m) > 0 <==> exists|i: int|
            0 <= i < items.len() && too_old(#[trigger] items[i], m),
    decreases items.len(),
{
    if items.len() > 0 {
        let p = items.drop_last();
        lemma_count_too_old(p, m);
        if count_too_old(p, m) > 0 {
            let i = choose|i: int| 0 <= i < p.len() && too_old(#[trigger] p[i], m);
            assert(items[i] == p[i]);
        }
        if exists|i: int| 0 <= i < items.len() && too_old(#[trigger] items[i], m) {
            let i = choose|i: int| 0 <= i < items.len() && too_old(#[trigger] items[i], m);
            if i < items.len() - 1 {
                assert(p[i] == items[i]);
            }
        }
    }
}

/// The CI gate: with a threshold set, it fails when some item's age is
/// known and at least the threshold, and reports how many such items there
/// are.
pub fn check_fail_on(items: &[DebtItem], fail_on: Option<i64>) -> (res: Option<GateFailure>)
    ensures
        match fail_on {
            None => res is None,
            Some(m) => match res {
                Some(g) => g.max_days == m && g.count == count_too_old(items@, m) && g.count > 0,
                None => count_too_old(items@, m) == 0,
            },
        },
        res is Some <==> (fail_on matches Some(m) && exists|i: int|
            0 <= i < items@.len() && too_old(#[trigger] items@[i], m)),
{
    let m = match fail_on {
        Some(m) => m,
        None => {
            return None;
        },
    };
    let mut count: usize = 0;
    let mut i: usize = 0;
    while i < items.len()
        invariant
            i <= items@.len(),
            count == count_too_old(items@.take(i as int), m),
            count <= i,
        decreases items@.len() - i,
    {
        assert(items@.take(i + 1).drop_last() =~= items@.take(i as int));
        match items[i].days_ago {
            Some(d) => {
                if d >= m {
                    count = count + 1;
                }
            },
            None => {},
        }
        i = i + 1;
    }
    assert(items@.take(i as int) =~= items@);
    proof {
        lemma_count_too_old(items@, m);
    }
    if count > 0 {
        Some(GateFailure { max_days: m, count })
    } else {
        None
    }
}

/// The message of a failed gate.
pub open spec fn gate_message_text(g: GateFailure) -> Seq<char> {
    "CI gate: "@ + decimal(g.count as nat) + " item(s) aged "@ + signed_decimal(g.max_days as int)
        + " days or more"@
}

/// `CI gate: <count> item(s) aged <max_days> days or more`.
pub fn gate_message(g: &GateFailure) -> (res: String)
    ensures
        res@ == gate_message_text(*g),
{
    let mut s = String::new();
    push_str(&mut s, "CI gate: ");
    push_decimal(&mut s, g.count as u64);
    push_str(&mut s, " item(s) aged ");
    push_signed(&mut s, g.max_days);
    push_str(&mut s, " days or more");
    assert(s@ =~= gate_message_text(*g));
    s
}

/// What goes to stderr about the threshold: the message when it was
/// reached and `--quiet` is off; nothing otherwise.
pub fn gate_notice(gate: &Option<GateFailure>, quiet: bool) -> (res: Option<String>)
    ensures
        match gate {
            Some(g) => if quiet {
                res is None
            } else {
                res matches Some(m) && m@ == gate_message_text(*g)
            },
            None => res is None,
        },
{
    match gate {
        Some(g) => {
            if quiet {
                None
            } else {
                Some(gate_message(g))
            }
        },
        None => None,
    }
}

/// Whether to run git blame: unless `--no-blame` is given, and only inside a
/// git repository.
pub fn should_blame(cli: &Cli, in_git_repo: bool) -> (res: bool)
    ensures
        res == (!cli.no_blame && in_git_repo),
{
    !cli.no_blame && in_git_repo
}

/// The report to print.
#[derive(Debug, Clone, Copy, PartialEq, Eq, Structural)]
pub enum OutputFormat {
    SummaryJson,
    Summary,
    Json,
    Markdown,
    Table,
}

/// Which report the options ask for: none when `--quiet` is given with a
/// gate; else the summary (as JSON with `--json`), JSON, Markdown, or the
/// table, in that order of precedence.
pub fn output_format(cli: &Cli) -> (res: Option<OutputFormat>)
    ensures
        (cli.quiet && cli.fail_on is Some) ==> res is None,
        !(cli.quiet && cli.fail_on is Some) ==> res == Some(
            if cli.summary {
                if cli.json {
                    OutputFormat::SummaryJson
                } else {
                    OutputFormat::Summary
                }
            } else if cli.json {
                OutputFormat::Json
            } else if cli.md {
                OutputFormat::Markdown
            } else {
                OutputFormat::Table
            },
        ),
{
    if cli.quiet && cli.fail_on.is_some() {
        return None;
    }
    if cli.summary {
        if cli.json {
            Some(OutputFormat::SummaryJson)
        } else {
            Some(OutputFormat::Summary)
        }
    } else if cli.json {
        Some(OutputFormat::Json)
    } else if cli.md {
        Some(OutputFormat::Markdown)
    } else {
        Some(OutputFormat::Table)
    }
}

} // verus!
