use std::collections::HashMap;

use chrono::{Datelike, NaiveDate};
use gundi::cli::parse_type_filter;
use gundi::output::{
    build_summary, format_summary, format_table, format_table_colored, truncate_chars,
    truncate_chars_end,
};
use gundi::text::{
    contains_str, parse_i64, parse_usize, push_decimal, push_padded, push_signed, split_lines,
    split_words, trim_chars,
};
use gundi::{
    apply_blame, apply_filters, blame_files, check_fail_on, filters_from_cli, gate_message,
    gate_notice, output_format, parse_porcelain_blame, should_blame, scan_content, sort_oldest_first, BlameInfo, Cli,
    CommentType, Date, DebtItem, DebtPattern, Filters, GateFailure, OutputFormat,
};

fn day(y: i32, m: u32, d: u32) -> Date {
    Date {
        days_from_ce: NaiveDate::from_ymd_opt(y, m, d).unwrap().num_days_from_ce(),
    }
}

fn item(file: &str, line: usize, t: CommentType, author: Option<&str>, days: Option<i64>) -> DebtItem {
    DebtItem {
        file: file.to_string(),
        line,
        comment_type: t,
        text: "x".to_string(),
        author: author.map(String::from),
        date: None,
        days_ago: days,
    }
}

fn cli() -> Cli {
    Cli {
        path: ".".to_string(),
        types: None,
        author: None,
        older_than: None,
        json: false,
        md: false,
        summary: false,
        fail_on: None,
        no_blame: false,
        verbose: false,
        quiet: false,
    }
}

fn chars(s: &str) -> Vec<char> {
    s.chars().collect()
}

// ----- comment kinds -----

#[test]
fn kind_from_any_case() {
    assert_eq!(CommentType::from_str("todo"), Some(CommentType::Todo));
    assert_eq!(CommentType::from_str("FixMe"), Some(CommentType::Fixme));
    assert_eq!(CommentType::from_str("hack"), Some(CommentType::Hack));
    assert_eq!(CommentType::from_str("bug"), Some(CommentType::Bug));
    assert_eq!(CommentType::from_str("xXx"), Some(CommentType::Xxx));
    assert_eq!(CommentType::from_str("note"), None);
    assert_eq!(CommentType::from_str(""), None);
}

#[test]
fn kind_label_round_trip() {
    for t in CommentType::all() {
        assert_eq!(CommentType::from_str(t.label()), Some(t));
    }
    assert_eq!(CommentType::all().len(), 5);
}

#[test]
fn kind_from_upper_is_exact() {
    assert_eq!(CommentType::from_upper("TODO"), Some(CommentType::Todo));
    assert_eq!(CommentType::from_upper("todo"), None);
}

// ----- scanning -----

#[test]
fn scan_content_finds_kinds_and_lines() {
    let p = DebtPattern::new().unwrap();
    let hits = scan_content("// TODO: fix this later\nlet x = 1;\n// FIXME: broken\n", "a.rs", &p);
    assert_eq!(hits.len(), 2);
    assert_eq!(hits[0].comment_type, CommentType::Todo);
    assert_eq!(hits[0].line, 1);
    assert_eq!(hits[0].text, "fix this later");
    assert_eq!(hits[0].file, "a.rs");
    assert_eq!(hits[1].comment_type, CommentType::Fixme);
    assert_eq!(hits[1].line, 3);
    assert_eq!(hits[1].text, "broken");
}

#[test]
fn scan_content_all_kinds() {
    let p = DebtPattern::new().unwrap();
    let hits = scan_content("# TODO: one\n# FIXME: two\n# HACK: three\n# BUG: four\n# XXX: five\n", "t.py", &p);
    assert_eq!(hits.len(), 5);
}

#[test]
fn scan_content_lower_case_and_no_colon() {
    let p = DebtPattern::new().unwrap();
    let hits = scan_content("  // todo   tidy up  \r\n", "a.rs", &p);
    assert_eq!(hits.len(), 1);
    assert_eq!(hits[0].comment_type, CommentType::Todo);
    assert_eq!(hits[0].text, "tidy up");
}

#[test]
fn scan_content_needs_whole_word() {
    let p = DebtPattern::new().unwrap();
    let hits = scan_content("let todolist = 1;\nDEBUGGING\n", "a.rs", &p);
    assert!(hits.is_empty());
}

#[test]
fn scan_content_clean_and_empty() {
    let p = DebtPattern::new().unwrap();
    assert!(scan_content("fn main() {\n    println!(\"hello\");\n}\n", "c.rs", &p).is_empty());
    assert!(scan_content("", "c.rs", &p).is_empty());
}

#[test]
fn scan_content_unicode_text() {
    let p = DebtPattern::new().unwrap();
    let hits = scan_content("// TODO: 修复这个问题 — handle 한국어 input αβγ 🦀\n", "u.rs", &p);
    assert_eq!(hits.len(), 1);
    assert!(hits[0].text.contains("修复"));
    assert!(hits[0].text.contains("🦀"));
}

// ----- blame parsing -----

#[test]
fn parse_blame_crlf_and_two_commits() {
    let output = "aaaaaaaaaaaaaaaaaaaaaaaaaaaaaaaaaaaaaaaa 3 5 1\r\nauthor Bob\r\nauthor-time 86400\r\n\tline\r\nbbbbbbbbbbbbbbbbbbbbbbbbbbbbbbbbbbbbbbbb 1 7 1\nauthor Carol Ann\nauthor-time 0\n\tx\n";
    let r = parse_porcelain_blame(output).unwrap();
    assert_eq!(r.len(), 2);
    assert_eq!(r.get(&5).unwrap().author, "Bob");
    assert_eq!(r.get(&5).unwrap().date, day(1970, 1, 2));
    assert_eq!(r.get(&7).unwrap().author, "Carol Ann");
    assert_eq!(r.get(&7).unwrap().date, day(1970, 1, 1));
}

#[test]
fn parse_blame_negative_time_and_bad_line() {
    let output = "cccccccccccccccccccccccccccccccccccccccc 1 x 1\nauthor Dan\nauthor-time -1\ndddddddddddddddddddddddddddddddddddddddd 1 2 1\nauthor Eve\nauthor-time -86401\n";
    let r = parse_porcelain_blame(output).unwrap();
    assert_eq!(r.len(), 1);
    assert!(r.get(&1).is_none());
    assert_eq!(r.get(&2).unwrap().author, "Eve");
    assert_eq!(r.get(&2).unwrap().date, day(1969, 12, 30));
}

#[test]
fn parse_blame_missing_time_records_nothing() {
    let output = "eeeeeeeeeeeeeeeeeeeeeeeeeeeeeeeeeeeeeeee 1 1 1\nauthor Fay\nauthor-time soon\n";
    let r = parse_porcelain_blame(output).unwrap();
    assert!(r.is_empty());
}

#[test]
fn parse_blame_out_of_range_time() {
    let output = "ffffffffffffffffffffffffffffffffffffffff 1 1 1\nauthor Gus\nauthor-time 9223372036854775807\n";
    let r = parse_porcelain_blame(output).unwrap();
    assert!(r.is_empty());
}

// ----- blame onto items -----

#[test]
fn blame_files_distinct_in_order() {
    let items = vec![
        item("b.rs", 1, CommentType::Todo, None, None),
        item("a.rs", 2, CommentType::Todo, None, None),
        item("b.rs", 3, CommentType::Bug, None, None),
    ];
    assert_eq!(blame_files(&items), vec!["b.rs".to_string(), "a.rs".to_string()]);
}

#[test]
fn apply_blame_sets_author_date_and_age() {
    let mut items = vec![
        item("a.rs", 1, CommentType::Todo, None, None),
        item("a.rs", 2, CommentType::Todo, None, None),
        item("b.rs", 1, CommentType::Todo, None, None),
    ];
    let mut blame = HashMap::new();
    blame.insert(1usize, BlameInfo { author: "Ann".to_string(), date: day(2024, 1, 1) });
    apply_blame(&mut items, "a.rs", &blame, day(2024, 1, 31));
    assert_eq!(items[0].author.as_deref(), Some("Ann"));
    assert_eq!(items[0].date, Some(day(2024, 1, 1)));
    assert_eq!(items[0].days_ago, Some(30));
    assert!(items[1].author.is_none());
    assert!(items[2].author.is_none());
}

// ----- filters -----

#[test]
fn filter_author_ignores_case() {
    let items = vec![
        item("a", 1, CommentType::Todo, Some("alice"), Some(1)),
        item("a", 2, CommentType::Todo, None, Some(1)),
    ];
    let f = Filters { author: Some("ALICE".to_string()), ..Default::default() };
    let r = apply_filters(items, &f);
    assert_eq!(r.len(), 1);
    assert_eq!(r[0].line, 1);
}

#[test]
fn filter_age_drops_unknown_age() {
    let items = vec![
        item("a", 1, CommentType::Todo, None, None),
        item("a", 2, CommentType::Todo, None, Some(31)),
        item("a", 3, CommentType::Todo, None, Some(30)),
    ];
    let f = Filters { older_than: Some(30), ..Default::default() };
    let r = apply_filters(items, &f);
    assert_eq!(r.len(), 1);
    assert_eq!(r[0].line, 2);
}

#[test]
fn filter_twice_is_filter_once() {
    let mk = || {
        vec![
            item("a", 1, CommentType::Todo, Some("x"), Some(40)),
            item("a", 2, CommentType::Bug, Some("y"), Some(10)),
            item("a", 3, CommentType::Todo, Some("xy"), Some(50)),
        ]
    };
    let f = Filters { types: Some(vec![CommentType::Todo]), author: Some("x".to_string()), older_than: Some(20) };
    let once = apply_filters(mk(), &f);
    let twice = apply_filters(apply_filters(mk(), &f), &f);
    let lines = |v: &Vec<DebtItem>| v.iter().map(|i| i.line).collect::<Vec<_>>();
    assert_eq!(lines(&once), vec![1, 3]);
    assert_eq!(lines(&once), lines(&twice));
}

#[test]
fn sort_is_stable_and_idempotent() {
    let mut items = vec![
        item("a", 1, CommentType::Todo, None, Some(5)),
        item("a", 2, CommentType::Todo, None, None),
        item("a", 3, CommentType::Todo, None, Some(5)),
        item("a", 4, CommentType::Todo, None, Some(-1)),
        item("a", 5, CommentType::Todo, None, Some(-3)),
        item("a", 6, CommentType::Todo, None, Some(9)),
    ];
    sort_oldest_first(&mut items);
    let lines: Vec<usize> = items.iter().map(|i| i.line).collect();
    assert_eq!(lines, vec![6, 1, 3, 4, 5, 2]);
    sort_oldest_first(&mut items);
    let again: Vec<usize> = items.iter().map(|i| i.line).collect();
    assert_eq!(again, lines);
}

// ----- reports -----

#[test]
fn table_exact_layout_for_young_item() {
    let it = DebtItem {
        file: "f.rs".to_string(),
        line: 7,
        comment_type: CommentType::Bug,
        text: "t".to_string(),
        author: None,
        date: None,
        days_ago: Some(3),
    };
    let out = format_table(&[it]);
    let lines: Vec<&str> = out.split('\n').collect();
    assert_eq!(lines.len(), 5);
    assert_eq!(lines[0], format!("{:<6} {:<40} {:<6} {:<20} {:<12} {}", "TYPE", "FILE", "LINE", "AUTHOR", "AGE", "TEXT"));
    assert_eq!(lines[1], "-".repeat(110));
    assert_eq!(lines[2], format!("{:<6} {:<40} {:<6} {:<20} {:<12} {}", "BUG", "f.rs", 7, "unknown", "3d ago", "t"));
    assert_eq!(lines[3], "");
    assert_eq!(lines[4], "Total: 1 items");
}

#[test]
fn table_old_rows_keep_their_text() {
    let mut a = item("old.rs", 1, CommentType::Todo, Some("Al"), Some(91));
    a.text = "ancient".to_string();
    let mut b = item("mid.rs", 2, CommentType::Hack, Some("Bo"), Some(31));
    b.text = "aging".to_string();
    let out = format_table(&[a, b]);
    assert!(out.contains("ancient"));
    assert!(out.contains("aging"));
    assert!(out.contains("91d ago"));
    assert!(out.ends_with("Total: 2 items"));
}

#[test]
fn table_colors_old_rows_when_asked() {
    let a = item("old.rs", 1, CommentType::Todo, Some("Al"), Some(91));
    let b = item("mid.rs", 2, CommentType::Hack, Some("Bo"), Some(31));
    let c = item("new.rs", 3, CommentType::Bug, Some("Cy"), Some(30));
    let row = |t: &str, f: &str, l: usize, a: &str, age: &str| {
        format!("{:<6} {:<40} {:<6} {:<20} {:<12} {}", t, f, l, a, age, "x")
    };
    let out = format_table_colored(&[a, b, c], true);
    let lines: Vec<&str> = out.split('\n').collect();
    assert_eq!(lines.len(), 7);
    assert_eq!(lines[2], format!("\x1b[31m{}\x1b[0m", row("TODO", "old.rs", 1, "Al", "91d ago")));
    assert_eq!(lines[3], format!("\x1b[33m{}\x1b[0m", row("HACK", "mid.rs", 2, "Bo", "31d ago")));
    assert_eq!(lines[4], row("BUG", "new.rs", 3, "Cy", "30d ago"));
    let plain = format_table_colored(&[item("old.rs", 1, CommentType::Todo, Some("Al"), Some(91))], false);
    assert_eq!(plain.split('\n').nth(2).unwrap(), row("TODO", "old.rs", 1, "Al", "91d ago"));
}

#[test]
fn table_color_reopened_after_inner_reset() {
    let mut a = item("o.rs", 1, CommentType::Todo, None, Some(100));
    a.text = "p\x1b[0mq".to_string();
    let out = format_table_colored(&[a], true);
    let row = out.split('\n').nth(2).unwrap().to_string();
    assert!(row.starts_with("\x1b[31m"));
    assert!(row.ends_with("p\x1b[0m\x1b[31mq\x1b[0m"));
}

#[test]
fn table_empty_exact() {
    assert_eq!(format_table(&[]), "No code debt found. Clean codebase!");
}

#[test]
fn truncation_edges() {
    assert_eq!(truncate_chars("abc", 0), "…");
    assert_eq!(truncate_chars("abc", 3), "abc");
    assert_eq!(truncate_chars("abcd", 3), "ab…");
    assert_eq!(truncate_chars_end("abcd", 3), "…cd");
    assert_eq!(truncate_chars_end("abcd", 1), "…");
    assert_eq!(truncate_chars_end("", 0), "");
}

#[test]
fn summary_counts_and_text() {
    let items = vec![
        item("a", 1, CommentType::Hack, Some("Al"), Some(4)),
        item("a", 2, CommentType::Todo, None, None),
        item("a", 3, CommentType::Todo, Some("Al"), Some(-2)),
    ];
    let s = build_summary(&items);
    assert_eq!(s.total, 3);
    assert_eq!(s.by_type, vec![("TODO".to_string(), 2), ("HACK".to_string(), 1)]);
    assert_eq!(s.by_author, vec![("Al".to_string(), 2), ("unknown".to_string(), 1)]);
    let sum: usize = s.by_type.iter().map(|p| p.1).sum();
    assert_eq!(sum, s.total);
    assert_eq!(s.oldest_days, Some(4));
    assert_eq!(s.newest_days, Some(-2));
    let text = format_summary(&s);
    let want = [
        "Code Debt Summary: 3 total items".to_string(),
        String::new(),
        "By Type:".to_string(),
        format!("  {:<8} {}", "TODO", 2),
        format!("  {:<8} {}", "HACK", 1),
        String::new(),
        "By Author:".to_string(),
        format!("  {:<20} {}", "Al", 2),
        format!("  {:<20} {}", "unknown", 1),
        String::new(),
        "Age range: -2d - 4d".to_string(),
    ]
    .join("\n");
    assert_eq!(text, want);
}

#[test]
fn summary_of_nothing() {
    let s = build_summary(&[]);
    assert_eq!(s.total, 0);
    assert!(s.by_type.is_empty());
    assert_eq!(s.oldest_days, None);
    assert_eq!(format_summary(&s), "Code Debt Summary: 0 total items\n");
}

#[test]
fn markdown_exact_row() {
    let it = item("m.rs", 12, CommentType::Xxx, None, None);
    let out = gundi::format_markdown(&[it]);
    assert_eq!(
        out,
        "| Type | File | Line | Author | Age | Text |\n|------|------|------|--------|-----|------|\n| XXX | m.rs | 12 | unknown | ? | x |\n\n**Total: 1 items**"
    );
}

// ----- options -----

#[test]
fn type_names_to_kinds() {
    let names = vec!["todo".to_string(), "nope".to_string(), "BUG".to_string()];
    assert_eq!(parse_type_filter(&names), vec![CommentType::Todo, CommentType::Bug]);
}

#[test]
fn filters_follow_options() {
    let mut c = cli();
    c.types = Some(vec!["hack".to_string()]);
    c.author = Some("z".to_string());
    c.older_than = Some(3);
    let f = filters_from_cli(&c);
    assert_eq!(f.types, Some(vec![CommentType::Hack]));
    assert_eq!(f.author.as_deref(), Some("z"));
    assert_eq!(f.older_than, Some(3));
}

#[test]
fn gate_fails_and_counts() {
    let items = vec![
        item("a", 1, CommentType::Todo, None, Some(0)),
        item("a", 2, CommentType::Todo, None, Some(5)),
        item("a", 3, CommentType::Todo, None, None),
    ];
    assert_eq!(check_fail_on(&items, None), None);
    assert_eq!(check_fail_on(&items, Some(0)), Some(GateFailure { max_days: 0, count: 2 }));
    assert_eq!(check_fail_on(&items, Some(5)), Some(GateFailure { max_days: 5, count: 1 }));
    assert_eq!(check_fail_on(&items, Some(99999)), None);
    assert_eq!(
        gate_message(&GateFailure { max_days: 0, count: 2 }),
        "CI gate: 2 item(s) aged 0 days or more"
    );
}

#[test]
fn output_format_precedence() {
    let mut c = cli();
    assert_eq!(output_format(&c), Some(OutputFormat::Table));
    c.md = true;
    assert_eq!(output_format(&c), Some(OutputFormat::Markdown));
    c.json = true;
    assert_eq!(output_format(&c), Some(OutputFormat::Json));
    c.summary = true;
    assert_eq!(output_format(&c), Some(OutputFormat::SummaryJson));
    c.json = false;
    assert_eq!(output_format(&c), Some(OutputFormat::Summary));
    c.quiet = true;
    assert_eq!(output_format(&c), Some(OutputFormat::Summary));
    c.fail_on = Some(1);
    assert_eq!(output_format(&c), None);
}

// ----- text -----

#[test]
fn integers_parse_like_std() {
    assert_eq!(parse_usize(&chars("42")), Some(42));
    assert_eq!(parse_usize(&chars("+7")), Some(7));
    assert_eq!(parse_usize(&chars("")), None);
    assert_eq!(parse_usize(&chars("+")), None);
    assert_eq!(parse_usize(&chars("-1")), None);
    assert_eq!(parse_usize(&chars("1a")), None);
    assert_eq!(parse_usize(&chars("18446744073709551616")), "18446744073709551616".parse::<usize>().ok());
    assert_eq!(parse_i64(&chars("-9223372036854775808")), Some(i64::MIN));
    assert_eq!(parse_i64(&chars("9223372036854775807")), Some(i64::MAX));
    assert_eq!(parse_i64(&chars("9223372036854775808")), None);
    assert_eq!(parse_i64(&chars("-")), None);
    assert_eq!(parse_i64(&chars("+-1")), None);
    assert_eq!(parse_i64(&chars("0007")), Some(7));
}

#[test]
fn lines_words_and_trim_like_std() {
    let s = "a\r\nb\n\nc\r";
    let got: Vec<String> = split_lines(s).iter().map(|l| l.iter().collect()).collect();
    let want: Vec<String> = s.lines().map(String::from).collect();
    assert_eq!(got, want);
    let w: Vec<String> = split_words(&chars("  x\u{3000}yy\tz ")).iter().map(|l| l.iter().collect()).collect();
    assert_eq!(w, vec!["x", "yy", "z"]);
    let t: String = trim_chars(&chars("\u{a0} in \n")).iter().collect();
    assert_eq!(t, "in");
}

#[test]
fn numbers_and_padding() {
    let mut s = String::new();
    push_decimal(&mut s, 0);
    s.push(' ');
    push_decimal(&mut s, 1234567890);
    s.push(' ');
    push_signed(&mut s, -15);
    s.push(' ');
    push_signed(&mut s, i64::MIN);
    assert_eq!(s, format!("0 1234567890 -15 {}", i64::MIN));
    let mut p = String::new();
    push_padded(&mut p, &chars("ab"), 4);
    p.push('|');
    push_padded(&mut p, &chars("abcdef"), 4);
    assert_eq!(p, "ab  |abcdef");
}

#[test]
fn substring_search() {
    assert!(contains_str("Alice Smith", "ce S"));
    assert!(contains_str("abc", ""));
    assert!(!contains_str("ab", "abc"));
    assert!(!contains_str("abc", "ac"));
}

#[test]
fn gate_notice_only_when_not_quiet() {
    let g = Some(GateFailure { max_days: 3, count: 1 });
    assert_eq!(gate_notice(&g, false).as_deref(), Some("CI gate: 1 item(s) aged 3 days or more"));
    assert_eq!(gate_notice(&g, true), None);
    assert_eq!(gate_notice(&None, false), None);
}

#[test]
fn blame_only_when_asked_and_in_repo() {
    let mut c = cli();
    assert!(should_blame(&c, true));
    assert!(!should_blame(&c, false));
    c.no_blame = true;
    assert!(!should_blame(&c, true));
}
